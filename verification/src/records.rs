//! Records of delimited text, as the `csv` crate finds them.
//!
//! Where a record ends, and what its fields are, is the business of the `csv` crate. What is
//! relied on here is that a reader takes one record after another from the front of its input,
//! and that each is determined by the input that is left.
use vstd::prelude::*;

verus! {

/// A `csv` reader over bytes.
#[verifier::external_type_specification]
#[verifier::external_body]
#[verifier::reject_recursive_types(R)]
pub struct ExReader<R>(csv::Reader<R>);

/// A record of a `csv` reader.
#[verifier::external_type_specification]
#[verifier::external_body]
pub struct ExByteRecord(csv::ByteRecord);

/// What a reader has left to read.
pub struct Intake {
    /// The input that is left.
    pub unread: Seq<u8>,
    /// How many bytes of the input are gone.
    pub offset: int,
    /// The field separator.
    pub delimiter: u8,
    /// The quote.
    pub quote: u8,
    /// Whether nothing has been read yet.
    pub fresh: bool,
    /// Whether the reader gives every record, of any number of fields, as it is.
    pub plain: bool,
}

/// What a `csv` reader over bytes has left to read.
pub uninterp spec fn intake(reader: csv::Reader<&[u8]>) -> Intake;

/// The fields of a record.
pub uninterp spec fn record_fields(record: csv::ByteRecord) -> Seq<Seq<u8>>;

/// Where in the input the record was read.
pub uninterp spec fn record_start(record: csv::ByteRecord) -> Option<int>;

/// The fields of the record that the bytes start with, and how many bytes it takes up with
/// what stands before it and the terminator behind it; nothing where the bytes hold no record.
pub uninterp spec fn first_record(bytes: Seq<u8>, delimiter: u8, quote: u8) -> Option<
    (Seq<Seq<u8>>, int),
>;

/// `csv::ByteRecord::new` makes a record without fields.
pub assume_specification[ csv::ByteRecord::new ]() -> (record: csv::ByteRecord)
    ensures
        record_fields(record) == Seq::<Seq<u8>>::empty(),
        record_start(record) is None,
;

/// `csv::ByteRecord::len` counts the fields.
pub assume_specification[ csv::ByteRecord::len ](record: &csv::ByteRecord) -> (n: usize)
    ensures
        n == record_fields(*record).len(),
;

/// `csv::ByteRecord::get` gives the field at an index, and nothing behind the last one.
pub assume_specification[ csv::ByteRecord::get ](record: &csv::ByteRecord, i: usize) -> (field:
    Option<&[u8]>)
    ensures
        field is Some <==> i < record_fields(*record).len(),
        field matches Some(f) ==> f@ == record_fields(*record)[i as int],
;

/// `csv::ByteRecord::position`, for a record that was read: the byte it was read at.
#[verifier::external_body]
pub(crate) fn record_offset(record: &csv::ByteRecord) -> (offset: u64)
    requires
        record_start(*record) is Some,
    ensures
        Some(offset as int) == record_start(*record),
{
    record.position().map_or(0, csv::Position::byte)
}

/// `csv::ReaderBuilder`, set to give every record, of any number of fields, as it is.
#[verifier::external_body]
pub(crate) fn record_reader<'a>(bytes: &'a [u8], delimiter: u8, quote: u8) -> (reader: csv::Reader<
    &'a [u8],
>)
    ensures
        intake(reader) == (Intake {
            unread: bytes@,
            offset: 0,
            delimiter,
            quote,
            fresh: true,
            plain: true,
        }),
{
    csv::ReaderBuilder::new()
        .delimiter(delimiter)
        .quote(quote)
        .has_headers(false)
        .flexible(true)
        .from_reader(bytes)
}

/// Whether bytes start with the byte order mark of UTF-8.
pub open spec fn has_mark(bytes: Seq<u8>) -> bool {
    bytes.len() >= 3 && bytes[0] == 0xef && bytes[1] == 0xbb && bytes[2] == 0xbf
}

/// The bytes that a reader passes over before its first record.
pub open spec fn mark_len(bytes: Seq<u8>) -> int {
    if has_mark(bytes) {
        3
    } else {
        0
    }
}

/// Whether a byte order mark that bytes start with, if any, can be passed over without changing
/// where the record ends that stands there: behind it the record goes on with a byte that neither
/// ends a line nor quotes. The bytes of the mark have to be no quotes themselves.
pub open spec fn clear_mark(bytes: Seq<u8>, quote: u8) -> bool {
    has_mark(bytes) ==> {
        &&& bytes.len() > 3
        &&& bytes[3] != 0x0d && bytes[3] != 0x0a && bytes[3] != quote
        &&& quote != 0xef && quote != 0xbb && quote != 0xbf
    }
}

/// Whether the record that bytes start with ends at the same byte when a byte order mark before it is
/// passed over.
pub open spec fn resumes(bytes: Seq<u8>, delimiter: u8, quote: u8) -> bool {
    has_mark(bytes) ==> (first_record(bytes, delimiter, quote) matches Some((_, n)) && (first_record(
        bytes.skip(3),
        delimiter,
        quote,
    ) matches Some((_, m)) && 0 < m && n == 3 + m))
}

/// The bytes that a reader passes over before its next record.
pub open spec fn lead(state: Intake) -> int {
    if state.fresh {
        mark_len(state.unread)
    } else {
        0
    }
}

/// Whether the record at the front of the bytes stays the same when bytes behind it are cut off.
pub open spec fn settled(bytes: Seq<u8>, delimiter: u8, quote: u8) -> bool {
    match first_record(bytes, delimiter, quote) {
        Some((fields, n)) => forall|m: int|
            n <= m <= bytes.len() ==> #[trigger] first_record(bytes.take(m), delimiter, quote)
                == Some((fields, n)),
        None => true,
    }
}

/// What a reader takes its next record from.
pub open spec fn body(state: Intake) -> Seq<u8> {
    state.unread.skip(lead(state))
}

/// How many of these bytes a record took up.
pub open spec fn taken(before: Intake, after: Intake) -> int {
    after.offset - before.offset - lead(before)
}

/// `csv::Reader::read_byte_record` takes the next record from the input of the reader, after
/// passing over a byte order mark at its very start, and says whether there was one. A record
/// takes up at least one byte and has at least one field. Of the bytes behind a record nothing
/// is looked at, so the record would be the same without them. A mark that is followed by neither a
/// quote nor a line end would otherwise be the start of the first field, and the record would end at
/// the same byte. Reading from bytes in memory does not fail.
#[verifier::external_body]
pub(crate) fn read_record(
    reader: &mut csv::Reader<&[u8]>,
    record: &mut csv::ByteRecord,
) -> (more: bool)
    requires
        intake(*old(reader)).plain,
    ensures
        intake(*final(reader)).plain,
        match first_record(
            body(intake(*old(reader))),
            intake(*old(reader)).delimiter,
            intake(*old(reader)).quote,
        ) {
            Some((fields, n)) => {
                &&& more
                &&& record_fields(*final(record)) == fields
                &&& record_start(*final(record)) == Some(intake(*old(reader)).offset)
                &&& fields.len() > 0
                &&& 0 < n <= body(intake(*old(reader))).len()
                &&& intake(*final(reader)) == (Intake {
                    unread: body(intake(*old(reader))).skip(n),
                    offset: intake(*old(reader)).offset + lead(intake(*old(reader))) + n,
                    fresh: false,
                    ..intake(*old(reader))
                })
            },
            None => !more && intake(*final(reader)).unread.len() == 0,
        },
        more ==> forall|m: int|
            taken(intake(*old(reader)), intake(*final(reader))) <= m <= body(
                intake(*old(reader)),
            ).len() ==> #[trigger] first_record(
                body(intake(*old(reader))).take(m),
                intake(*old(reader)).delimiter,
                intake(*old(reader)).quote,
            ) == Some(
                (
                    record_fields(*final(record)),
                    taken(intake(*old(reader)), intake(*final(reader))),
                ),
            ),
        lead(intake(*old(reader))) > 0 && clear_mark(
            intake(*old(reader)).unread,
            intake(*old(reader)).quote,
        ) ==> more && (first_record(
            intake(*old(reader)).unread,
            intake(*old(reader)).delimiter,
            intake(*old(reader)).quote,
        ) matches Some((_, n)) && n == 3 + taken(
            intake(*old(reader)),
            intake(*final(reader)),
        )),
{
    reader.read_byte_record(record).unwrap_or(false)
}

/// One record of a source.
pub struct Row {
    /// The byte at which the record was read.
    pub start: int,
    /// The byte behind the record and its terminator.
    pub end: int,
    /// The fields.
    pub fields: Seq<Seq<u8>>,
}

/// The records from byte `start` on, where parsing goes on `skip` bytes behind it.
pub open spec fn rows_from(bytes: Seq<u8>, start: int, skip: int, delimiter: u8, quote: u8) -> Seq<
    Row,
>
    decreases bytes.len() - start - skip,
{
    if 0 <= start && 0 <= skip && start + skip <= bytes.len() {
        match first_record(bytes.skip(start + skip), delimiter, quote) {
            Some((fields, n)) => if 0 < n <= bytes.len() - start - skip {
                seq![Row { start, end: start + skip + n, fields }] + rows_from(
                    bytes,
                    start + skip + n,
                    0,
                    delimiter,
                    quote,
                )
            } else {
                Seq::empty()
            },
            None => Seq::empty(),
        }
    } else {
        Seq::empty()
    }
}

/// The records of a source.
pub open spec fn csv_rows(bytes: Seq<u8>, delimiter: u8, quote: u8) -> Seq<Row> {
    rows_from(bytes, 0, mark_len(bytes), delimiter, quote)
}

/// Where the parsing of a record of a source begins.
pub open spec fn body_start(bytes: Seq<u8>, rows: Seq<Row>, i: int) -> int {
    if i == 0 {
        mark_len(bytes)
    } else {
        rows[i].start
    }
}

/// Whether every record of a source stays the same when bytes behind it are cut off.
pub open spec fn all_settled(bytes: Seq<u8>, delimiter: u8, quote: u8) -> bool {
    let rows = csv_rows(bytes, delimiter, quote);
    forall|i: int|
        0 <= i < rows.len() ==> settled(
            bytes.skip(#[trigger] body_start(bytes, rows, i)),
            delimiter,
            quote,
        )
}

/// The records from a byte on lie one behind another, each within the source.
pub proof fn lemma_rows_from(bytes: Seq<u8>, start: int, skip: int, delimiter: u8, quote: u8)
    requires
        0 <= start,
        0 <= skip,
        start + skip <= bytes.len(),
    ensures
        ({
            let rows = rows_from(bytes, start, skip, delimiter, quote);
            &&& rows.len() <= bytes.len() - start - skip
            &&& forall|i: int|
                0 <= i < rows.len() ==> {
                    &&& (#[trigger] rows[i]).start == if i == 0 {
                        start
                    } else {
                        rows[i - 1].end
                    }
                    &&& first_record(
                        bytes.skip(
                            if i == 0 {
                                start + skip
                            } else {
                                rows[i].start
                            },
                        ),
                        delimiter,
                        quote,
                    ) == Some(
                        (
                            rows[i].fields,
                            rows[i].end - if i == 0 {
                                start + skip
                            } else {
                                rows[i].start
                            },
                        ),
                    )
                    &&& start <= rows[i].start < rows[i].end <= bytes.len()
                }
            &&& forall|i: int|
                0 < i <= rows.len() ==> rows.skip(i) == #[trigger] rows_from(
                    bytes,
                    rows[i - 1].end,
                    0,
                    delimiter,
                    quote,
                )
        }),
    decreases bytes.len() - start - skip,
{
    let rows = rows_from(bytes, start, skip, delimiter, quote);
    if rows.len() > 0 {
        let end = rows[0].end;
        let rest = rows_from(bytes, end, 0, delimiter, quote);
        lemma_rows_from(bytes, end, 0, delimiter, quote);
        assert(rows.skip(1) =~= rest);
        assert forall|i: int| 0 < i < rows.len() implies rows[i] == rest[i - 1] by {}
        assert forall|i: int| 0 < i <= rows.len() implies rows.skip(i) == #[trigger] rows_from(
            bytes,
            rows[i - 1].end,
            0,
            delimiter,
            quote,
        ) by {
            if i > 1 {
                assert(rows.skip(i) =~= rest.skip(i - 1));
                assert(rest[i - 2] == rows[i - 1]);
            }
        }
    }
}

/// Records lie in the order of their bytes, each within the source, and there are no more of them
/// than bytes.
pub proof fn records_lie_in_order(bytes: Seq<u8>, delimiter: u8, quote: u8, i: int, j: int)
    requires
        0 <= i <= j < csv_rows(bytes, delimiter, quote).len(),
    ensures
        csv_rows(bytes, delimiter, quote).len() <= bytes.len(),
        0 <= csv_rows(bytes, delimiter, quote)[i].start <= csv_rows(bytes, delimiter, quote)[j].start
            < bytes.len(),
    decreases j - i,
{
    lemma_rows_from(bytes, 0, mark_len(bytes), delimiter, quote);
    if i < j {
        records_lie_in_order(bytes, delimiter, quote, i, j - 1);
    }
}

/// What a fresh reader over the end of a source, from the start of a record on, reads: the records
/// of the source from that one on. A byte order mark that the first of them starts with is missing
/// in it, and has to be one that can be passed over.
pub proof fn lemma_resume(bytes: Seq<u8>, delimiter: u8, quote: u8, k: int)
    requires
        0 <= k < csv_rows(bytes, delimiter, quote).len(),
        k == 0 || resumes(
            bytes.skip(csv_rows(bytes, delimiter, quote)[k].start),
            delimiter,
            quote,
        ),
    ensures
        ({
            let rows = csv_rows(bytes, delimiter, quote);
            let at = rows[k].start;
            let again = csv_rows(bytes.skip(at), delimiter, quote);
            &&& again.len() == rows.len() - k
            &&& forall|i: int|
                0 <= i < again.len() ==> {
                    &&& (#[trigger] again[i]).start + at == rows[k + i].start
                    &&& again[i].end + at == rows[k + i].end
                    &&& i > 0 || k == 0 || !has_mark(bytes.skip(at)) ==> again[i].fields == rows[k
                        + i].fields
                }
        }),
{
    let rows = csv_rows(bytes, delimiter, quote);
    lemma_rows_from(bytes, 0, mark_len(bytes), delimiter, quote);
    let at = rows[k].start;
    let tail = bytes.skip(at);
    if k == 0 {
        assert(tail =~= bytes);
    } else {
        assert(rows.skip(k) == rows_from(bytes, rows[k - 1].end, 0, delimiter, quote));
        lemma_shift(bytes, at, at, delimiter, quote);
        let again = csv_rows(tail, delimiter, quote);
        let plain = rows_from(tail, 0, 0, delimiter, quote);
        assert(tail.skip(0) =~= tail);
        assert forall|i: int| 0 <= i < plain.len() implies (#[trigger] plain[i]).fields == rows[k
            + i].fields && plain[i].start + at == rows[k + i].start && plain[i].end + at == rows[k
            + i].end by {
            assert(rows.skip(k)[i] == rows[k + i]);
        }
        if has_mark(tail) {
            lemma_pass_mark(tail, delimiter, quote);
        }
    }
}

/// Passing over a byte order mark changes the fields of the first record only.
proof fn lemma_pass_mark(bytes: Seq<u8>, delimiter: u8, quote: u8)
    requires
        has_mark(bytes),
        resumes(bytes, delimiter, quote),
        rows_from(bytes, 0, 0, delimiter, quote).len() > 0,
    ensures
        ({
            let a = rows_from(bytes, 0, 0, delimiter, quote);
            let b = rows_from(bytes, 0, 3, delimiter, quote);
            &&& a.len() == b.len()
            &&& a[0].start == b[0].start
            &&& a[0].end == b[0].end
            &&& forall|i: int| 0 < i < b.len() ==> #[trigger] b[i] == a[i]
        }),
{
    let a = rows_from(bytes, 0, 0, delimiter, quote);
    let b = rows_from(bytes, 0, 3, delimiter, quote);
    assert(bytes.skip(0) =~= bytes);
    let (fields, n) = first_record(bytes, delimiter, quote)->0;
    let (others, m) = first_record(bytes.skip(3), delimiter, quote)->0;
    assert(0 < n <= bytes.len());
    let rest = rows_from(bytes, n, 0, delimiter, quote);
    assert(a == seq![Row { start: 0, end: n, fields }] + rest);
    assert(b == seq![Row { start: 0, end: n, fields: others }] + rest);
}

/// Reading from a byte of a source, and reading the rest of the source from that byte.
proof fn lemma_shift(bytes: Seq<u8>, at: int, start: int, delimiter: u8, quote: u8)
    requires
        0 <= at <= start <= bytes.len(),
    ensures
        ({
            let a = rows_from(bytes, start, 0, delimiter, quote);
            let b = rows_from(bytes.skip(at), start - at, 0, delimiter, quote);
            &&& a.len() == b.len()
            &&& forall|i: int|
                0 <= i < b.len() ==> (#[trigger] b[i]).fields == a[i].fields && b[i].start + at
                    == a[i].start && b[i].end + at == a[i].end
        }),
    decreases bytes.len() - start,
{
    let a = rows_from(bytes, start, 0, delimiter, quote);
    let b = rows_from(bytes.skip(at), start - at, 0, delimiter, quote);
    assert(bytes.skip(at).skip(start - at) =~= bytes.skip(start));
    if a.len() > 0 {
        let end = a[0].end;
        lemma_shift(bytes, at, end, delimiter, quote);
        let ra = rows_from(bytes, end, 0, delimiter, quote);
        let rb = rows_from(bytes.skip(at), end - at, 0, delimiter, quote);
        assert(a =~= seq![a[0]] + ra);
        assert(b =~= seq![b[0]] + rb);
        assert forall|i: int| 0 <= i < b.len() implies (#[trigger] b[i]).fields == a[i].fields
            && b[i].start + at == a[i].start && b[i].end + at == a[i].end by {
            if i > 0 {
                assert(b[i] == rb[i - 1]);
                assert(a[i] == ra[i - 1]);
            }
        }
    }
}

/// How far a reader has come in a source: `i` records are behind it.
pub open spec fn has_read(reader: csv::Reader<&[u8]>, bytes: Seq<u8>, delimiter: u8, quote: u8, i: int) -> bool {
    let rows = csv_rows(bytes, delimiter, quote);
    let state = intake(reader);
    &&& state.plain
    &&& state.delimiter == delimiter
    &&& state.quote == quote
    &&& state.fresh <==> i == 0
    &&& 0 <= i <= rows.len()
    &&& state.offset == if i == 0 {
        0
    } else {
        rows[i - 1].end
    }
    &&& state.offset <= bytes.len()
    &&& state.unread == bytes.skip(state.offset)
    &&& forall|k: int|
        0 <= k < i ==> settled(
            bytes.skip(#[trigger] body_start(bytes, rows, k)),
            delimiter,
            quote,
        )
}

/// A reader at the start of a source.
pub(crate) fn start_reading<'a>(bytes: &'a [u8], delimiter: u8, quote: u8) -> (reader: csv::Reader<
    &'a [u8],
>)
    ensures
        has_read(reader, bytes@, delimiter, quote, 0),
{
    let reader = record_reader(bytes, delimiter, quote);
    assert(bytes@.skip(0) =~= bytes@);
    reader
}

/// Where the parsing of the record behind `i` records begins.
pub open spec fn next_body(bytes: Seq<u8>, rows: Seq<Row>, i: int) -> int {
    if i == 0 {
        mark_len(bytes)
    } else {
        rows[i - 1].end
    }
}

proof fn lemma_next(bytes: Seq<u8>, delimiter: u8, quote: u8, i: int)
    requires
        0 <= i <= csv_rows(bytes, delimiter, quote).len(),
    ensures
        ({
            let rows = csv_rows(bytes, delimiter, quote);
            let body = next_body(bytes, rows, i);
            &&& 0 <= body <= bytes.len()
            &&& i < rows.len() ==> {
                &&& first_record(bytes.skip(body), delimiter, quote) == Some(
                    (rows[i].fields, rows[i].end - body),
                )
                &&& body_start(bytes, rows, i) == body
                &&& rows[i].start == if i == 0 {
                    0
                } else {
                    body
                }
                &&& rows[i].end <= bytes.len()
            }
            &&& i == rows.len() ==> (first_record(bytes.skip(body), delimiter, quote) matches Some(
                (fields, n),
            ) ==> !(0 < n <= bytes.len() - body))
        }),
{
    let rows = csv_rows(bytes, delimiter, quote);
    lemma_rows_from(bytes, 0, mark_len(bytes), delimiter, quote);
    if i == rows.len() && i > 0 {
        assert(rows.skip(i) == rows_from(bytes, rows[i - 1].end, 0, delimiter, quote));
        assert(rows.skip(i).len() == 0);
        assert(0 <= rows[i - 1].start);
    } else if i > 0 {
        assert(rows[i].start == rows[i - 1].end);
        assert(0 <= rows[i - 1].start);
    }
}

/// Takes the next record of a source, of which `i` records have been read.
pub(crate) fn read_row(
    reader: &mut csv::Reader<&[u8]>,
    record: &mut csv::ByteRecord,
    Ghost(bytes): Ghost<Seq<u8>>,
    Ghost(delimiter): Ghost<u8>,
    Ghost(quote): Ghost<u8>,
    Ghost(i): Ghost<int>,
) -> (more: bool)
    requires
        has_read(*old(reader), bytes, delimiter, quote, i),
    ensures
        more == (i < csv_rows(bytes, delimiter, quote).len()),
        more ==> {
            &&& has_read(*final(reader), bytes, delimiter, quote, i + 1)
            &&& record_fields(*final(record)) == csv_rows(bytes, delimiter, quote)[i].fields
            &&& record_start(*final(record)) == Some(csv_rows(bytes, delimiter, quote)[i].start)
            &&& record_fields(*final(record)).len() > 0
        },
        !more ==> all_settled(bytes, delimiter, quote),
        i == 0 && clear_mark(bytes, quote) ==> resumes(bytes, delimiter, quote),
{
    let ghost rows = csv_rows(bytes, delimiter, quote);
    let ghost state = intake(*reader);
    let ghost body = next_body(bytes, rows, i);
    proof {
        lemma_next(bytes, delimiter, quote, i);
        if i == 0 {
            assert(bytes.skip(0) =~= bytes);
        }
        assert(body == state.offset + lead(state));
        assert(self::body(state) =~= bytes.skip(body));
    }
    let more = read_record(reader, record);
    proof {
        if more {
            let n = rows[i].end - body;
            assert(self::body(state).skip(n) =~= bytes.skip(body + n));
        }
    }
    more
}

/// A source is read record by record: each record is the one that the bytes behind the record before
/// it start with (for the first one, the bytes behind a byte order mark), it ends where the next one
/// starts, and behind the last one there is no further record.
pub proof fn records_are_read_one_after_another(bytes: Seq<u8>, delimiter: u8, quote: u8, i: int)
    requires
        0 <= i <= csv_rows(bytes, delimiter, quote).len(),
    ensures
        ({
            let rows = csv_rows(bytes, delimiter, quote);
            let marked = bytes.len() >= 3 && bytes[0] == 0xef && bytes[1] == 0xbb && bytes[2] == 0xbf;
            let at = if i > 0 {
                rows[i - 1].end
            } else if marked {
                3
            } else {
                0
            };
            &&& i < rows.len() ==> rows[i].start == if i > 0 {
                rows[i - 1].end
            } else {
                0
            }
            &&& i < rows.len() ==> first_record(bytes.skip(at), delimiter, quote) == Some(
                (rows[i].fields, rows[i].end - at),
            )
            &&& i == rows.len() ==> (first_record(bytes.skip(at), delimiter, quote) matches Some((_, n))
                ==> n <= 0 || at + n > bytes.len())
        }),
{
    let rows = csv_rows(bytes, delimiter, quote);
    lemma_rows_from(bytes, 0, mark_len(bytes), delimiter, quote);
    if i == rows.len() && i > 0 {
        let end = rows[i - 1].end;
        assert(rows.skip(i) == rows_from(bytes, end, 0, delimiter, quote));
        assert(rows.skip(i).len() == 0);
    }
}

} // verus!
