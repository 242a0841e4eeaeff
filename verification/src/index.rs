//! The offset index: where each record of a source begins.
//!
//! One offset is kept for every 1024 records. To find another record, the records from the offset
//! before it on are read again. Records are found by the `csv` crate, so that a line end within
//! quotes does not end one.
use vstd::prelude::*;
use crate::cancel::CancellationToken;
use crate::codec::{push_u32, push_u64, read_bytes, read_u32, read_u64, read_u8};
use crate::error::Error;
use crate::parse::Dialect;
use crate::records::{read_row, record_offset, start_reading, Row};
use crate::text::same_bytes;

verus! {

/// Records from one kept offset to the next.
pub const ANCHOR_INTERVAL: u64 = 1024;

/// Records from one report to the next.
pub const REPORT_INTERVAL: u64 = 4096;

/// How far the building of an index has come.
#[derive(Clone, Copy, Debug, PartialEq, Eq, Structural)]
pub struct Progress {
    /// The byte that was reached.
    pub bytes_processed: u64,
    /// The records so far.
    pub rows_indexed: u64,
}

impl Default for Progress {
    fn default() -> (r: Progress)
        ensures
            r == (Progress { bytes_processed: 0, rows_indexed: 0 }),
    {
        Progress { bytes_processed: 0, rows_indexed: 0 }
    }
}

/// The contents of an index.
pub struct IndexView {
    pub anchors: Seq<u64>,
    pub row_count: u64,
    pub ragged_rows: u64,
    pub delimiter: u8,
    pub quote: u8,
}

/// How many of the first `n` records have another number of fields than the first one.
pub open spec fn count_ragged(rows: Seq<Row>, n: int) -> int
    decreases n,
{
    if n <= 0 {
        0
    } else {
        count_ragged(rows, n - 1) + if rows[n - 1].fields.len() != rows[0].fields.len() {
            1int
        } else {
            0
        }
    }
}

/// The kept offsets of the first `n` records.
pub open spec fn anchors_of(rows: Seq<Row>, n: int) -> Seq<u64> {
    Seq::new(
        ((n + ANCHOR_INTERVAL - 1) / ANCHOR_INTERVAL as int) as nat,
        |k: int| rows[k * ANCHOR_INTERVAL].start as u64,
    )
}

/// The index over a source.
pub open spec fn index_over(bytes: Seq<u8>, delimiter: u8, quote: u8) -> IndexView {
    let rows = crate::records::csv_rows(bytes, delimiter, quote);
    IndexView {
        anchors: anchors_of(rows, rows.len() as int),
        row_count: rows.len() as u64,
        ragged_rows: count_ragged(rows, rows.len() as int) as u64,
        delimiter,
        quote,
    }
}

/// What is reported while the index over a source is built: one report for every 4096 records, and
/// one for the whole source.
pub open spec fn reports(bytes: Seq<u8>, delimiter: u8, quote: u8) -> Seq<Progress> {
    let rows = crate::records::csv_rows(bytes, delimiter, quote);
    let whole = rows.len() as int / REPORT_INTERVAL as int;
    Seq::new(
        (whole + 1) as nat,
        |k: int|
            if k < whole {
                Progress {
                    bytes_processed: rows[(k + 1) * REPORT_INTERVAL - 1].start as u64,
                    rows_indexed: ((k + 1) * REPORT_INTERVAL) as u64,
                }
            } else {
                Progress {
                    bytes_processed: bytes.len() as u64,
                    rows_indexed: rows.len() as u64,
                }
            },
    )
}

/// Reports never go back, and the last one has the totals.
pub proof fn reports_never_decrease(bytes: Seq<u8>, delimiter: u8, quote: u8, i: int, j: int)
    requires
        bytes.len() <= u64::MAX,
        0 <= i <= j < reports(bytes, delimiter, quote).len(),
    ensures
        reports(bytes, delimiter, quote)[i].bytes_processed <= reports(
            bytes,
            delimiter,
            quote,
        )[j].bytes_processed,
        reports(bytes, delimiter, quote)[i].rows_indexed <= reports(
            bytes,
            delimiter,
            quote,
        )[j].rows_indexed,
        reports(bytes, delimiter, quote).last() == (Progress {
            bytes_processed: bytes.len() as u64,
            rows_indexed: crate::records::csv_rows(bytes, delimiter, quote).len() as u64,
        }),
{
    let rows = crate::records::csv_rows(bytes, delimiter, quote);
    let whole = rows.len() as int / REPORT_INTERVAL as int;
    if rows.len() > 0 {
        crate::records::records_lie_in_order(bytes, delimiter, quote, 0, rows.len() - 1);
    }
    if i < whole {
        let a = (i + 1) * REPORT_INTERVAL - 1;
        let b = if j < whole {
            (j + 1) * REPORT_INTERVAL - 1
        } else {
            rows.len() - 1
        };
        assert(0 <= a <= b < rows.len());
        crate::records::records_lie_in_order(bytes, delimiter, quote, a, b);
    }
}

impl IndexView {
    /// Where the index finds a record of a source: at a kept offset, or by reading the records from
    /// the kept offset before it on. Nothing behind the last record, and nothing where the index
    /// does not belong to the source.
    pub open spec fn located(self, bytes: Seq<u8>, row: int) -> Option<int> {
        let k = row / ANCHOR_INTERVAL as int;
        let skip = row % ANCHOR_INTERVAL as int;
        if row < 0 || row >= self.row_count || k >= self.anchors.len() {
            None
        } else if skip == 0 {
            Some(self.anchors[k] as int)
        } else if self.anchors[k] > bytes.len() {
            None
        } else {
            let at = self.anchors[k] as int;
            let rows = crate::records::csv_rows(bytes.skip(at), self.delimiter, self.quote);
            if skip < rows.len() {
                Some(at + rows[skip].start)
            } else {
                None
            }
        }
    }
}

/// Whether a record of a source is found from the kept offset before it: that is the record itself,
/// or the start of the source, or one at which a new reader finds the same records.
pub open spec fn can_resume(bytes: Seq<u8>, delimiter: u8, quote: u8, row: int) -> bool {
    let rows = crate::records::csv_rows(bytes, delimiter, quote);
    let skip = row % ANCHOR_INTERVAL as int;
    skip == 0 || row < ANCHOR_INTERVAL || crate::records::resumes(
        bytes.skip(rows[row - skip].start),
        delimiter,
        quote,
    )
}

/// Whether no byte order mark stands in the way of finding a record from the kept offset before it:
/// one that this record starts with is followed by neither a quote nor a line end.
pub open spec fn unobstructed(bytes: Seq<u8>, delimiter: u8, quote: u8, row: int) -> bool {
    let rows = crate::records::csv_rows(bytes, delimiter, quote);
    let skip = row % ANCHOR_INTERVAL as int;
    skip == 0 || row < ANCHOR_INTERVAL || crate::records::clear_mark(
        bytes.skip(rows[row - skip].start),
        quote,
    )
}

/// An index over a source finds every record of the source, unless the record at the kept offset
/// before it starts with a byte order mark, which a new reader passes over, and ends elsewhere
/// without it.
pub proof fn index_finds_records(bytes: Seq<u8>, delimiter: u8, quote: u8, row: int)
    requires
        bytes.len() <= u64::MAX,
        0 <= row < crate::records::csv_rows(bytes, delimiter, quote).len(),
        can_resume(bytes, delimiter, quote, row),
    ensures
        index_over(bytes, delimiter, quote).located(bytes, row) == Some(
            crate::records::csv_rows(bytes, delimiter, quote)[row].start,
        ),
{
    let rows = crate::records::csv_rows(bytes, delimiter, quote);
    let k = row / ANCHOR_INTERVAL as int;
    let skip = row % ANCHOR_INTERVAL as int;
    let anchor = row - skip;
    assert(anchor == k * ANCHOR_INTERVAL);
    assert(k < anchors_of(rows, rows.len() as int).len());
    crate::records::records_lie_in_order(bytes, delimiter, quote, anchor, row);
    let at = rows[anchor].start;
    assert(index_over(bytes, delimiter, quote).anchors[k] == at);
    if skip > 0 {
        crate::records::lemma_resume(bytes, delimiter, quote, anchor);
        let again = crate::records::csv_rows(bytes.skip(at), delimiter, quote);
        assert(again[skip].start + at == rows[anchor + skip].start);
    }
}

/// The kept offset before a record of a source.
proof fn lemma_anchor(bytes: Seq<u8>, delimiter: u8, quote: u8, row: int)
    requires
        bytes.len() <= u64::MAX,
        0 <= row < crate::records::csv_rows(bytes, delimiter, quote).len(),
    ensures
        ({
            let rows = crate::records::csv_rows(bytes, delimiter, quote);
            let index = index_over(bytes, delimiter, quote);
            let k = row / ANCHOR_INTERVAL as int;
            &&& index.row_count == rows.len()
            &&& k < index.anchors.len()
            &&& index.anchors[k] == rows[row - row % ANCHOR_INTERVAL as int].start
            &&& index.anchors[k] < bytes.len()
        }),
{
    let rows = crate::records::csv_rows(bytes, delimiter, quote);
    let anchor = row - row % ANCHOR_INTERVAL as int;
    assert(anchor == (row / ANCHOR_INTERVAL as int) * ANCHOR_INTERVAL);
    crate::records::records_lie_in_order(bytes, delimiter, quote, anchor, row);
}

/// An index gives nothing behind the last record.
pub proof fn index_ends_with_the_source(bytes: Seq<u8>, delimiter: u8, quote: u8, row: int)
    requires
        bytes.len() <= u64::MAX,
        row >= crate::records::csv_rows(bytes, delimiter, quote).len(),
    ensures
        index_over(bytes, delimiter, quote).located(bytes, row) is None,
{
    let rows = crate::records::csv_rows(bytes, delimiter, quote);
    if rows.len() > 0 {
        crate::records::records_lie_in_order(bytes, delimiter, quote, 0, 0);
    }
}

/// Offsets exist exactly for the records of a source, rise strictly from record to record, and lie
/// within the source.
pub proof fn offsets_rise(bytes: Seq<u8>, delimiter: u8, quote: u8, i: int, j: int)
    requires
        bytes.len() <= u64::MAX,
        0 <= i < j,
        j < crate::records::csv_rows(bytes, delimiter, quote).len() ==> can_resume(
            bytes,
            delimiter,
            quote,
            i,
        ) && can_resume(bytes, delimiter, quote, j),
    ensures
        ({
            let index = index_over(bytes, delimiter, quote);
            &&& j < index.row_count <==> index.located(bytes, j) is Some
            &&& index.located(bytes, j) matches Some(b) ==> (index.located(bytes, i) matches Some(a)
                && 0 <= a < b < bytes.len())
        }),
{
    let rows = crate::records::csv_rows(bytes, delimiter, quote);
    if j < rows.len() {
        index_finds_records(bytes, delimiter, quote, i);
        index_finds_records(bytes, delimiter, quote, j);
        crate::records::records_lie_in_order(bytes, delimiter, quote, i, j - 1);
        crate::records::records_lie_in_order(bytes, delimiter, quote, j - 1, j);
        crate::records::lemma_rows_from(
            bytes,
            0,
            crate::records::mark_len(bytes),
            delimiter,
            quote,
        );
        assert(rows[j - 1].end == rows[j].start);
    } else {
        index_ends_with_the_source(bytes, delimiter, quote, j);
        if rows.len() > 0 {
            crate::records::records_lie_in_order(bytes, delimiter, quote, 0, 0);
        }
    }
}

/// The index while it is built.
pub struct IndexBuilder<'a> {
    bytes: &'a [u8],
    reader: csv::Reader<&'a [u8]>,
    record: csv::ByteRecord,
    anchors: Vec<u64>,
    row_count: u64,
    ragged_rows: u64,
    width: usize,
    delimiter: u8,
    quote: u8,
    done: bool,
}

impl<'a> IndexBuilder<'a> {
    /// The source.
    pub closed spec fn source(&self) -> Seq<u8> {
        self.bytes@
    }

    /// The delimiter and the quote.
    pub closed spec fn marks(&self) -> (u8, u8) {
        (self.delimiter, self.quote)
    }

    /// Whether the whole source was read.
    pub closed spec fn complete(&self) -> bool {
        self.done
    }

    /// The number of reports so far.
    pub closed spec fn reported(&self) -> int {
        self.row_count as int / REPORT_INTERVAL as int + if self.done {
            1int
        } else {
            0
        }
    }

    spec fn rows(&self) -> Seq<Row> {
        crate::records::csv_rows(self.bytes@, self.delimiter, self.quote)
    }

    spec fn counts(&self, n: int) -> bool {
        &&& self.row_count == n
        &&& 0 <= n <= self.rows().len() <= self.bytes@.len()
        &&& self.anchors@ == anchors_of(self.rows(), n)
        &&& self.ragged_rows == count_ragged(self.rows(), n)
        &&& self.ragged_rows <= n
        &&& n > 0 ==> self.width == self.rows()[0].fields.len()
    }

    /// The invariant of the builder.
    pub closed spec fn wf(&self) -> bool {
        &&& self.counts(self.row_count as int)
        &&& if self.done {
            &&& self.row_count == self.rows().len()
            &&& crate::records::all_settled(self.bytes@, self.delimiter, self.quote)
        } else {
            &&& crate::records::has_read(
                self.reader,
                self.bytes@,
                self.delimiter,
                self.quote,
                self.row_count as int,
            )
            &&& self.row_count as int % REPORT_INTERVAL as int == 0
        }
    }

    /// Starts to build the index over a source.
    pub fn new(bytes: &'a [u8], dialect: &Dialect) -> (r: IndexBuilder<'a>)
        ensures
            r.wf(),
            r.source() == bytes@,
            r.marks() == (dialect.delimiter, dialect.quote),
            r.reported() == 0,
            !r.complete(),
    {
        let reader = start_reading(bytes, dialect.delimiter, dialect.quote);
        let r = IndexBuilder {
            bytes,
            reader,
            record: csv::ByteRecord::new(),
            anchors: Vec::new(),
            row_count: 0,
            ragged_rows: 0,
            width: 0,
            delimiter: dialect.delimiter,
            quote: dialect.quote,
            done: false,
        };
        proof {
            crate::records::lemma_rows_from(
                bytes@,
                0,
                crate::records::mark_len(bytes@),
                dialect.delimiter,
                dialect.quote,
            );
            assert(r.anchors@ =~= anchors_of(r.rows(), 0));
        }
        r
    }

    /// Reads the next record.
    fn step(&mut self) -> (more: bool)
        requires
            old(self).counts(old(self).row_count as int),
            crate::records::has_read(
                old(self).reader,
                old(self).bytes@,
                old(self).delimiter,
                old(self).quote,
                old(self).row_count as int,
            ),
        ensures
            final(self).bytes@ == old(self).bytes@,
            final(self).delimiter == old(self).delimiter,
            final(self).quote == old(self).quote,
            final(self).done == old(self).done,
            more == (old(self).row_count < old(self).rows().len()),
            final(self).counts(final(self).row_count as int),
            more ==> {
                &&& final(self).row_count == old(self).row_count + 1
                &&& crate::records::has_read(
                    final(self).reader,
                    final(self).bytes@,
                    final(self).delimiter,
                    final(self).quote,
                    final(self).row_count as int,
                )
                &&& crate::records::record_start(final(self).record) == Some(
                    final(self).rows()[old(self).row_count as int].start,
                )
            },
            !more ==> final(self).row_count == old(self).row_count && crate::records::all_settled(
                final(self).bytes@,
                final(self).delimiter,
                final(self).quote,
            ),
    {
        let ghost rows = self.rows();
        let ghost n = self.row_count as int;
        let size: usize = self.bytes.len();
        assert(rows.len() <= size);
        let more = read_row(
            &mut self.reader,
            &mut self.record,
            Ghost(self.bytes@),
            Ghost(self.delimiter),
            Ghost(self.quote),
            Ghost(self.row_count as int),
        );
        if more {
            let width: usize = self.record.len();
            if self.row_count == 0 {
                self.width = width;
            } else if width != self.width {
                self.ragged_rows = self.ragged_rows + 1;
            }
            if self.row_count % ANCHOR_INTERVAL == 0 {
                let offset: u64 = record_offset(&self.record);
                self.anchors.push(offset);
            }
            self.row_count = self.row_count + 1;
            proof {
                assert(self.anchors@ =~= anchors_of(rows, n + 1)) by {
                    let a = anchors_of(rows, n);
                    let b = anchors_of(rows, n + 1);
                    if n % ANCHOR_INTERVAL as int == 0 {
                        assert(b.len() == a.len() + 1);
                        assert(a.len() * ANCHOR_INTERVAL == n);
                    } else {
                        assert(b.len() == a.len());
                    }
                }
            }
        }
        more
    }

    /// Reads on to the next report, and says whether it is the last one.
    pub fn advance(&mut self) -> (r: (Progress, bool))
        requires
            old(self).wf(),
            !old(self).complete(),
        ensures
            final(self).wf(),
            final(self).source() == old(self).source(),
            final(self).marks() == old(self).marks(),
            final(self).reported() == old(self).reported() + 1,
            final(self).reported() <= reports(
                old(self).source(),
                old(self).marks().0,
                old(self).marks().1,
            ).len(),
            r.0 == reports(
                old(self).source(),
                old(self).marks().0,
                old(self).marks().1,
            )[old(self).reported()],
            r.1 == final(self).complete(),
            r.1 == (final(self).reported() == reports(
                old(self).source(),
                old(self).marks().0,
                old(self).marks().1,
            ).len()),
    {
        let ghost rows = self.rows();
        let ghost before = self.row_count as int;
        let ghost k = before / REPORT_INTERVAL as int;
        loop
            invariant
                self.bytes@ == old(self).bytes@,
                self.delimiter == old(self).delimiter,
                self.quote == old(self).quote,
                old(self).wf(),
                !old(self).done,
                !self.done,
                before == old(self).row_count,
                k == before / REPORT_INTERVAL as int,
                before == k * REPORT_INTERVAL,
                rows == self.rows(),
                rows == old(self).rows(),
                self.counts(self.row_count as int),
                before <= self.row_count < before + REPORT_INTERVAL,
                crate::records::has_read(
                    self.reader,
                    self.bytes@,
                    self.delimiter,
                    self.quote,
                    self.row_count as int,
                ),
            decreases rows.len() - self.row_count,
        {
            let more = self.step();
            if !more {
                let total: u64 = self.bytes.len() as u64;
                self.done = true;
                proof {
                    assert(rows.len() as int / REPORT_INTERVAL as int == k);
                }
                return (
                    Progress { bytes_processed: total, rows_indexed: self.row_count },
                    true,
                );
            }
            if self.row_count % REPORT_INTERVAL == 0 {
                let offset: u64 = record_offset(&self.record);
                proof {
                    assert(self.row_count == (k + 1) * REPORT_INTERVAL);
                    assert(rows.len() as int / REPORT_INTERVAL as int >= k + 1);
                }
                return (
                    Progress { bytes_processed: offset, rows_indexed: self.row_count },
                    false,
                );
            }
        }
    }

    /// The index over the whole source.
    pub fn finish(self) -> (r: OffsetIndex)
        requires
            self.wf(),
            self.complete(),
        ensures
            r@ == index_over(self.source(), self.marks().0, self.marks().1),
            crate::records::all_settled(self.source(), self.marks().0, self.marks().1),
    {
        OffsetIndex {
            anchors: self.anchors,
            row_count: self.row_count,
            ragged_rows: self.ragged_rows,
            delimiter: self.delimiter,
            quote: self.quote,
        }
    }
}

/// An index from records to the bytes at which they begin.
pub struct OffsetIndex {
    anchors: Vec<u64>,
    row_count: u64,
    ragged_rows: u64,
    delimiter: u8,
    quote: u8,
}

impl View for OffsetIndex {
    type V = IndexView;

    closed spec fn view(&self) -> IndexView {
        IndexView {
            anchors: self.anchors@,
            row_count: self.row_count,
            ragged_rows: self.ragged_rows,
            delimiter: self.delimiter,
            quote: self.quote,
        }
    }
}

/// The bytes that an index starts with on disk.
pub open spec fn index_magic() -> Seq<u8> {
    seq![0x54u8, 0x5au8, 0x49u8, 0x58u8]
}

/// The version of the layout on disk.
pub const INDEX_VERSION: u32 = 2;

/// The bytes of offsets, one behind another.
pub open spec fn anchor_bytes(anchors: Seq<u64>) -> Seq<u8>
    decreases anchors.len(),
{
    if anchors.len() == 0 {
        Seq::empty()
    } else {
        anchor_bytes(anchors.drop_last()) + vstd::bytes::spec_u64_to_le_bytes(anchors.last())
    }
}

/// An index on disk.
pub open spec fn index_blob(v: IndexView) -> Seq<u8> {
    index_magic() + vstd::bytes::spec_u32_to_le_bytes(INDEX_VERSION) + seq![v.delimiter, v.quote]
        + vstd::bytes::spec_u64_to_le_bytes(v.row_count) + vstd::bytes::spec_u64_to_le_bytes(
        v.ragged_rows,
    ) + vstd::bytes::spec_u64_to_le_bytes(v.anchors.len() as u64) + anchor_bytes(v.anchors)
}

/// The index that a blob holds: nothing where it starts otherwise, has another version or is too
/// short. What stands behind the index does not matter.
pub open spec fn index_in(blob: Seq<u8>) -> Option<IndexView> {
    if blob.len() < 34 || blob.take(4) != index_magic() || crate::codec::u32_at(blob, 4)
        != INDEX_VERSION {
        None
    } else {
        let n = crate::codec::u64_at(blob, 26);
        if blob.len() < 34 + 8 * n {
            None
        } else {
            Some(
                IndexView {
                    anchors: Seq::new(n as nat, |k: int| crate::codec::u64_at(blob, 34 + 8 * k)),
                    row_count: crate::codec::u64_at(blob, 10),
                    ragged_rows: crate::codec::u64_at(blob, 18),
                    delimiter: blob[8],
                    quote: blob[9],
                },
            )
        }
    }
}

proof fn lemma_anchor_bytes(anchors: Seq<u64>, k: int)
    ensures
        anchor_bytes(anchors).len() == 8 * anchors.len(),
        0 <= k < anchors.len() ==> anchor_bytes(anchors).subrange(8 * k, 8 * k + 8)
            == vstd::bytes::spec_u64_to_le_bytes(anchors[k]),
    decreases anchors.len(),
{
    vstd::bytes::lemma_auto_spec_u64_to_from_le_bytes();
    if anchors.len() > 0 {
        lemma_anchor_bytes(anchors.drop_last(), k);
        let last = vstd::bytes::spec_u64_to_le_bytes(anchors.last());
        assert(last.len() == 8);
        let a = anchor_bytes(anchors.drop_last());
        if k == anchors.len() - 1 {
            assert((a + last).subrange(8 * k, 8 * k + 8) =~= last);
        } else if 0 <= k < anchors.len() {
            assert((a + last).subrange(8 * k, 8 * k + 8) =~= a.subrange(8 * k, 8 * k + 8));
        }
    }
}

/// What is read back from disk is what was written, whatever stands behind it.
pub proof fn index_round_trip(v: IndexView, after: Seq<u8>)
    requires
        v.anchors.len() <= u64::MAX,
    ensures
        index_in(index_blob(v) + after) == Some(v),
{
    vstd::bytes::lemma_auto_spec_u32_to_from_le_bytes();
    vstd::bytes::lemma_auto_spec_u64_to_from_le_bytes();
    let version = vstd::bytes::spec_u32_to_le_bytes(INDEX_VERSION);
    let rows = vstd::bytes::spec_u64_to_le_bytes(v.row_count);
    let ragged = vstd::bytes::spec_u64_to_le_bytes(v.ragged_rows);
    let count = vstd::bytes::spec_u64_to_le_bytes(v.anchors.len() as u64);
    let tail = anchor_bytes(v.anchors);
    let blob = index_blob(v) + after;
    assert(version.len() == 4 && rows.len() == 8 && ragged.len() == 8 && count.len() == 8);
    lemma_anchor_bytes(v.anchors, 0);
    assert(blob.take(4) =~= index_magic());
    assert(blob.subrange(4, 8) =~= version);
    assert(blob[8] == v.delimiter && blob[9] == v.quote);
    assert(blob.subrange(10, 18) =~= rows);
    assert(blob.subrange(18, 26) =~= ragged);
    assert(blob.subrange(26, 34) =~= count);
    let again = index_in(blob)->0;
    assert forall|k: int| 0 <= k < v.anchors.len() implies again.anchors[k] == v.anchors[k] by {
        lemma_anchor_bytes(v.anchors, k);
        assert(blob.subrange(34 + 8 * k, 34 + 8 * k + 8) =~= tail.subrange(8 * k, 8 * k + 8));
    }
    assert(again.anchors =~= v.anchors);
}

impl OffsetIndex {
    /// Builds the index over a source.
    pub fn build(bytes: &[u8], dialect: &Dialect) -> (r: Result<OffsetIndex, Error>)
        ensures
            r matches Ok(index) && index@ == index_over(bytes@, dialect.delimiter, dialect.quote),
            crate::records::all_settled(bytes@, dialect.delimiter, dialect.quote),
    {
        let mut builder = IndexBuilder::new(bytes, dialect);
        loop
            invariant
                builder.wf(),
                !builder.complete(),
                builder.source() == bytes@,
                builder.marks() == (dialect.delimiter, dialect.quote),
            decreases
                reports(bytes@, dialect.delimiter, dialect.quote).len() - builder.reported(),
        {
            let (_, done) = builder.advance();
            if done {
                return Ok(builder.finish());
            }
        }
    }

    /// Builds the index over a source, unless it is cancelled meanwhile, and reports how far it has
    /// come: the reports are those that the builder gives.
    pub fn build_with(
        bytes: &[u8],
        dialect: &Dialect,
        cancel: &CancellationToken,
        progress: impl FnMut(Progress),
    ) -> (r: Result<OffsetIndex, Error>)
        requires
            forall|k: int|
                0 <= k < reports(bytes@, dialect.delimiter, dialect.quote).len()
                    ==> progress.requires((#[trigger] reports(bytes@, dialect.delimiter, dialect.quote)[k],)),
        ensures
            match r {
                Ok(index) => index@ == index_over(bytes@, dialect.delimiter, dialect.quote)
                    && crate::records::all_settled(bytes@, dialect.delimiter, dialect.quote),
                Err(e) => e is Cancelled,
            },
            r is Ok ==> forall|k: int|
                0 <= k < reports(bytes@, dialect.delimiter, dialect.quote).len() ==> progress.ensures(
                    (#[trigger] reports(bytes@, dialect.delimiter, dialect.quote)[k],),
                    (),
                ),
    {
        let mut builder = IndexBuilder::new(bytes, dialect);
        let mut call = progress;
        loop
            invariant
                builder.wf(),
                !builder.complete(),
                builder.source() == bytes@,
                builder.marks() == (dialect.delimiter, dialect.quote),
                forall|k: int|
                    0 <= k < reports(bytes@, dialect.delimiter, dialect.quote).len()
                        ==> progress.requires((#[trigger] reports(bytes@, dialect.delimiter, dialect.quote)[k],)),
                call == progress,
                forall|k: int|
                    0 <= k < builder.reported() ==> progress.ensures(
                        (#[trigger] reports(bytes@, dialect.delimiter, dialect.quote)[k],),
                        (),
                    ),
            decreases
                reports(bytes@, dialect.delimiter, dialect.quote).len() - builder.reported(),
        {
            let (report, done) = builder.advance();
            if cancel.is_cancelled() {
                return Err(Error::Cancelled);
            }
            call(report);
            if done {
                return Ok(builder.finish());
            }
        }
    }

    /// The number of records.
    pub fn row_count(&self) -> (n: u64)
        ensures
            n == self@.row_count,
    {
        self.row_count
    }

    /// The number of records that have another number of fields than the first one.
    pub fn ragged_rows(&self) -> (n: u64)
        ensures
            n == self@.ragged_rows,
    {
        self.ragged_rows
    }

    /// The byte at which a record begins.
    pub fn offset_of_row(&self, bytes: &[u8], row: u64) -> (r: Option<u64>)
        ensures
            match r {
                Some(offset) => self@.located(bytes@, row as int) == Some(offset as int),
                None => self@.located(bytes@, row as int) is None,
            },
            self@ == index_over(bytes@, self@.delimiter, self@.quote) && row < self@.row_count
                && unobstructed(bytes@, self@.delimiter, self@.quote, row as int) ==> {
                &&& can_resume(bytes@, self@.delimiter, self@.quote, row as int)
                &&& r matches Some(offset) && offset == crate::records::csv_rows(
                    bytes@,
                    self@.delimiter,
                    self@.quote,
                )[row as int].start
            },
    {
        let ghost (d, q) = (self@.delimiter, self@.quote);
        let ghost whole = crate::records::csv_rows(bytes@, d, q);
        let ghost found = self@ == index_over(bytes@, d, q) && row < self@.row_count
            && unobstructed(bytes@, d, q, row as int);
        let total: usize = bytes.len();
        proof {
            assert(bytes@.len() == total);
            if whole.len() > 0 {
                crate::records::records_lie_in_order(bytes@, d, q, 0, whole.len() - 1);
            }
            if found {
                lemma_anchor(bytes@, d, q, row as int);
                if can_resume(bytes@, d, q, row as int) {
                    index_finds_records(bytes@, d, q, row as int);
                }
            }
        }
        if row >= self.row_count {
            return None;
        }
        let k: u64 = row / ANCHOR_INTERVAL;
        if k >= self.anchors.len() as u64 {
            return None;
        }
        let anchor: u64 = self.anchors[k as usize];
        let skip: u64 = row % ANCHOR_INTERVAL;
        if skip == 0 {
            return Some(anchor);
        }
        if anchor > bytes.len() as u64 {
            return None;
        }
        let tail = vstd::slice::slice_subrange(bytes, anchor as usize, bytes.len());
        assert(tail@ =~= bytes@.skip(anchor as int));
        let ghost rows = crate::records::csv_rows(tail@, self.delimiter, self.quote);
        let mut reader = start_reading(tail, self.delimiter, self.quote);
        let mut record = csv::ByteRecord::new();
        let mut i: u64 = 0;
        while i <= skip
            invariant
                rows == crate::records::csv_rows(tail@, self.delimiter, self.quote),
                i <= skip + 1,
                i <= rows.len(),
                skip < ANCHOR_INTERVAL,
                crate::records::has_read(reader, tail@, self.delimiter, self.quote, i as int),
                i > 0 && found ==> can_resume(bytes@, d, q, row as int),
                found ==> crate::records::clear_mark(tail@, q) || row < ANCHOR_INTERVAL,
                found ==> tail@ == bytes@.skip(whole[row - skip].start),
                (d, q) == (self.delimiter, self.quote),
                found == (self@ == index_over(bytes@, d, q) && row < self@.row_count
                    && unobstructed(bytes@, d, q, row as int)),
                whole == crate::records::csv_rows(bytes@, d, q),
                skip == row % ANCHOR_INTERVAL,
                found && can_resume(bytes@, d, q, row as int) ==> self@.located(bytes@, row as int)
                    == Some(whole[row as int].start),
                i > 0 ==> crate::records::record_start(record) == Some(rows[i - 1].start),
                self@.located(bytes@, row as int) == if skip < rows.len() {
                    Some(anchor + rows[skip as int].start)
                } else {
                    None
                },
            decreases skip + 1 - i,
        {
            if !read_row(
                &mut reader,
                &mut record,
                Ghost(tail@),
                Ghost(self.delimiter),
                Ghost(self.quote),
                Ghost(i as int),
            ) {
                return None;
            }
            i += 1;
        }
        let offset: u64 = record_offset(&record);
        proof {
            crate::records::records_lie_in_order(
                tail@,
                self.delimiter,
                self.quote,
                skip as int,
                skip as int,
            );
        }
        Some(anchor + offset)
    }

    /// The index as it is kept on disk.
    pub fn serialize(&self) -> (out: Vec<u8>)
        ensures
            out@ == index_blob(self@),
    {
        let mut out: Vec<u8> = Vec::new();
        out.push(0x54);
        out.push(0x5a);
        out.push(0x49);
        out.push(0x58);
        assert(out@ =~= index_magic());
        push_u32(&mut out, INDEX_VERSION);
        out.push(self.delimiter);
        out.push(self.quote);
        push_u64(&mut out, self.row_count);
        push_u64(&mut out, self.ragged_rows);
        push_u64(&mut out, self.anchors.len() as u64);
        let ghost head = out@;
        proof {
            assert(head =~= index_magic() + vstd::bytes::spec_u32_to_le_bytes(INDEX_VERSION)
                + seq![self.delimiter, self.quote] + vstd::bytes::spec_u64_to_le_bytes(
                self.row_count,
            ) + vstd::bytes::spec_u64_to_le_bytes(self.ragged_rows)
                + vstd::bytes::spec_u64_to_le_bytes(self.anchors@.len() as u64));
            assert(self.anchors@.take(0) =~= Seq::empty());
            assert(out@ =~= head + anchor_bytes(self.anchors@.take(0)));
        }
        for i in 0..self.anchors.len()
            invariant
                out@ == head + anchor_bytes(self.anchors@.take(i as int)),
        {
            push_u64(&mut out, self.anchors[i]);
            proof {
                assert(self.anchors@.take(i + 1).drop_last() =~= self.anchors@.take(i as int));
                assert(out@ =~= head + anchor_bytes(self.anchors@.take(i + 1)));
            }
        }
        assert(self.anchors@.take(self.anchors@.len() as int) =~= self.anchors@);
        out
    }

    /// The index that a blob holds.
    pub fn deserialize(bytes: &[u8]) -> (r: Option<OffsetIndex>)
        ensures
            match r {
                Some(index) => index_in(bytes@) == Some(index@),
                None => index_in(bytes@) is None,
            },
    {
        let mut pos: usize = 0;
        let magic: [u8; 4] = [0x54, 0x5a, 0x49, 0x58];
        assert(magic@ =~= index_magic());
        let head = match read_bytes(bytes, &mut pos, 4) {
            Some(head) => head,
            None => return None,
        };
        assert(head@ =~= bytes@.take(4));
        if !same_bytes(head, magic.as_slice()) {
            return None;
        }
        match read_u32(bytes, &mut pos) {
            Some(version) => if version != INDEX_VERSION {
                return None;
            },
            None => return None,
        }
        let delimiter: u8 = match read_u8(bytes, &mut pos) {
            Some(x) => x,
            None => return None,
        };
        let quote: u8 = match read_u8(bytes, &mut pos) {
            Some(x) => x,
            None => return None,
        };
        let row_count: u64 = match read_u64(bytes, &mut pos) {
            Some(x) => x,
            None => return None,
        };
        let ragged_rows: u64 = match read_u64(bytes, &mut pos) {
            Some(x) => x,
            None => return None,
        };
        let anchor_count: u64 = match read_u64(bytes, &mut pos) {
            Some(x) => x,
            None => return None,
        };
        let mut anchors: Vec<u64> = Vec::new();
        let mut i: u64 = 0;
        while i < anchor_count
            invariant
                i <= anchor_count,
                anchors@.len() == i,
                pos == 34 + 8 * i,
                pos <= bytes@.len(),
                forall|k: int|
                    0 <= k < i ==> #[trigger] anchors@[k] == crate::codec::u64_at(
                        bytes@,
                        34 + 8 * k,
                    ),
                index_in(bytes@) is None <==> bytes@.len() < 34 + 8 * anchor_count,
            decreases anchor_count - i,
        {
            match read_u64(bytes, &mut pos) {
                Some(x) => {
                    anchors.push(x);
                },
                None => return None,
            }
            i += 1;
        }
        let index = OffsetIndex { anchors, row_count, ragged_rows, delimiter, quote };
        assert(index@.anchors =~= index_in(bytes@)->0.anchors);
        Some(index)
    }
}

/// The records that do not have as many fields as the first one.
pub open spec fn ragged(rows: Seq<Row>) -> Set<int> {
    Set::new(|i: int| 0 <= i < rows.len() && rows[i].fields.len() != rows[0].fields.len())
}

proof fn lemma_ragged(rows: Seq<Row>, n: int)
    requires
        0 <= n <= rows.len(),
    ensures
        ({
            let some = Set::new(
                |i: int| 0 <= i < n && rows[i].fields.len() != rows[0].fields.len(),
            );
            &&& some.finite()
            &&& some.len() == count_ragged(rows, n)
        }),
    decreases n,
{
    let some = Set::new(|i: int| 0 <= i < n && rows[i].fields.len() != rows[0].fields.len());
    if n == 0 {
        assert(some =~= Set::empty());
    } else {
        lemma_ragged(rows, n - 1);
        let less = Set::new(
            |i: int| 0 <= i < n - 1 && rows[i].fields.len() != rows[0].fields.len(),
        );
        if rows[n - 1].fields.len() != rows[0].fields.len() {
            assert(some =~= less.insert(n - 1));
        } else {
            assert(some =~= less);
        }
    }
}

/// An index over a source counts every record, and of them those whose number of fields differs from
/// that of the first one; it keeps the offset of every 1024th record.
pub proof fn index_counts_the_records(bytes: Seq<u8>, delimiter: u8, quote: u8, k: int)
    requires
        bytes.len() <= u64::MAX,
    ensures
        ({
            let rows = crate::records::csv_rows(bytes, delimiter, quote);
            let index = index_over(bytes, delimiter, quote);
            &&& index.row_count == rows.len()
            &&& ragged(rows).finite()
            &&& index.ragged_rows == ragged(rows).len()
            &&& index.delimiter == delimiter
            &&& index.quote == quote
            &&& 0 <= k && 1024 * k < rows.len() ==> k < index.anchors.len() && index.anchors[k]
                == rows[1024 * k].start
            &&& 0 <= k && 1024 * k >= rows.len() ==> k >= index.anchors.len()
        }),
{
    let rows = crate::records::csv_rows(bytes, delimiter, quote);
    lemma_ragged(rows, rows.len() as int);
    assert(ragged(rows) =~= Set::new(
        |i: int| 0 <= i < rows.len() && rows[i].fields.len() != rows[0].fields.len(),
    ));
    crate::records::lemma_rows_from(
        bytes,
        0,
        crate::records::mark_len(bytes),
        delimiter,
        quote,
    );
    lemma_count_ragged_bound(rows, rows.len() as int);
    if 0 <= k && 1024 * k < rows.len() {
        assert(rows[1024 * k].start <= bytes.len());
    }
}

proof fn lemma_count_ragged_bound(rows: Seq<Row>, n: int)
    requires
        0 <= n,
    ensures
        0 <= count_ragged(rows, n) <= n,
    decreases n,
{
    if n > 0 {
        lemma_count_ragged_bound(rows, n - 1);
    }
}

/// While an index is built there is a report behind every 4096 records, with as many records, and one
/// for the whole source.
pub proof fn reports_come_every_4096_records(bytes: Seq<u8>, delimiter: u8, quote: u8, k: int)
    requires
        bytes.len() <= u64::MAX,
    ensures
        ({
            let rows = crate::records::csv_rows(bytes, delimiter, quote);
            let all = reports(bytes, delimiter, quote);
            &&& 4096 * (all.len() - 1) <= rows.len() < 4096 * all.len()
            &&& 0 <= k < all.len() - 1 ==> all[k].rows_indexed == 4096 * (k + 1)
        }),
{
    crate::records::lemma_rows_from(
        bytes,
        0,
        crate::records::mark_len(bytes),
        delimiter,
        quote,
    );
}

/// On disk an index begins with `TZIX` and the number of its layout, then the delimiter and the quote,
/// and has eight bytes for each of its other numbers.
pub proof fn index_layout(v: IndexView)
    ensures
        ({
            let blob = index_blob(v);
            &&& blob.len() == 34 + 8 * v.anchors.len()
            &&& blob[0] == 'T' as u8 && blob[1] == 'Z' as u8 && blob[2] == 'I' as u8 && blob[3]
                == 'X' as u8
            &&& blob[8] == v.delimiter
            &&& blob[9] == v.quote
        }),
{
    vstd::bytes::lemma_auto_spec_u32_to_from_le_bytes();
    vstd::bytes::lemma_auto_spec_u64_to_from_le_bytes();
    lemma_anchor_bytes_len(v.anchors);
    assert('T' as u8 == 0x54 && 'Z' as u8 == 0x5a && 'I' as u8 == 0x49 && 'X' as u8 == 0x58);
}

proof fn lemma_anchor_bytes_len(anchors: Seq<u64>)
    ensures
        anchor_bytes(anchors).len() == 8 * anchors.len(),
    decreases anchors.len(),
{
    vstd::bytes::lemma_auto_spec_u64_to_from_le_bytes();
    if anchors.len() > 0 {
        lemma_anchor_bytes_len(anchors.drop_last());
    }
}

} // verus!
