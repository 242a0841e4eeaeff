//! How delimited text is split into records and fields, and how that is guessed from a sample.
use vstd::prelude::*;
use crate::records::{read_row, start_reading, Row};
use crate::text::trimmed_field;

verus! {

/// The most bytes that are looked at for one record that is read by itself.
pub const MAX_RECORD_BYTES: usize = 0x100_0000;

/// How text is split into records and fields.
#[derive(Clone, Copy, Debug, PartialEq, Eq, Structural)]
pub struct Dialect {
    /// The byte between fields.
    pub delimiter: u8,
    /// The byte around fields that may hold delimiters and line ends.
    pub quote: u8,
    /// Whether the first record names the columns.
    pub has_header: bool,
}

impl Default for Dialect {
    fn default() -> (r: Dialect)
        ensures
            r == (Dialect { delimiter: 0x2c, quote: 0x22, has_header: true }),
    {
        Dialect { delimiter: 0x2c, quote: 0x22, has_header: true }
    }
}

/// The delimiters that are tried: comma, tab, semicolon, bar.
pub open spec fn candidates() -> Seq<u8> {
    seq![0x2cu8, 0x09u8, 0x3bu8, 0x7cu8]
}

/// How many of the first `n` records have the given number of fields.
pub open spec fn count_wide(rows: Seq<Row>, width: nat, n: int) -> int
    decreases n,
{
    if n <= 0 {
        0
    } else {
        count_wide(rows, width, n - 1) + if rows[n - 1].fields.len() == width {
            1int
        } else {
            0
        }
    }
}

/// How well a delimiter splits a sample: of its first twenty records, those with as many fields as
/// the first one. A delimiter that does not split the first record does not count.
pub open spec fn consistency(sample: Seq<u8>, delimiter: u8) -> int {
    let rows = crate::records::csv_rows(sample, delimiter, 0x22);
    if rows.len() == 0 || rows[0].fields.len() <= 1 {
        0
    } else {
        count_wide(
            rows,
            rows[0].fields.len(),
            if rows.len() < 20 {
                rows.len() as int
            } else {
                20
            },
        )
    }
}

/// Whether a delimiter is the one to take: the first candidate of those that split the sample best,
/// or the comma where none splits it.
pub open spec fn is_best(sample: Seq<u8>, delimiter: u8) -> bool {
    ||| delimiter == 0x2c && forall|j: int|
        0 <= j < candidates().len() ==> consistency(sample, #[trigger] candidates()[j]) <= 0
    ||| consistency(sample, delimiter) > 0 && exists|k: int|
        0 <= k < candidates().len() && #[trigger] candidates()[k] == delimiter && (forall|j: int|
            0 <= j < k ==> consistency(sample, #[trigger] candidates()[j]) < consistency(
                sample,
                delimiter,
            )) && (forall|j: int|
            k < j < candidates().len() ==> consistency(sample, #[trigger] candidates()[j])
                <= consistency(sample, delimiter))
}

/// Whether a field is a number.
pub open spec fn numeric(field: Seq<u8>) -> bool {
    crate::text::field_text(field) matches Some(text) && text.len() > 0
        && crate::number::numeral(text) is Some
}

/// Whether the first record of a sample looks like a header: none of its fields is a number.
pub open spec fn looks_like_header(sample: Seq<u8>, delimiter: u8) -> bool {
    let rows = crate::records::csv_rows(sample, delimiter, 0x22);
    rows.len() == 0 || !exists|i: int|
        0 <= i < rows[0].fields.len() && numeric(#[trigger] rows[0].fields[i])
}

/// A sample is taken to have no header exactly where some field of its first record, at whatever
/// position, is a number with white space around it or not; a sample without records is taken to
/// have one.
pub proof fn one_number_rules_out_a_header(sample: Seq<u8>, delimiter: u8, i: int)
    ensures
        ({
            let rows = crate::records::csv_rows(sample, delimiter, 0x22);
            &&& rows.len() == 0 ==> looks_like_header(sample, delimiter)
            &&& rows.len() > 0 && 0 <= i < rows[0].fields.len() && (crate::text::field_text(
                rows[0].fields[i],
            ) matches Some(text) && crate::number::numeral(text) is Some) ==> !looks_like_header(
                sample,
                delimiter,
            )
            &&& rows.len() > 0 && (forall|j: int|
                0 <= j < rows[0].fields.len() ==> !(crate::text::field_text(
                    #[trigger] rows[0].fields[j],
                ) matches Some(text) && crate::number::numeral(text) is Some))
                ==> looks_like_header(sample, delimiter)
        }),
{
    let rows = crate::records::csv_rows(sample, delimiter, 0x22);
    if rows.len() > 0 && 0 <= i < rows[0].fields.len() {
        if let Some(text) = crate::text::field_text(rows[0].fields[i]) {
            if crate::number::numeral(text) is Some {
                crate::number::numbers_are_not_empty(text);
                assert(numeric(rows[0].fields[i]));
            }
        }
    }
}

/// A field that writes a number out, with white space around it or not, is a number.
pub proof fn written_numbers_are_numeric(
    front: Seq<char>,
    sign: Option<bool>,
    whole: Seq<char>,
    fraction: Option<Seq<char>>,
    power: Option<(char, Option<bool>, Seq<char>)>,
    back: Seq<char>,
)
    requires
        crate::number::is_decimal(whole, fraction, power),
        forall|i: int| 0 <= i < front.len() ==> crate::text::is_white(#[trigger] front[i]),
        forall|i: int| 0 <= i < back.len() ==> crate::text::is_white(#[trigger] back[i]),
    ensures
        numeric(
            vstd::utf8::encode_utf8(
                front + crate::number::written_out(sign, whole, fraction, power) + back,
            ),
        ),
{
    let text = crate::number::written_out(sign, whole, fraction, power);
    crate::number::written_numbers_are_read(sign, whole, fraction, power);
    crate::number::numbers_hold_no_white_space(text);
    crate::text::white_space_around_is_taken_off(front, text, back);
}

impl Dialect {
    /// Guesses a dialect from the head of a file.
    pub fn sniff(sample: &[u8]) -> (r: Dialect)
        ensures
            is_best(sample@, r.delimiter),
            r.quote == 0x22,
            r.has_header == looks_like_header(sample@, r.delimiter),
    {
        let tried: [u8; 4] = [0x2c, 0x09, 0x3b, 0x7c];
        let mut best: u8 = 0x2c;
        let mut best_score: u32 = 0;
        let ghost mut at: int = 0;
        assert(tried@ =~= candidates());
        for i in 0..4usize
            invariant
                tried@ == candidates(),
                best_score == 0 ==> best == 0x2c && forall|j: int|
                    0 <= j < i ==> consistency(sample@, #[trigger] candidates()[j]) <= 0,
                best_score > 0 ==> {
                    &&& 0 <= at < i
                    &&& candidates()[at] == best
                    &&& best_score == consistency(sample@, best)
                    &&& forall|j: int|
                        0 <= j < at ==> consistency(sample@, #[trigger] candidates()[j])
                            < best_score
                    &&& forall|j: int|
                        at < j < i ==> consistency(sample@, #[trigger] candidates()[j])
                            <= best_score
                },
        {
            let delimiter: u8 = tried[i];
            let score: u32 = consistency_score(sample, delimiter);
            assert(delimiter == candidates()[i as int]);
            if score > best_score {
                best_score = score;
                best = delimiter;
                proof {
                    at = i as int;
                }
            }
        }
        Dialect { delimiter: best, quote: 0x22, has_header: sniff_header(sample, best) }
    }
}

proof fn lemma_count_wide(rows: Seq<Row>, width: nat, n: int)
    ensures
        n >= 0 ==> 0 <= count_wide(rows, width, n) <= n,
    decreases n,
{
    if n > 0 {
        lemma_count_wide(rows, width, n - 1);
    }
}

/// How well a delimiter splits a sample.
pub fn consistency_score(sample: &[u8], delimiter: u8) -> (score: u32)
    ensures
        score == consistency(sample@, delimiter),
{
    let ghost rows = crate::records::csv_rows(sample@, delimiter, 0x22);
    let mut reader = start_reading(sample, delimiter, 0x22);
    let mut record = csv::ByteRecord::new();
    let mut first: usize = 0;
    let mut score: u32 = 0;
    let mut i: u32 = 0;
    let mut more = true;
    while i < 20 && more
        invariant
            rows == crate::records::csv_rows(sample@, delimiter, 0x22),
            i <= 20,
            i <= rows.len(),
            more ==> crate::records::has_read(reader, sample@, delimiter, 0x22, i as int),
            !more ==> i == rows.len(),
            i > 0 ==> first == rows[0].fields.len(),
            score == count_wide(rows, first as nat, i as int),
            score <= i,
        decreases 20 - i + if more {
            1int
        } else {
            0
        },
    {
        more = read_row(
            &mut reader,
            &mut record,
            Ghost(sample@),
            Ghost(delimiter),
            Ghost(0x22),
            Ghost(i as int),
        );
        if more {
            if i == 0 {
                first = record.len();
            }
            if record.len() == first {
                score += 1;
            }
            proof {
                reveal_with_fuel(count_wide, 2);
            }
            i += 1;
        }
    }
    proof {
        lemma_count_wide(rows, first as nat, i as int);
    }
    if i == 0 || first <= 1 {
        0
    } else {
        score
    }
}

/// Whether the first record of a sample looks like a header.
pub fn sniff_header(sample: &[u8], delimiter: u8) -> (r: bool)
    ensures
        r == looks_like_header(sample@, delimiter),
{
    let ghost rows = crate::records::csv_rows(sample@, delimiter, 0x22);
    let mut reader = start_reading(sample, delimiter, 0x22);
    let mut record = csv::ByteRecord::new();
    if !read_row(
        &mut reader,
        &mut record,
        Ghost(sample@),
        Ghost(delimiter),
        Ghost(0x22),
        Ghost(0),
    ) {
        return true;
    }
    let n: usize = record.len();
    for i in 0..n
        invariant
            n == rows[0].fields.len(),
            crate::records::record_fields(record) == rows[0].fields,
            rows.len() > 0,
            rows == crate::records::csv_rows(sample@, delimiter, 0x22),
            forall|j: int| 0 <= j < i ==> !numeric(#[trigger] rows[0].fields[j]),
    {
        let found = match record.get(i) {
            Some(field) => looks_numeric(field),
            None => false,
        };
        if found {
            assert(numeric(rows[0].fields[i as int]));
            return false;
        }
    }
    true
}

/// Whether a field is a number.
pub fn looks_numeric(field: &[u8]) -> (r: bool)
    ensures
        r == numeric(field@),
{
    match trimmed_field(field) {
        Some(text) => text.len() > 0 && crate::number::is_number(text.as_slice()),
        None => false,
    }
}

/// The first records of a sample that have as many fields as the first one.
pub open spec fn even_records(sample: Seq<u8>, delimiter: u8) -> Set<int> {
    let rows = crate::records::csv_rows(sample, delimiter, 0x22);
    Set::new(
        |i: int| 0 <= i < rows.len() && i < 20 && rows[i].fields.len() == rows[0].fields.len(),
    )
}

proof fn lemma_even_records(rows: Seq<Row>, n: int)
    requires
        0 <= n <= rows.len(),
    ensures
        ({
            let some = Set::new(
                |i: int| 0 <= i < n && rows[i].fields.len() == rows[0].fields.len(),
            );
            &&& some.finite()
            &&& rows.len() > 0 ==> some.len() == count_wide(rows, rows[0].fields.len(), n)
        }),
    decreases n,
{
    let some = Set::new(|i: int| 0 <= i < n && rows[i].fields.len() == rows[0].fields.len());
    if n == 0 {
        assert(some =~= Set::empty());
    } else {
        lemma_even_records(rows, n - 1);
        let less = Set::new(
            |i: int| 0 <= i < n - 1 && rows[i].fields.len() == rows[0].fields.len(),
        );
        if rows[n - 1].fields.len() == rows[0].fields.len() {
            assert(some =~= less.insert(n - 1));
        } else {
            assert(some =~= less);
        }
    }
}

/// A delimiter splits a sample as well as there are records, among the first twenty, with as many
/// fields as the first one; one that leaves the first record in one piece does not split it at all.
pub proof fn consistency_counts_even_records(sample: Seq<u8>, delimiter: u8)
    ensures
        ({
            let rows = crate::records::csv_rows(sample, delimiter, 0x22);
            &&& even_records(sample, delimiter).finite()
            &&& rows.len() > 0 && rows[0].fields.len() >= 2 ==> consistency(sample, delimiter)
                == even_records(sample, delimiter).len() && consistency(sample, delimiter) >= 1
            &&& rows.len() == 0 || rows[0].fields.len() < 2 ==> consistency(sample, delimiter) == 0
        }),
{
    let rows = crate::records::csv_rows(sample, delimiter, 0x22);
    let n = if rows.len() < 20 {
        rows.len() as int
    } else {
        20
    };
    lemma_even_records(rows, n);
    assert(even_records(sample, delimiter) =~= Set::new(
        |i: int| 0 <= i < n && rows[i].fields.len() == rows[0].fields.len(),
    ));
    if rows.len() > 0 {
        assert(even_records(sample, delimiter).contains(0));
        assert(even_records(sample, delimiter).len() > 0);
    }
}

/// Of the comma, the tab, the semicolon and the bar, none splits a sample better than the guessed
/// delimiter, and none that stands before it in this list splits it as well; where none splits it,
/// it is the comma.
pub proof fn guessed_delimiter_splits_best(sample: Seq<u8>, delimiter: u8)
    requires
        is_best(sample, delimiter),
    ensures
        delimiter == ',' as u8 || delimiter == '\t' as u8 || delimiter == ';' as u8 || delimiter
            == '|' as u8,
        consistency(sample, ',' as u8) <= consistency(sample, delimiter),
        consistency(sample, '\t' as u8) <= consistency(sample, delimiter),
        consistency(sample, ';' as u8) <= consistency(sample, delimiter),
        consistency(sample, '|' as u8) <= consistency(sample, delimiter),
        delimiter != ',' as u8 ==> consistency(sample, ',' as u8) < consistency(sample, delimiter),
        delimiter == ';' as u8 || delimiter == '|' as u8 ==> consistency(sample, '\t' as u8)
            < consistency(sample, delimiter),
        delimiter == '|' as u8 ==> consistency(sample, ';' as u8) < consistency(sample, delimiter),
{
    assert(',' as u8 == 0x2c && '\t' as u8 == 0x09 && ';' as u8 == 0x3b && '|' as u8 == 0x7c);
    assert(candidates()[0] == 0x2c && candidates()[1] == 0x09 && candidates()[2] == 0x3b
        && candidates()[3] == 0x7c);
    consistency_counts_even_records(sample, 0x2c);
    consistency_counts_even_records(sample, 0x09);
    consistency_counts_even_records(sample, 0x3b);
    consistency_counts_even_records(sample, 0x7c);
}

} // verus!
