//! The short texts of the window: counts, sizes, names that are cut, and the lines of the status bar.
use vstd::prelude::*;
use crate::model::RowSpan;
use crate::remote::copy_text;
use crate::text::{append, chars_of, push_decimal, string_of};
use crate::viewport::{DataQuality, RowCount};

verus! {

/// A number with a comma before every three digits.
pub open spec fn grouped(n: int) -> Seq<char>
    decreases n,
{
    if n < 1000 {
        crate::text::decimal_text(n)
    } else {
        grouped(n / 1000) + ","@ + three_digits(n % 1000)
    }
}

/// A number under a thousand with three digits.
pub open spec fn three_digits(n: int) -> Seq<char> {
    seq![
        (n / 100 + '0' as int) as char,
        (n / 10 % 10 + '0' as int) as char,
        (n % 10 + '0' as int) as char,
    ]
}

/// Appends a number with a comma before every three digits.
fn push_grouped(out: &mut String, n: u64)
    ensures
        final(out)@ == old(out)@ + grouped(n as int),
    decreases n,
{
    if n < 1000 {
        push_decimal(out, n);
    } else {
        push_grouped(out, n / 1000);
        append(out, ",");
        let low: u64 = n % 1000;
        out.push(((low / 100) as u8 + 0x30) as char);
        out.push(((low / 10 % 10) as u8 + 0x30) as char);
        out.push(((low % 10) as u8 + 0x30) as char);
        assert(out@ =~= old(out)@ + (grouped(n as int / 1000) + ","@ + three_digits(
            n as int % 1000,
        )));
    }
}

/// Formats a count with thousands separators.
pub fn fmt_count(n: u64) -> (text: String)
    ensures
        text@ == grouped(n as int),
{
    let mut text = String::new();
    push_grouped(&mut text, n);
    assert(Seq::<char>::empty() + grouped(n as int) =~= grouped(n as int));
    text
}

/// A text without its commas.
pub open spec fn without_commas(s: Seq<char>) -> Seq<char>
    decreases s.len(),
{
    if s.len() == 0 {
        s
    } else if s.last() == ',' {
        without_commas(s.drop_last())
    } else {
        without_commas(s.drop_last()).push(s.last())
    }
}

proof fn lemma_without_commas(a: Seq<char>, b: Seq<char>)
    ensures
        without_commas(a + b) == without_commas(a) + without_commas(b),
    decreases b.len(),
{
    if b.len() == 0 {
        assert(a + b =~= a);
        assert(without_commas(a) + b =~= without_commas(a));
    } else {
        lemma_without_commas(a, b.drop_last());
        assert((a + b).drop_last() =~= a + b.drop_last());
        assert((a + b).last() == b.last());
        if b.last() != ',' {
            assert((without_commas(a) + without_commas(b.drop_last())).push(b.last())
                =~= without_commas(a) + without_commas(b.drop_last()).push(b.last()));
        }
    }
}

proof fn lemma_no_commas(s: Seq<char>)
    requires
        forall|i: int| 0 <= i < s.len() ==> s[i] != ',',
    ensures
        without_commas(s) == s,
    decreases s.len(),
{
    if s.len() > 0 {
        lemma_no_commas(s.drop_last());
        assert(s =~= s.drop_last().push(s.last()));
    }
}

/// The separators only group the digits: without them the number is left.
pub proof fn grouping_keeps_digits(n: int)
    requires
        0 <= n,
    ensures
        without_commas(grouped(n)) == crate::text::decimal_text(n),
    decreases n,
{
    crate::text::decimal_text_reads_back(n);
    if n < 1000 {
        lemma_no_commas(crate::text::decimal_text(n));
    } else {
        let high = n / 1000;
        let low = n % 1000;
        grouping_keeps_digits(high);
        reveal_strlit(",");
        lemma_without_commas(grouped(high) + ","@, three_digits(low));
        lemma_without_commas(grouped(high), ","@);
        assert(","@ =~= Seq::<char>::empty().push(','));
        assert(","@.drop_last() =~= Seq::<char>::empty());
        assert(without_commas(","@) =~= Seq::<char>::empty()) by {
            reveal_with_fuel(without_commas, 2);
        }
        lemma_no_commas(three_digits(low));
        lemma_three_digits(n);
        assert(without_commas(grouped(high)) + Seq::<char>::empty() =~= without_commas(
            grouped(high),
        ));
    }
}

proof fn lemma_three_digits(n: int)
    requires
        n >= 1000,
    ensures
        crate::text::decimal_text(n) == crate::text::decimal_text(n / 1000) + three_digits(
            n % 1000,
        ),
{
    let d = crate::text::decimal_text(n / 1000);
    assert(n / 10 / 10 / 10 == n / 1000);
    assert((n % 1000) / 100 == (n / 100) % 10);
    assert((n % 1000) / 10 % 10 == (n / 10) % 10);
    assert((n % 1000) % 10 == n % 10);
    assert(n / 10 / 10 == n / 100);
    assert(crate::text::decimal_text(n) == crate::text::decimal_text(n / 10).push(
        (n % 10 + '0' as int) as char,
    ));
    assert(crate::text::decimal_text(n / 10) == crate::text::decimal_text(n / 10 / 10).push(
        ((n / 10) % 10 + '0' as int) as char,
    ));
    assert(crate::text::decimal_text(n / 10 / 10) == crate::text::decimal_text(
        n / 10 / 10 / 10,
    ).push(((n / 10 / 10) % 10 + '0' as int) as char));
    assert(crate::text::decimal_text(n) =~= d + three_digits(n % 1000));
}

/// The whole number next to a fraction: the nearest one, and of two the even one.
pub open spec fn nearest(numerator: int, denominator: int) -> int {
    let q = numerator / denominator;
    let r = numerator % denominator;
    if 2 * r > denominator || (2 * r == denominator && q % 2 == 1) {
        q + 1
    } else {
        q
    }
}

/// A number with at most 53 binary digits before zeros, in steps of at least `step`: the nearest one,
/// and of two the even one.
pub open spec fn coarse(n: int, step: int) -> int
    decreases 0x1000 - step,
{
    if step < 1 || step > 0x400 || n < 0x20_0000_0000_0000 * step {
        nearest(n, step) * step
    } else {
        coarse(n, 2 * step)
    }
}

/// A number of bytes with the 53 binary digits that it is shown by.
fn coarsen(n: u64) -> (r: u128)
    ensures
        r == coarse(n as int, 1),
        r <= 0x1_0000_0000_0000_0800,
{
    let mut step: u128 = 1;
    while step <= 0x400 && n as u128 >= 0x20_0000_0000_0000 * step
        invariant
            1 <= step <= 0x800,
            coarse(n as int, 1) == coarse(n as int, step as int),
        decreases 0x800 - step,
    {
        step = 2 * step;
    }
    let q: u128 = n as u128 / step;
    let r: u128 = n as u128 % step;
    let near: u128 = if 2 * r > step || (2 * r == step && q % 2 == 1) {
        q + 1
    } else {
        q
    };
    assert(q * step + r == n && near <= q + 1 && 0 <= r) by (nonlinear_arith)
        requires
            q == n as int / step as int,
            r == n as int % step as int,
            near <= q + 1,
            step >= 1,
    ;
    assert(near * step <= n + step) by (nonlinear_arith)
        requires
            q * step + r == n,
            near <= q + 1,
            0 <= r,
            step >= 1,
    ;
    near * step
}

/// How many bytes a unit has: 1024 to the power of its number.
pub open spec fn unit_size(unit: nat) -> int
    decreases unit,
{
    if unit == 0 {
        1
    } else {
        1024 * unit_size((unit - 1) as nat)
    }
}

/// The largest unit, up to the last one, that does not exceed a number of bytes.
pub open spec fn unit_of(n: int, unit: nat) -> nat
    decreases 4 - unit,
{
    if unit >= 4 || n < 1024 * unit_size(unit) {
        unit
    } else {
        unit_of(n, unit + 1)
    }
}

/// A number of bytes in a unit, with one decimal.
pub open spec fn in_unit(n: int, unit: nat) -> Seq<char> {
    let tenths = nearest(10 * n, unit_size(unit));
    crate::text::decimal_text(tenths / 10) + "."@ + crate::text::decimal_text(tenths % 10)
}

/// The names of the binary units.
pub open spec fn binary_unit(unit: nat) -> Seq<char> {
    if unit == 1 {
        "KiB"@
    } else if unit == 2 {
        "MiB"@
    } else if unit == 3 {
        "GiB"@
    } else {
        "TiB"@
    }
}

/// The short names of the units.
pub open spec fn short_unit(unit: nat) -> Seq<char> {
    if unit == 1 {
        "KB"@
    } else if unit == 2 {
        "MB"@
    } else if unit == 3 {
        "GB"@
    } else {
        "TB"@
    }
}

/// A number of bytes as it is shown: up to a KiB in bytes, above in units with one decimal.
pub open spec fn size_text(n: int, short: bool) -> Seq<char> {
    let bytes = coarse(n, 1);
    let unit = unit_of(bytes, 0);
    if unit == 0 {
        crate::text::decimal_text(n) + " B"@
    } else {
        in_unit(bytes, unit) + " "@ + if short {
            short_unit(unit)
        } else {
            binary_unit(unit)
        }
    }
}

/// Formats a number of bytes.
fn push_size(n: u64, short: bool) -> (text: String)
    ensures
        text@ == size_text(n as int, short),
{
    let bytes: u128 = coarsen(n);
    let mut unit: usize = 0;
    let mut size: u128 = 1;
    while unit < 4 && bytes >= 1024 * size
        invariant
            unit <= 4,
            size == unit_size(unit as nat),
            size <= 0x100_0000_0000,
            unit == 0 ==> size == 1,
            unit == 1 ==> size == 0x400,
            unit == 2 ==> size == 0x10_0000,
            unit == 3 ==> size == 0x4000_0000,
            unit == 4 ==> size == 0x100_0000_0000,
            unit_of(bytes as int, 0) == unit_of(bytes as int, unit as nat),
        decreases 4 - unit,
    {
        unit += 1;
        size = 1024 * size;
    }
    let mut text = String::new();
    if unit == 0 {
        push_decimal(&mut text, n);
        append(&mut text, " B");
        assert(Seq::<char>::empty() + crate::text::decimal_text(n as int)
            =~= crate::text::decimal_text(n as int));
        return text;
    }
    let tenfold: u128 = 10 * bytes;
    let q: u128 = tenfold / size;
    let r: u128 = tenfold % size;
    assert(q <= tenfold) by (nonlinear_arith)
        requires
            q == tenfold / size,
            size >= 1,
    ;
    assert(tenfold / size <= tenfold / 1024) by (nonlinear_arith)
        requires
            size >= 1024,
    ;
    let tenths: u128 = if 2 * r > size || (2 * r == size && q % 2 == 1) {
        q + 1
    } else {
        q
    };
    assert(tenths == nearest(10 * bytes as int, unit_size(unit as nat)));
    push_decimal(&mut text, (tenths / 10) as u64);
    append(&mut text, ".");
    push_decimal(&mut text, (tenths % 10) as u64);
    assert(text@ =~= in_unit(bytes as int, unit as nat));
    append(&mut text, " ");
    if short {
        append(
            &mut text,
            if unit == 1 {
                "KB"
            } else if unit == 2 {
                "MB"
            } else if unit == 3 {
                "GB"
            } else {
                "TB"
            },
        );
    } else {
        append(
            &mut text,
            if unit == 1 {
                "KiB"
            } else if unit == 2 {
                "MiB"
            } else if unit == 3 {
                "GiB"
            } else {
                "TiB"
            },
        );
    }
    text
}

/// Formats a number of bytes in binary units, for progress.
pub fn fmt_bytes(n: u64) -> (text: String)
    ensures
        text@ == size_text(n as int, false),
{
    push_size(n, false)
}

/// Formats a number of bytes with short units, for the size of the caches.
pub fn human_bytes(n: u64) -> (text: String)
    ensures
        text@ == size_text(n as int, true),
{
    push_size(n, true)
}

/// A text cut in the middle to so many characters, with an ellipsis for what is left out; nothing
/// where there is no room for any character.
pub open spec fn elided(s: Seq<char>, max: nat) -> Seq<char> {
    if s.len() <= max {
        s
    } else if max == 0 {
        Seq::empty()
    } else {
        let keep = max - 1;
        s.take(keep - keep / 2) + "…"@ + s.skip(s.len() - keep / 2)
    }
}

/// Cuts a text in the middle, so that its start and its end stay.
pub fn elide_middle(s: &str, max: usize) -> (r: String)
    ensures
        r@ == elided(s@, max as nat),
{
    let chars = chars_of(s);
    let n: usize = chars.len();
    if n <= max {
        return string_of(chars.as_slice());
    }
    if max == 0 {
        let empty = String::new();
        assert(empty@ =~= Seq::<char>::empty());
        return empty;
    }
    let keep: usize = max - 1;
    let tail: usize = keep / 2;
    let head: usize = keep - tail;
    let start = vstd::slice::slice_subrange(chars.as_slice(), 0, head);
    let end = vstd::slice::slice_subrange(chars.as_slice(), n - tail, n);
    assert(start@ =~= chars@.take(head as int));
    assert(end@ =~= chars@.skip(n - tail));
    let mut out = string_of(start);
    append(&mut out, "…");
    let rest = string_of(end);
    append(&mut out, rest.as_str());
    out
}

/// A text that is cut has as many characters as it may have.
pub proof fn elided_text_fits(s: Seq<char>, max: nat)
    ensures
        elided(s, max).len() <= max,
        s.len() > max ==> elided(s, max).len() == max,
{
    reveal_strlit("…");
}

/// How many columns and rows there are; `≥` stands before a count that still grows.
pub open spec fn extent_text(columns: int, rows: RowCount) -> Seq<char> {
    match rows {
        RowCount::Exact(n) => grouped(columns) + " cols, "@ + grouped(n as int) + " rows"@,
        RowCount::AtLeast(n) => grouped(columns) + " cols, ≥ "@ + grouped(n as int) + " rows"@,
    }
}

/// The line that says how many columns and rows there are.
pub fn extent_label(columns: u64, rows: RowCount) -> (text: String)
    ensures
        text@ == extent_text(columns as int, rows),
{
    let mut text = fmt_count(columns);
    match rows {
        RowCount::Exact(n) => {
            append(&mut text, " cols, ");
            push_grouped(&mut text, n);
        },
        RowCount::AtLeast(n) => {
            append(&mut text, " cols, ≥ ");
            push_grouped(&mut text, n);
        },
    }
    append(&mut text, " rows");
    text
}

/// The warning about ragged rows, once they are all counted and there are any.
pub fn quality_label(quality: DataQuality) -> (text: Option<String>)
    ensures
        match text {
            Some(t) => quality.complete && quality.ragged_rows > 0 && t@ == "⚠ "@ + grouped(
                quality.ragged_rows as int,
            ) + " ragged rows"@,
            None => !quality.complete || quality.ragged_rows == 0,
        },
{
    if quality.complete && quality.ragged_rows > 0 {
        let mut text = copy_text("⚠ ");
        push_grouped(&mut text, quality.ragged_rows);
        append(&mut text, " ragged rows");
        Some(text)
    } else {
        None
    }
}

/// Which rows are selected, counted from one.
pub open spec fn selection_text(span: RowSpan) -> Seq<char> {
    let rows = span.last() - span.first() + 1;
    if rows == 1 {
        "row "@ + grouped(span.first() + 1) + " selected"@
    } else {
        "rows "@ + grouped(span.first() + 1) + "–"@ + grouped(span.last() + 1) + " selected ("@
            + grouped(rows) + ")"@
    }
}

/// The line that says which rows are selected.
pub fn selection_label(span: RowSpan) -> (text: String)
    requires
        span.last() < u64::MAX,
    ensures
        text@ == selection_text(span),
{
    let rows: u64 = span.len();
    if rows == 1 {
        let mut text = copy_text("row ");
        push_grouped(&mut text, span.lo() + 1);
        append(&mut text, " selected");
        text
    } else {
        let mut text = copy_text("rows ");
        push_grouped(&mut text, span.lo() + 1);
        append(&mut text, "–");
        push_grouped(&mut text, span.hi() + 1);
        append(&mut text, " selected (");
        push_grouped(&mut text, rows);
        append(&mut text, ")");
        text
    }
}

proof fn lemma_grouped_commas(n: int, j: int)
    requires
        0 <= n,
        0 <= j < grouped(n).len(),
    ensures
        grouped(n)[j] == ',' <==> (grouped(n).len() - j) % 4 == 0,
        n < 1000 ==> grouped(n).len() <= 3,
    decreases n,
{
    reveal_strlit(",");
    let s = grouped(n);
    if n < 1000 {
        crate::text::decimal_text_reads_back(n);
        lemma_short(n);
        assert(crate::text::is_digit(s[j]));
    } else {
        let front = grouped(n / 1000);
        assert(s.len() == front.len() + 4);
        if j < front.len() {
            lemma_grouped_commas(n / 1000, j);
            assert(s[j] == front[j]);
        } else if j == front.len() {
            assert(s[j] == ',');
        } else {
            let digits = three_digits(n % 1000);
            assert(s[j] == digits[j - front.len() - 1]);
            assert('0' <= s[j] <= '9');
        }
    }
}

proof fn lemma_short(n: int)
    requires
        0 <= n < 1000,
    ensures
        1 <= crate::text::decimal_text(n).len() <= 3,
{
    reveal_with_fuel(crate::text::decimal_text, 4);
}

/// Of a number that is shown, every three digits stand behind a comma, counted from its end, and there
/// is no other comma; it does not begin with one.
pub proof fn commas_group_three_digits(n: int, j: int)
    requires
        0 <= n,
        0 <= j < grouped(n).len(),
    ensures
        grouped(n)[j] == ',' <==> (grouped(n).len() - j) % 4 == 0,
        grouped(n)[0] != ',',
{
    lemma_grouped_commas(n, j);
    lemma_no_first_comma(n);
}

proof fn lemma_no_first_comma(n: int)
    requires
        0 <= n,
    ensures
        grouped(n).len() > 0,
        grouped(n)[0] != ',',
    decreases n,
{
    if n < 1000 {
        crate::text::decimal_text_reads_back(n);
        assert(crate::text::is_digit(grouped(n)[0]));
    } else {
        lemma_no_first_comma(n / 1000);
        assert(grouped(n)[0] == grouped(n / 1000)[0]);
    }
}

/// A text that is cut keeps its beginning and its end, with an ellipsis between: of the characters
/// beside that, one half from the beginning and one from the end, and an odd one from the beginning.
/// A text that fits is not cut.
pub proof fn cut_texts_keep_both_ends(s: Seq<char>, max: nat, i: int)
    ensures
        s.len() <= max ==> elided(s, max) == s,
        s.len() > max > 0 ==> {
            let front = max / 2;
            let back = (max - 1) / 2;
            &&& front + 1 + back == max
            &&& elided(s, max)[front as int] == '\u{2026}'
            &&& 0 <= i < front ==> elided(s, max)[i] == s[i]
            &&& 0 <= i < back ==> elided(s, max)[max - 1 - i] == s[s.len() - 1 - i]
        },
{
    reveal_strlit("…");
}

/// A number of bytes under 1024 is shown as it is; a larger one in the largest unit, up to that of
/// 1024 to the power of four, that does not exceed it, to the nearest tenth, and of two to the even
/// one.
pub proof fn sizes_are_shown_to_a_tenth(n: int, short: bool)
    requires
        0 <= n < 0x20_0000_0000_0000,
    ensures
        n < 1024 ==> size_text(n, short) == crate::text::decimal_text(n) + seq![' ', 'B'],
        n >= 1024 ==> exists|unit: nat, tenths: int|
            #![trigger in_tenths(tenths, unit, short)]
            {
                let size = if unit == 1 {
                    0x400
                } else if unit == 2 {
                    0x10_0000
                } else if unit == 3 {
                    0x4000_0000
                } else {
                    0x100_0000_0000int
                };
                &&& 1 <= unit <= 4
                &&& size <= n
                &&& unit < 4 ==> n < 1024 * size
                &&& 2 * vstd::math::abs(tenths * size - 10 * n) <= size
                &&& 2 * vstd::math::abs(tenths * size - 10 * n) == size ==> tenths % 2 == 0
                &&& size_text(n, short) == in_tenths(tenths, unit, short)
            },
{
    reveal_strlit(" B");
    reveal_strlit("KiB");
    reveal_strlit("MiB");
    reveal_strlit("GiB");
    reveal_strlit("TiB");
    reveal_strlit("KB");
    reveal_strlit("MB");
    reveal_strlit("GB");
    reveal_strlit("TB");
    reveal_strlit(".");
    reveal_strlit(" ");
    assert(" B"@ =~= seq![' ', 'B']);
    reveal_with_fuel(unit_size, 6);
    reveal_with_fuel(unit_of, 6);
    assert(nearest(n, 1) == n);
    assert(coarse(n, 1) == n);
    let unit = unit_of(n, 0);
    if n >= 1024 {
        let size = unit_size(unit);
        let tenths = nearest(10 * n, size);
        lemma_nearest(10 * n, size);
        assert(size_text(n, short) =~= in_tenths(tenths, unit, short));
    }
}

/// A number of tenths of a unit: the whole ones, a point, the tenths behind them, a space, and the
/// name of the unit.
pub open spec fn in_tenths(tenths: int, unit: nat, short: bool) -> Seq<char> {
    let letter = if unit == 1 {
        'K'
    } else if unit == 2 {
        'M'
    } else if unit == 3 {
        'G'
    } else {
        'T'
    };
    crate::text::decimal_text(tenths / 10) + seq!['.'] + crate::text::decimal_text(tenths % 10)
        + if short {
        seq![' ', letter, 'B']
    } else {
        seq![' ', letter, 'i', 'B']
    }
}

proof fn lemma_nearest(a: int, b: int)
    requires
        0 <= a,
        b > 0,
    ensures
        2 * vstd::math::abs(nearest(a, b) * b - a) <= b,
        2 * vstd::math::abs(nearest(a, b) * b - a) == b ==> nearest(a, b) % 2 == 0,
        nearest(a, b) >= 0,
{
    let q = a / b;
    let r = a % b;
    assert(a == q * b + r && 0 <= r < b) by (nonlinear_arith)
        requires
            q == a / b,
            r == a % b,
            b > 0,
    ;
    assert((q + 1) * b == q * b + b) by (nonlinear_arith);
}

/// A count that still grows is marked as a lower bound; a final one is not. Columns come first.
pub proof fn growing_counts_are_marked(columns: int, n: u64)
    ensures
        extent_text(columns, RowCount::Exact(n)) == grouped(columns) + seq![
            ' ',
            'c',
            'o',
            'l',
            's',
            ',',
            ' ',
        ] + grouped(n as int) + seq![' ', 'r', 'o', 'w', 's'],
        extent_text(columns, RowCount::AtLeast(n)) == grouped(columns) + seq![
            ' ',
            'c',
            'o',
            'l',
            's',
            ',',
            ' ',
            '\u{2265}',
            ' ',
        ] + grouped(n as int) + seq![' ', 'r', 'o', 'w', 's'],
{
    reveal_strlit(" cols, ");
    reveal_strlit(" cols, ≥ ");
    reveal_strlit(" rows");
    assert(" cols, "@ =~= seq![' ', 'c', 'o', 'l', 's', ',', ' ']);
    assert(" cols, ≥ "@ =~= seq![' ', 'c', 'o', 'l', 's', ',', ' ', '\u{2265}', ' ']);
    assert(" rows"@ =~= seq![' ', 'r', 'o', 'w', 's']);
}

/// Selected rows are shown as they are numbered, from one on, the first and the last of them and how
/// many there are; which way they were selected does not matter.
pub proof fn selections_are_counted_from_one(a: u64, b: u64)
    requires
        a <= b,
    ensures
        selection_text(RowSpan { anchor: a, lead: b }) == selection_text(
            RowSpan { anchor: b, lead: a },
        ),
        a == b ==> selection_text(RowSpan { anchor: a, lead: b }) == seq!['r', 'o', 'w', ' '] + grouped(
            a + 1,
        ) + seq![' ', 's', 'e', 'l', 'e', 'c', 't', 'e', 'd'],
        a < b ==> selection_text(RowSpan { anchor: a, lead: b }) == seq!['r', 'o', 'w', 's', ' ']
            + grouped(a + 1) + seq!['\u{2013}'] + grouped(b + 1) + seq![
            ' ',
            's',
            'e',
            'l',
            'e',
            'c',
            't',
            'e',
            'd',
            ' ',
            '(',
        ] + grouped(b - a + 1) + seq![')'],
{
    reveal_strlit("row ");
    reveal_strlit("rows ");
    reveal_strlit(" selected");
    reveal_strlit(" selected (");
    reveal_strlit("–");
    reveal_strlit(")");
    assert("row "@ =~= seq!['r', 'o', 'w', ' ']);
    assert("rows "@ =~= seq!['r', 'o', 'w', 's', ' ']);
    assert(" selected"@ =~= seq![' ', 's', 'e', 'l', 'e', 'c', 't', 'e', 'd']);
    assert(" selected ("@ =~= seq![' ', 's', 'e', 'l', 'e', 'c', 't', 'e', 'd', ' ', '(']);
    assert("–"@ =~= seq!['\u{2013}']);
    assert(")"@ =~= seq![')']);
}

/// A number of bytes from two to the power of 53 on is shown by its first 53 binary digits: the
/// nearest such number, and of two the even one.
pub proof fn large_sizes_keep_53_digits(n: int, step: int)
    requires
        0 <= n < 0x20_0000_0000_0000 * 0x800,
        1 <= step <= 0x800,
        n < 0x20_0000_0000_0000 * step,
        step == 1 || 2 * n >= 0x20_0000_0000_0000 * step,
        [1int, 2, 4, 8, 0x10, 0x20, 0x40, 0x80, 0x100, 0x200, 0x400, 0x800]@.contains(step),
    ensures
        2 * vstd::math::abs(coarse(n, 1) - n) <= step,
        coarse(n, 1) == nearest(n, step) * step,
        2 * vstd::math::abs(coarse(n, 1) - n) == step ==> nearest(n, step) % 2 == 0,
        step == 1 ==> coarse(n, 1) == n,
{
    reveal_with_fuel(coarse, 13);
    lemma_nearest(n, step);
    let all = [1int, 2, 4, 8, 0x10, 0x20, 0x40, 0x80, 0x100, 0x200, 0x400, 0x800]@;
    let k = all.index_of(step);
    assert(all[k] == step);
}

} // verus!
