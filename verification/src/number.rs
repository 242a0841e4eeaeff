//! Numerals in cells: which texts are numbers, and how two of them compare.
//!
//! A decimal numeral stands for the binary64 number nearest to it (ties to the even
//! mantissa), as is usual for data read as floating point. The nearest number is found in
//! integer arithmetic and kept as its bit pattern, whose order is the order of the numbers.
use vstd::arithmetic::power::{lemma_pow_adds, lemma_pow_increases, lemma_pow_positive, pow};
use vstd::prelude::*;
use crate::natural::{Natural, Rank};
use crate::text::{decimal_value, digit_value, equal_ignoring_case, is_digit, same_letters};

verus! {

/// The length of the row of digits that a text starts with.
pub open spec fn digit_run(s: Seq<char>) -> nat
    decreases s.len(),
{
    if s.len() > 0 && is_digit(s[0]) {
        1 + digit_run(s.drop_first())
    } else {
        0
    }
}

/// What a numeral writes.
pub enum Numeral {
    /// `digits` times ten to the power of `exponent`.
    Finite { negative: bool, digits: Seq<char>, exponent: int },
    Infinite { negative: bool },
    Undefined,
}

/// The exponent that a text behind the digits writes; nothing where the text is no exponent.
pub open spec fn exponent_of(tail: Seq<char>) -> Option<int> {
    if tail.len() == 0 {
        Some(0)
    } else if tail[0] == 'e' || tail[0] == 'E' {
        let t = tail.skip(1);
        let digits = if t.len() > 0 && (t[0] == '-' || t[0] == '+') {
            t.skip(1)
        } else {
            t
        };
        if digits.len() > 0 && digit_run(digits) == digits.len() {
            if t[0] == '-' {
                Some(-decimal_value(digits))
            } else {
                Some(decimal_value(digits))
            }
        } else {
            None
        }
    } else {
        None
    }
}

/// The digits and the power of ten of an unsigned decimal numeral.
pub open spec fn decimal_parts(body: Seq<char>) -> Option<(Seq<char>, int)> {
    let whole = digit_run(body);
    let rest = body.skip(whole as int);
    let point = rest.len() > 0 && rest[0] == '.';
    let parts = if point {
        digit_run(rest.skip(1))
    } else {
        0
    };
    let digits = if point {
        body.take(whole as int) + rest.skip(1).take(parts as int)
    } else {
        body.take(whole as int)
    };
    let tail = if point {
        rest.skip(1).skip(parts as int)
    } else {
        rest
    };
    if digits.len() == 0 {
        None
    } else {
        match exponent_of(tail) {
            Some(e) => Some((digits, e - parts)),
            None => None,
        }
    }
}

/// What a text writes as a number: a sign or none, then `inf`, `infinity` or `nan` in any
/// case, or digits with at most one point among or around them and at most one exponent.
pub open spec fn numeral(s: Seq<char>) -> Option<Numeral> {
    let signed = s.len() > 0 && (s[0] == '-' || s[0] == '+');
    let negative = s.len() > 0 && s[0] == '-';
    let body = if signed {
        s.skip(1)
    } else {
        s
    };
    if same_letters(body, "inf"@) || same_letters(body, "infinity"@) {
        Some(Numeral::Infinite { negative })
    } else if same_letters(body, "nan"@) {
        Some(Numeral::Undefined)
    } else {
        match decimal_parts(body) {
            Some((digits, exponent)) => Some(Numeral::Finite { negative, digits, exponent }),
            None => None,
        }
    }
}

/// The bit pattern of positive infinity.
pub const INFINITE_BITS: u64 = 0x7ff0_0000_0000_0000;

/// A nonnegative binary64 number, by its bit pattern, as a multiple of the smallest one,
/// two to the power of -1074. The pattern of infinity gets the next power of two.
pub open spec fn units(bits: int) -> int {
    let exponent = bits / 0x10_0000_0000_0000;
    let mantissa = bits % 0x10_0000_0000_0000;
    if exponent == 0 {
        mantissa
    } else {
        (0x10_0000_0000_0000 + mantissa) * pow(2, (exponent - 1) as nat)
    }
}

/// Whether `n / d` rounds to a number above the one with the given pattern: it is above the
/// middle between that number and the next, or in the middle and the next one is the even one.
pub open spec fn above_middle(n: int, d: int, bits: int) -> bool {
    let doubled = 2 * (n * pow(2, 1074));
    let middle = (units(bits) + units(bits + 1)) * d;
    doubled > middle || (doubled == middle && bits % 2 == 1)
}

/// Whether the binary64 number nearest to `n / d` has the given bit pattern.
pub open spec fn rounds_to(n: int, d: int, bits: int) -> bool {
    &&& 0 <= bits <= INFINITE_BITS
    &&& bits > 0 ==> above_middle(n, d, bits - 1)
    &&& bits < INFINITE_BITS ==> !above_middle(n, d, bits)
}

/// Ten to a power, on the side of the fraction where it belongs.
pub open spec fn numerator(digits: Seq<char>, exponent: int) -> int {
    if exponent >= 0 {
        decimal_value(digits) * pow(10, exponent as nat)
    } else {
        decimal_value(digits)
    }
}

/// The other side of the fraction.
pub open spec fn denominator(exponent: int) -> int {
    if exponent >= 0 {
        1
    } else {
        pow(10, (-exponent) as nat)
    }
}

/// The bit pattern of the binary64 number nearest to `digits` times ten to the power of
/// `exponent`.
pub open spec fn nearest_bits(digits: Seq<char>, exponent: int) -> int {
    choose|bits: int|
        rounds_to(numerator(digits, exponent), denominator(exponent), bits)
}

/// Where a number stands among all numbers: the bit pattern of its magnitude, negated for a
/// negative number. Nothing for the undefined number.
pub open spec fn place(number: Numeral) -> Option<int> {
    match number {
        Numeral::Finite { negative, digits, exponent } => if negative {
            Some(-nearest_bits(digits, exponent))
        } else {
            Some(nearest_bits(digits, exponent))
        },
        Numeral::Infinite { negative } => if negative {
            Some(-(INFINITE_BITS as int))
        } else {
            Some(INFINITE_BITS as int)
        },
        Numeral::Undefined => None,
    }
}

/// Two units in a row.
proof fn lemma_units(bits: int)
    requires
        0 <= bits,
    ensures
        ({
            let exponent = bits / 0x10_0000_0000_0000;
            let mantissa = bits % 0x10_0000_0000_0000;
            let m = if exponent == 0 {
                mantissa
            } else {
                0x10_0000_0000_0000 + mantissa
            };
            let p = pow(
                2,
                if exponent == 0 {
                    0
                } else {
                    (exponent - 1) as nat
                },
            );
            &&& units(bits) == m * p
            &&& units(bits + 1) == (m + 1) * p
            &&& units(bits) + units(bits + 1) == (2 * m + 1) * p
            &&& p >= 1
            &&& m >= 0
        }),
{
    reveal(pow);
    let base = 0x10_0000_0000_0000int;
    let exponent = bits / base;
    let mantissa = bits % base;
    let m = if exponent == 0 {
        mantissa
    } else {
        base + mantissa
    };
    let e: nat = if exponent == 0 {
        0
    } else {
        (exponent - 1) as nat
    };
    let p = pow(2, e);
    lemma_pow_positive(2, e);
    if mantissa + 1 < base {
        assert((bits + 1) / base == exponent && (bits + 1) % base == mantissa + 1);
    } else {
        assert((bits + 1) / base == exponent + 1 && (bits + 1) % base == 0);
        if exponent > 0 {
            assert(pow(2, exponent as nat) == 2 * p);
            assert(base * (2 * p) == (base + base) * p) by (nonlinear_arith);
        }
    }
    assert(m * p + (m + 1) * p == (2 * m + 1) * p) by (nonlinear_arith);
}

/// What rounds above a number rounds above every smaller one.
proof fn lemma_above_middle_down(n: int, d: int, low: int, high: int)
    requires
        d > 0,
        0 <= low <= high,
        above_middle(n, d, high),
    ensures
        above_middle(n, d, low),
    decreases high - low,
{
    if low < high {
        lemma_units(high - 1);
        lemma_units(high);
        let a = units(high - 1) + units(high);
        let b = units(high) + units(high + 1);
        assert(units(high - 1) < units(high)) by {
            let base = 0x10_0000_0000_0000int;
            let exponent = (high - 1) / base;
            let m = if exponent == 0 {
                (high - 1) % base
            } else {
                base + (high - 1) % base
            };
            let p = pow(
                2,
                if exponent == 0 {
                    0
                } else {
                    (exponent - 1) as nat
                },
            );
            assert((m + 1) * p == m * p + p) by (nonlinear_arith);
        }
        assert(units(high) < units(high + 1)) by {
            let base = 0x10_0000_0000_0000int;
            let exponent = high / base;
            let m = if exponent == 0 {
                high % base
            } else {
                base + high % base
            };
            let p = pow(
                2,
                if exponent == 0 {
                    0
                } else {
                    (exponent - 1) as nat
                },
            );
            assert((m + 1) * p == m * p + p) by (nonlinear_arith);
        }
        assert(a * d < b * d) by (nonlinear_arith)
            requires
                a < b,
                d > 0,
        ;
        assert(above_middle(n, d, high - 1));
        lemma_above_middle_down(n, d, low, high - 1);
    }
}

/// A fraction has one nearest number.
pub proof fn nearest_is_unique(n: int, d: int, a: int, b: int)
    requires
        d > 0,
        rounds_to(n, d, a),
        rounds_to(n, d, b),
    ensures
        a == b,
{
    if a < b {
        lemma_above_middle_down(n, d, a, b - 1);
    } else if b < a {
        lemma_above_middle_down(n, d, b, a - 1);
    }
}


proof fn lemma_run(s: Seq<char>)
    ensures
        digit_run(s) <= s.len(),
        forall|i: int| 0 <= i < digit_run(s) ==> is_digit(#[trigger] s[i]),
    decreases s.len(),
{
    if s.len() > 0 && is_digit(s[0]) {
        lemma_run(s.drop_first());
        assert forall|i: int| 0 <= i < digit_run(s) implies is_digit(#[trigger] s[i]) by {
            if i > 0 {
                assert(s[i] == s.drop_first()[i - 1]);
            }
        }
    }
}

proof fn lemma_decimal_join(a: Seq<char>, b: Seq<char>)
    ensures
        decimal_value(a + b) == decimal_value(a) * pow(10, b.len()) + decimal_value(b),
    decreases b.len(),
{
    reveal(pow);
    if b.len() == 0 {
        assert(a + b =~= a);
    } else {
        lemma_decimal_join(a, b.drop_last());
        assert((a + b).drop_last() =~= a + b.drop_last());
        let p = pow(10, (b.len() - 1) as nat);
        let v = decimal_value(a);
        assert(10 * (v * p) == v * (10 * p)) by (nonlinear_arith);
    }
}

proof fn lemma_decimal_bounds(s: Seq<char>)
    requires
        forall|i: int| 0 <= i < s.len() ==> is_digit(#[trigger] s[i]),
    ensures
        0 <= decimal_value(s) < pow(10, s.len()),
        s.len() > 0 && s[0] != '0' ==> decimal_value(s) >= pow(10, (s.len() - 1) as nat),
    decreases s.len(),
{
    reveal(pow);
    if s.len() > 0 {
        assert(is_digit(s.last()));
        lemma_decimal_bounds(s.drop_last());
        if s.len() > 1 {
            assert(s.drop_last()[0] == s[0]);
        } else {
            assert(s.drop_last() =~= Seq::empty());
            assert(decimal_value(Seq::<char>::empty()) == 0);
        }
    }
}

proof fn lemma_zeros(s: Seq<char>)
    requires
        forall|i: int| 0 <= i < s.len() ==> #[trigger] s[i] == '0',
    ensures
        decimal_value(s) == 0,
    decreases s.len(),
{
    if s.len() > 0 {
        lemma_zeros(s.drop_last());
        assert(s.last() == '0');
    }
}

proof fn lemma_tens_and_twos(k: nat)
    ensures
        pow(10, k) >= pow(2, 3 * k) > 0,
    decreases k,
{
    reveal(pow);
    if k > 0 {
        lemma_tens_and_twos((k - 1) as nat);
        lemma_pow_adds(2, 3, (3 * (k - 1)) as nat);
        vstd::arithmetic::power2::lemma2_to64();
        vstd::arithmetic::power2::lemma_pow2(3);
    }
}

/// A number of at least ten to the power of 343 rounds to infinity.
proof fn lemma_huge(value: int, size: nat, exponent: int, n: int, d: int)
    requires
        size >= 1,
        value >= pow(10, (size - 1) as nat),
        size + exponent >= 344,
        n == if exponent >= 0 {
            value * pow(10, exponent as nat)
        } else {
            value
        },
        d == denominator(exponent),
    ensures
        rounds_to(n, d, INFINITE_BITS as int),
{
    let big = pow(10, 343);
    lemma_pow_positive(10, (size - 1) as nat);
    reveal(pow);
    assert(d >= 1 && n >= big * d) by {
        if exponent >= 0 {
            lemma_pow_positive(10, exponent as nat);
            lemma_pow_adds(10, (size - 1) as nat, exponent as nat);
            lemma_pow_increases(10, 343, (size - 1 + exponent) as nat);
            let low = pow(10, (size - 1) as nat);
            let q = pow(10, exponent as nat);
            assert(value * q >= low * q) by (nonlinear_arith)
                requires
                    value >= low,
                    q >= 0,
            ;
        } else {
            lemma_pow_positive(10, (-exponent) as nat);
            lemma_pow_adds(10, 343, (-exponent) as nat);
            lemma_pow_increases(10, (343 - exponent) as nat, (size - 1) as nat);
        }
    }
    lemma_tens_and_twos(343);
    let last = INFINITE_BITS - 1;
    lemma_units(last);
    let p = pow(2, 2045);
    assert(last as int / 0x10_0000_0000_0000 == 2046);
    let sum = units(last) + units(last + 1);
    assert(sum <= 0x40_0000_0000_0000 * p) by {
        let m = 0x10_0000_0000_0000 + last as int % 0x10_0000_0000_0000;
        assert(m == 0x1f_ffff_ffff_ffff);
        assert((2 * m + 1) * p <= 0x40_0000_0000_0000 * p) by (nonlinear_arith)
            requires
                2 * m + 1 <= 0x40_0000_0000_0000,
                p >= 0,
        ;
    }
    lemma_pow_adds(2, 1029, 1074);
    lemma_pow_adds(2, 58, 2045);
    vstd::arithmetic::power2::lemma2_to64_rest();
    vstd::arithmetic::power2::lemma_pow2(58);
    let t = pow(2, 1074);
    let w = pow(2, 1029);
    lemma_pow_positive(2, 1074);
    assert(n * t >= (w * t) * d) by (nonlinear_arith)
        requires
            n >= big * d,
            big >= w,
            t >= 0,
            d >= 1,
            w >= 0,
    ;
    let c = pow(2, 58);
    assert((c * p) * d > (0x40_0000_0000_0000 * p) * d) by (nonlinear_arith)
        requires
            c > 0x40_0000_0000_0000,
            p >= 1,
            d >= 1,
    ;
    assert(sum * d <= (0x40_0000_0000_0000 * p) * d) by (nonlinear_arith)
        requires
            sum <= 0x40_0000_0000_0000 * p,
            d >= 1,
    ;
}

/// A number under ten to the power of -360 rounds to zero.
proof fn lemma_tiny(value: int, size: nat, exponent: int)
    requires
        0 <= value < pow(10, size),
        size + exponent <= -361,
    ensures
        rounds_to(value, denominator(exponent), 0),
{
    reveal(pow);
    let d = denominator(exponent);
    lemma_pow_adds(10, size, 361);
    lemma_pow_increases(10, size + 361, (-exponent) as nat);
    lemma_tens_and_twos(361);
    lemma_pow_increases(2, 1075, 1083);
    lemma_pow_positive(2, 1074);
    let t = pow(2, 1074);
    let s = pow(10, size);
    let q = pow(10, 361);
    assert(pow(2, 1075) == 2 * t);
    assert(2 * (value * t) < s * q) by (nonlinear_arith)
        requires
            0 <= value < s,
            2 * t <= q,
            t >= 1,
    ;
    lemma_units(0);
    assert(units(0) == 0 && units(1) == 1);
}

proof fn lemma_zero(exponent: int)
    ensures
        rounds_to(0, denominator(exponent), 0),
{
    reveal(pow);
    if exponent < 0 {
        lemma_pow_positive(10, (-exponent) as nat);
    }
    lemma_units(0);
    assert(0 * pow(2, 1074) == 0);
}

proof fn lemma_denominator(exponent: int)
    ensures
        denominator(exponent) >= 1,
{
    if exponent < 0 {
        lemma_pow_positive(10, (-exponent) as nat);
    }
}

/// An exponent held in a machine integer, and the exponent that it stands for: equal, or both
/// so far from zero that they make no difference.
spec fn stands_for(held: i128, exponent: int) -> bool {
    &&& -100_000_000_000_000_000_000_000_000_000_000 <= held
        <= 100_000_000_000_000_000_000_000_000_000_000
    &&& {
        ||| held == exponent
        ||| held >= 100_000_000_000_000_000_000_000_000_000 && exponent >= held
        ||| held <= -100_000_000_000_000_000_000_000_000_000 && exponent <= held
    }
}

/// What a numeral writes, as it is read.
enum Reading {
    Finite { negative: bool, digits: Vec<char>, exponent: i128 },
    Infinite { negative: bool },
    Undefined,
}

spec fn reads(r: Option<Reading>, s: Seq<char>) -> bool {
    match r {
        None => numeral(s) is None,
        Some(Reading::Finite { negative, digits, exponent }) => {
            &&& numeral(s) matches Some(Numeral::Finite { negative: n, digits: d, exponent: e })
            &&& n == negative
            &&& d == digits@
            &&& stands_for(exponent, e)
            &&& forall|i: int| 0 <= i < d.len() ==> is_digit(#[trigger] d[i])
        },
        Some(Reading::Infinite { negative }) => numeral(s) == Some(Numeral::Infinite { negative }),
        Some(Reading::Undefined) => numeral(s) == Some(Numeral::Undefined),
    }
}

/// Where the row of digits from `from` on ends.
fn run_end(chars: &[char], from: usize) -> (end: usize)
    requires
        from <= chars.len(),
    ensures
        from <= end <= chars.len(),
        end - from == digit_run(chars@.skip(from as int)),
        forall|i: int| from <= i < end ==> is_digit(#[trigger] chars@[i]),
{
    let mut end: usize = from;
    while end < chars.len() && '0' <= chars[end] && chars[end] <= '9'
        invariant
            from <= end <= chars.len(),
            digit_run(chars@.skip(from as int)) == (end - from) + digit_run(
                chars@.skip(end as int),
            ),
            forall|i: int| from <= i < end ==> is_digit(#[trigger] chars@[i]),
        decreases chars.len() - end,
    {
        assert(chars@.skip(end as int).drop_first() =~= chars@.skip(end + 1));
        assert(chars@.skip(end as int)[0] == chars@[end as int]);
        end += 1;
    }
    assert(end < chars.len() ==> chars@.skip(end as int)[0] == chars@[end as int]);
    end
}

/// The number that digits write, or a smaller one of at least ten to the power of 30.
fn capped_value(chars: &[char], from: usize) -> (v: u128)
    requires
        from <= chars.len(),
        forall|i: int| from <= i < chars.len() ==> is_digit(#[trigger] chars@[i]),
    ensures
        v <= decimal_value(chars@.skip(from as int)),
        v < 1_000_000_000_000_000_000_000_000_000_000 ==> v == decimal_value(
            chars@.skip(from as int),
        ),
        v <= 10_000_000_000_000_000_000_000_000_000_009,
{
    let ghost s = chars@.skip(from as int);
    let mut v: u128 = 0;
    assert(s.take(0) =~= Seq::empty());
    for i in from..chars.len()
        invariant
            s == chars@.skip(from as int),
            from <= chars.len(),
            forall|i: int| from <= i < chars.len() ==> is_digit(#[trigger] chars@[i]),
            v <= decimal_value(s.take(i - from)),
            v < 1_000_000_000_000_000_000_000_000_000_000 ==> v == decimal_value(
                s.take(i - from),
            ),
            v <= 10_000_000_000_000_000_000_000_000_000_009,
    {
        proof {
            assert(s.take(i - from + 1).drop_last() =~= s.take(i - from));
            assert(s.take(i - from + 1).last() == chars@[i as int]);
            assert(is_digit(chars@[i as int]));
        }
        let digit: u32 = chars[i] as u32 - '0' as u32;
        if v < 1_000_000_000_000_000_000_000_000_000_000 {
            v = 10 * v + digit as u128;
        }
    }
    assert(s.take(s.len() as int) =~= s);
    v
}

/// The exponent behind the digits.
fn read_exponent(chars: &[char], from: usize, parts: usize) -> (r: Option<i128>)
    requires
        from <= chars.len(),
    ensures
        r is None <==> exponent_of(chars@.skip(from as int)) is None,
        r matches Some(held) ==> stands_for(
            held,
            exponent_of(chars@.skip(from as int))->0 - parts,
        ),
{
    let ghost tail = chars@.skip(from as int);
    if from == chars.len() {
        return Some(-(parts as i128));
    }
    if chars[from] != 'e' && chars[from] != 'E' {
        return None;
    }
    let ghost t = tail.skip(1);
    assert(t =~= chars@.skip(from + 1));
    let signed = from + 1 < chars.len() && (chars[from + 1] == '-' || chars[from + 1] == '+');
    let negative = from + 1 < chars.len() && chars[from + 1] == '-';
    let start: usize = if signed {
        from + 2
    } else {
        from + 1
    };
    let end: usize = run_end(chars, start);
    let ghost digits = chars@.skip(start as int);
    proof {
        if signed {
            assert(t.skip(1) =~= digits);
        }
        lemma_run(digits);
    }
    if start == chars.len() || end != chars.len() {
        return None;
    }
    let v: u128 = capped_value(chars, start);
    if negative {
        Some(-(v as i128) - parts as i128)
    } else {
        Some(v as i128 - parts as i128)
    }
}

/// Reads an unsigned decimal numeral.
fn read_decimal(body: &[char]) -> (r: Option<(Vec<char>, i128)>)
    ensures
        r is None <==> decimal_parts(body@) is None,
        r matches Some((digits, held)) ==> {
            &&& decimal_parts(body@) matches Some((d, e))
            &&& d == digits@
            &&& stands_for(held, e)
            &&& forall|i: int| 0 <= i < d.len() ==> is_digit(#[trigger] d[i])
        },
{
    let whole: usize = run_end(body, 0);
    assert(body@.skip(0) =~= body@);
    let ghost rest = body@.skip(whole as int);
    let point = whole < body.len() && body[whole] == '.';
    let mut digits: Vec<char> = vstd::slice::slice_to_vec(
        vstd::slice::slice_subrange(body, 0, whole),
    );
    assert(digits@ =~= body@.take(whole as int));
    let mut tail: usize = whole;
    let mut parts: usize = 0;
    if point {
        let end: usize = run_end(body, whole + 1);
        assert(rest.skip(1) =~= body@.skip(whole + 1));
        parts = end - (whole + 1);
        let mut more: Vec<char> = vstd::slice::slice_to_vec(
            vstd::slice::slice_subrange(body, whole + 1, end),
        );
        assert(more@ =~= rest.skip(1).take(parts as int));
        digits.append(&mut more);
        tail = end;
        assert(body@.skip(tail as int) =~= rest.skip(1).skip(parts as int));
    }
    proof {
        assert forall|i: int| 0 <= i < digits@.len() implies is_digit(#[trigger] digits@[i]) by {
            if i < whole {
                assert(digits@[i] == body@[i]);
            } else {
                assert(digits@[i] == body@[i + 1]);
            }
        }
    }
    if digits.len() == 0 {
        return None;
    }
    match read_exponent(body, tail, parts) {
        Some(exponent) => Some((digits, exponent)),
        None => None,
    }
}

/// Reads a numeral.
fn read(chars: &[char]) -> (r: Option<Reading>)
    ensures
        reads(r, chars@),
{
    let signed = chars.len() > 0 && (chars[0] == '-' || chars[0] == '+');
    let negative = chars.len() > 0 && chars[0] == '-';
    let start: usize = if signed {
        1
    } else {
        0
    };
    let body = vstd::slice::slice_subrange(chars, start, chars.len());
    assert(body@ =~= if signed {
        chars@.skip(1)
    } else {
        chars@
    });
    let inf = crate::text::chars_of("inf");
    let infinity = crate::text::chars_of("infinity");
    let nan = crate::text::chars_of("nan");
    if equal_ignoring_case(body, inf.as_slice()) || equal_ignoring_case(body, infinity.as_slice()) {
        return Some(Reading::Infinite { negative });
    }
    if equal_ignoring_case(body, nan.as_slice()) {
        return Some(Reading::Undefined);
    }
    match read_decimal(body) {
        Some((digits, exponent)) => Some(Reading::Finite { negative, digits, exponent }),
        None => None,
    }
}

/// Whether the fraction rounds above the number with the given pattern.
fn above(doubled: &Natural, den: &Natural, bits: u64, Ghost(n): Ghost<int>) -> (r: bool)
    requires
        bits < INFINITE_BITS,
        doubled@ == 2 * (n * pow(2, 1074)),
    ensures
        r == above_middle(n, den@, bits as int),
{
    let exponent: u64 = bits / 0x10_0000_0000_0000;
    let mantissa: u64 = bits % 0x10_0000_0000_0000;
    let m: u64 = if exponent == 0 {
        mantissa
    } else {
        0x10_0000_0000_0000 + mantissa
    };
    let shift: u32 = if exponent == 0 {
        0
    } else {
        (exponent - 1) as u32
    };
    let middle = den.scaled(2 * m + 1, 0).shifted(shift);
    proof {
        lemma_units(bits as int);
        let p = pow(2, shift as nat);
        let d = den@;
        assert((d * (2 * m + 1)) * p == ((2 * m + 1) * p) * d) by (nonlinear_arith);
    }
    match doubled.against(&middle) {
        Rank::Above => true,
        Rank::Same => bits % 2 == 1,
        Rank::Below => false,
    }
}

/// The bit pattern of the nearest number.
fn nearest(digits: &[char], held: i128, Ghost(exponent): Ghost<int>) -> (bits: u64)
    requires
        stands_for(held, exponent),
        forall|i: int| 0 <= i < digits@.len() ==> is_digit(#[trigger] digits@[i]),
    ensures
        rounds_to(numerator(digits@, exponent), denominator(exponent), bits as int),
{
    let mut zeros: usize = 0;
    while zeros < digits.len() && digits[zeros] == '0'
        invariant
            zeros <= digits.len(),
            forall|i: int| 0 <= i < zeros ==> #[trigger] digits@[i] == '0',
        decreases digits.len() - zeros,
    {
        zeros += 1;
    }
    let ghost value = decimal_value(digits@);
    let ghost tail = digits@.skip(zeros as int);
    proof {
        lemma_zeros(digits@.take(zeros as int));
        lemma_decimal_join(digits@.take(zeros as int), tail);
        assert(digits@.take(zeros as int) + tail =~= digits@);
        assert(forall|i: int| 0 <= i < tail.len() ==> is_digit(#[trigger] tail[i]));
        lemma_decimal_bounds(tail);
        assert(value == decimal_value(tail));
    }
    if zeros == digits.len() {
        proof {
            assert(tail =~= Seq::empty());
            assert(decimal_value(Seq::<char>::empty()) == 0);
            assert(numerator(digits@, exponent) == 0);
            lemma_zero(exponent);
        }
        return 0;
    }
    let size: i128 = (digits.len() - zeros) as i128;
    if size + held > 343 {
        proof {
            lemma_huge(
                value,
                size as nat,
                exponent,
                numerator(digits@, exponent),
                denominator(exponent),
            );
        }
        return INFINITE_BITS;
    }
    if size + held < -360 {
        proof {
            lemma_tiny(value, size as nat, exponent);
        }
        return 0;
    }
    let mut num = Natural::zero();
    assert(digits@.take(0) =~= Seq::empty());
    for i in 0..digits.len()
        invariant
            forall|i: int| 0 <= i < digits@.len() ==> is_digit(#[trigger] digits@[i]),
            num@ == decimal_value(digits@.take(i as int)),
    {
        assert(digits@.take(i + 1).drop_last() =~= digits@.take(i as int));
        assert(is_digit(digits@[i as int]));
        num = num.scaled(10, (digits[i] as u32 - '0' as u32) as u64);
    }
    assert(digits@.take(digits@.len() as int) =~= digits@);
    let mut den = Natural::zero().scaled(1, 1);
    let mut k: i128 = 0;
    proof {
        reveal(pow);
        assert(value * 1 == value);
    }
    while k < held
        invariant
            0 <= k,
            k <= held || k == 0,
            num@ == value * pow(10, k as nat),
        decreases held - k,
    {
        proof {
            reveal(pow);
            let p = pow(10, k as nat);
            assert((value * p) * 10 == value * (10 * p)) by (nonlinear_arith);
        }
        num = num.scaled(10, 0);
        k += 1;
    }
    let mut k: i128 = 0;
    while k < -held
        invariant
            0 <= k,
            k <= -held || k == 0,
            den@ == pow(10, k as nat),
            -200_000_000_000_000_000_000_000_000_000_000 < held,
        decreases -held - k,
    {
        proof {
            reveal(pow);
        }
        den = den.scaled(10, 0);
        k += 1;
    }
    let ghost n = numerator(digits@, exponent);
    proof {
        assert(held == exponent);
        assert(num@ == n);
        assert(den@ == denominator(exponent));
    }
    let doubled = num.shifted(1075);
    proof {
        assert(pow(2, 1075) == 2 * pow(2, 1074)) by {
            reveal(pow);
        }
        let t = pow(2, 1074);
        assert(n * (2 * t) == 2 * (n * t)) by (nonlinear_arith);
    }
    let mut lo: u64 = 0;
    let mut hi: u64 = INFINITE_BITS;
    while lo < hi
        invariant
            lo <= hi <= INFINITE_BITS,
            doubled@ == 2 * (n * pow(2, 1074)),
            lo > 0 ==> above_middle(n, den@, lo - 1),
            hi < INFINITE_BITS ==> !above_middle(n, den@, hi as int),
        decreases hi - lo,
    {
        let mid: u64 = lo + (hi - lo) / 2;
        if above(&doubled, &den, mid, Ghost(n)) {
            lo = mid + 1;
        } else {
            hi = mid;
        }
    }
    lo
}

/// Whether a text is a number.
pub fn is_number(chars: &[char]) -> (r: bool)
    ensures
        r == numeral(chars@) is Some,
{
    read(chars).is_some()
}

/// Where a number stands among all numbers; `None` for a text that is no number, and
/// `Some(None)` for the undefined number.
pub fn number_place(chars: &[char]) -> (r: Option<Option<i64>>)
    ensures
        r is Some <==> numeral(chars@) is Some,
        r matches Some(p) ==> {
            &&& p is Some <==> place(numeral(chars@)->0) is Some
            &&& p matches Some(k) ==> place(numeral(chars@)->0) == Some(k as int)
        },
{
    match read(chars) {
        None => None,
        Some(Reading::Undefined) => Some(None),
        Some(Reading::Infinite { negative }) => {
            let bits: i64 = 0x7ff0_0000_0000_0000;
            if negative {
                Some(Some(-bits))
            } else {
                Some(Some(bits))
            }
        },
        Some(Reading::Finite { negative, digits, exponent }) => {
            let ghost e = numeral(chars@)->0->exponent;
            let bits: u64 = nearest(digits.as_slice(), exponent, Ghost(e));
            proof {
                lemma_denominator(e);
                nearest_is_unique(
                    numerator(digits@, e),
                    denominator(e),
                    bits as int,
                    nearest_bits(digits@, e),
                );
            }
            if negative {
                Some(Some(-(bits as i64)))
            } else {
                Some(Some(bits as i64))
            }
        },
    }
}

/// Whether a text is a whole number between the smallest and the largest `i64`: a sign or none,
/// then digits.
pub open spec fn is_whole(s: Seq<char>) -> bool {
    let signed = s.len() > 0 && (s[0] == '-' || s[0] == '+');
    let digits = if signed {
        s.skip(1)
    } else {
        s
    };
    &&& digits.len() > 0
    &&& digit_run(digits) == digits.len()
    &&& if s[0] == '-' {
        decimal_value(digits) <= 0x8000_0000_0000_0000
    } else {
        decimal_value(digits) <= 0x7fff_ffff_ffff_ffff
    }
}

/// Whether a text is a whole number that fits in an `i64`.
pub fn is_integer(chars: &[char]) -> (r: bool)
    ensures
        r == is_whole(chars@),
{
    let negative = chars.len() > 0 && chars[0] == '-';
    let signed = negative || (chars.len() > 0 && chars[0] == '+');
    let start: usize = if signed {
        1
    } else {
        0
    };
    assert(chars@.skip(start as int) =~= if signed {
        chars@.skip(1)
    } else {
        chars@
    });
    let end: usize = run_end(chars, start);
    if start == chars.len() || end != chars.len() {
        return false;
    }
    let v: u128 = capped_value(chars, start);
    if negative {
        v <= 0x8000_0000_0000_0000
    } else {
        v <= 0x7fff_ffff_ffff_ffff
    }
}

/// Whether every character is one of `0` to `9`.
pub open spec fn all_digits(s: Seq<char>) -> bool {
    forall|i: int| 0 <= i < s.len() ==> '0' <= #[trigger] s[i] <= '9'
}

/// How a sign is written: a minus, a plus, or not at all.
pub open spec fn sign_text(sign: Option<bool>) -> Seq<char> {
    match sign {
        Some(minus) => if minus {
            seq!['-']
        } else {
            seq!['+']
        },
        None => Seq::empty(),
    }
}

/// How the digits behind a point are written, with the point.
pub open spec fn fraction_text(fraction: Option<Seq<char>>) -> Seq<char> {
    match fraction {
        Some(digits) => seq!['.'] + digits,
        None => Seq::empty(),
    }
}

/// How a power of ten is written: the letter, a sign or none, and digits.
pub open spec fn power_text(power: Option<(char, Option<bool>, Seq<char>)>) -> Seq<char> {
    match power {
        Some((letter, sign, digits)) => seq![letter] + sign_text(sign) + digits,
        None => Seq::empty(),
    }
}

/// Whether the parts make up a decimal number: there is a digit before or behind the point, and a
/// power has the letter `e` in either case and a digit.
pub open spec fn is_decimal(
    whole: Seq<char>,
    fraction: Option<Seq<char>>,
    power: Option<(char, Option<bool>, Seq<char>)>,
) -> bool {
    &&& all_digits(whole)
    &&& fraction matches Some(digits) ==> all_digits(digits)
    &&& whole.len() > 0 || (fraction matches Some(digits) && digits.len() > 0)
    &&& power matches Some((letter, sign, digits)) ==> (letter == 'e' || letter == 'E')
        && all_digits(digits) && digits.len() > 0
}

/// The power of ten of the last digit.
pub open spec fn last_power(
    fraction: Option<Seq<char>>,
    power: Option<(char, Option<bool>, Seq<char>)>,
) -> int {
    let shift = match fraction {
        Some(digits) => digits.len() as int,
        None => 0,
    };
    match power {
        Some((_, sign, digits)) => if sign == Some(true) {
            -decimal_value(digits) - shift
        } else {
            decimal_value(digits) - shift
        },
        None => -shift,
    }
}

proof fn lemma_digit_run(digits: Seq<char>, rest: Seq<char>)
    requires
        all_digits(digits),
        rest.len() > 0 ==> !('0' <= rest[0] <= '9'),
    ensures
        digit_run(digits + rest) == digits.len(),
    decreases digits.len(),
{
    let s = digits + rest;
    if digits.len() == 0 {
        assert(s =~= rest);
    } else {
        assert(s[0] == digits[0]);
        assert(s.drop_first() =~= digits.drop_first() + rest);
        assert forall|i: int| 0 <= i < digits.drop_first().len() implies '0'
            <= #[trigger] digits.drop_first()[i] <= '9' by {
            assert(digits.drop_first()[i] == digits[i + 1]);
        }
        lemma_digit_run(digits.drop_first(), rest);
    }
}

proof fn lemma_power_read(power: Option<(char, Option<bool>, Seq<char>)>)
    requires
        power matches Some((letter, sign, digits)) ==> (letter == 'e' || letter == 'E')
            && all_digits(digits) && digits.len() > 0,
    ensures
        exponent_of(power_text(power)) == Some(last_power(None, power)),
{
    if let Some((letter, sign, digits)) = power {
        let tail = power_text(power);
        let t = tail.skip(1);
        assert(t =~= sign_text(sign) + digits);
        let behind = if t.len() > 0 && (t[0] == '-' || t[0] == '+') {
            t.skip(1)
        } else {
            t
        };
        if sign is None {
            assert(t =~= digits);
            assert('0' <= digits[0] <= '9');
        }
        assert(behind =~= digits);
        lemma_digit_run(digits, Seq::empty());
        assert(digits + Seq::<char>::empty() =~= digits);
        assert(t[0] == '-' <==> sign == Some(true));
    }
}

proof fn lemma_decimal_read(
    whole: Seq<char>,
    fraction: Option<Seq<char>>,
    power: Option<(char, Option<bool>, Seq<char>)>,
)
    requires
        is_decimal(whole, fraction, power),
    ensures
        decimal_parts(whole + fraction_text(fraction) + power_text(power)) == Some(
            (
                match fraction {
                    Some(digits) => whole + digits,
                    None => whole,
                },
                last_power(fraction, power),
            ),
        ),
{
    let tail = power_text(power);
    let body = whole + fraction_text(fraction) + tail;
    let rest = body.skip(whole.len() as int);
    assert(rest =~= fraction_text(fraction) + tail);
    assert(body =~= whole + rest);
    lemma_digit_run(whole, rest);
    lemma_power_read(power);
    assert(body.take(whole.len() as int) =~= whole);
    match fraction {
        Some(digits) => {
            assert(rest.skip(1) =~= digits + tail);
            lemma_digit_run(digits, tail);
            assert(rest.skip(1).take(digits.len() as int) =~= digits);
            assert(rest.skip(1).skip(digits.len() as int) =~= tail);
        },
        None => {
            assert(rest =~= tail);
        },
    }
}

proof fn lemma_no_name(body: Seq<char>)
    requires
        body.len() > 0,
        '0' <= body[0] <= '9' || body[0] == '.',
    ensures
        !same_letters(body, "inf"@),
        !same_letters(body, "infinity"@),
        !same_letters(body, "nan"@),
{
    reveal_strlit("inf");
    reveal_strlit("infinity");
    reveal_strlit("nan");
    if same_letters(body, "inf"@) || same_letters(body, "infinity"@) || same_letters(body, "nan"@) {
        assert(crate::text::lower(body[0]) == body[0]);
        assert(crate::text::lower('i') == 'i' && crate::text::lower('n') == 'n');
        assert(false);
    }
}

/// A number that is written out is read as it is written: a sign or none, digits with a point or
/// none, and a power of ten or none stand for the digits times ten to the power that the last of
/// them has, below zero where the sign is a minus.
pub proof fn written_numbers_are_read(
    sign: Option<bool>,
    whole: Seq<char>,
    fraction: Option<Seq<char>>,
    power: Option<(char, Option<bool>, Seq<char>)>,
)
    requires
        is_decimal(whole, fraction, power),
    ensures
        numeral(written_out(sign, whole, fraction, power)) == Some(
            Numeral::Finite {
                negative: sign == Some(true),
                digits: match fraction {
                    Some(digits) => whole + digits,
                    None => whole,
                },
                exponent: last_power(fraction, power),
            },
        ),
{
    let body = whole + fraction_text(fraction) + power_text(power);
    let s = sign_text(sign) + whole + fraction_text(fraction) + power_text(power);
    assert(s =~= sign_text(sign) + body);
    if whole.len() > 0 {
        assert(body[0] == whole[0]);
    } else {
        assert(body[0] == '.');
    }
    if sign is Some {
        assert(s.skip(1) =~= body);
    } else {
        assert(s =~= body);
    }
    lemma_no_name(body);
    lemma_decimal_read(whole, fraction, power);
}

/// Infinity and the undefined number are written by their names, with a sign or none and in any
/// case.
pub proof fn named_numbers_are_read(sign: Option<bool>, name: Seq<char>)
    ensures
        same_letters(name, seq!['i', 'n', 'f']) || same_letters(
            name,
            seq!['i', 'n', 'f', 'i', 'n', 'i', 't', 'y'],
        ) ==> numeral(sign_text(sign) + name) == Some(
            Numeral::Infinite { negative: sign == Some(true) },
        ),
        same_letters(name, seq!['n', 'a', 'n']) ==> numeral(sign_text(sign) + name) == Some(
            Numeral::Undefined,
        ),
{
    reveal_strlit("inf");
    reveal_strlit("infinity");
    reveal_strlit("nan");
    assert("inf"@ =~= seq!['i', 'n', 'f']);
    assert("infinity"@ =~= seq!['i', 'n', 'f', 'i', 'n', 'i', 't', 'y']);
    assert("nan"@ =~= seq!['n', 'a', 'n']);
    let s = sign_text(sign) + name;
    if sign is Some {
        assert(s.skip(1) =~= name);
    } else {
        assert(s =~= name);
    }
    if same_letters(name, "inf"@) || same_letters(name, "infinity"@) || same_letters(name, "nan"@) {
        if sign is None && (name[0] == '-' || name[0] == '+') {
            assert(crate::text::lower(name[0]) == name[0]);
            assert(crate::text::lower('i') == 'i' && crate::text::lower('n') == 'n');
            assert(false);
        }
        if same_letters(name, "nan"@) {
            assert(crate::text::lower(name[0]) == 'n') by {
                assert(crate::text::lower(name[0]) == crate::text::lower("nan"@[0]));
            }
            if same_letters(name, "inf"@) {
                assert(crate::text::lower(name[0]) == crate::text::lower("inf"@[0]));
                assert(false);
            }
        }
    }
}

/// How a number is written out.
pub open spec fn written_out(
    sign: Option<bool>,
    whole: Seq<char>,
    fraction: Option<Seq<char>>,
    power: Option<(char, Option<bool>, Seq<char>)>,
) -> Seq<char> {
    sign_text(sign) + whole + fraction_text(fraction) + power_text(power)
}

/// Whether a text is a number that is written out.
pub open spec fn is_written_out(s: Seq<char>) -> bool {
    exists|
        sign: Option<bool>,
        whole: Seq<char>,
        fraction: Option<Seq<char>>,
        power: Option<(char, Option<bool>, Seq<char>)>,
    |
        s == #[trigger] written_out(sign, whole, fraction, power) && is_decimal(
            whole,
            fraction,
            power,
        )
}

proof fn lemma_written_out(body: Seq<char>) -> (parts: (
    Seq<char>,
    Option<Seq<char>>,
    Option<(char, Option<bool>, Seq<char>)>,
))
    requires
        decimal_parts(body) is Some,
    ensures
        is_decimal(parts.0, parts.1, parts.2),
        body == parts.0 + fraction_text(parts.1) + power_text(parts.2),
{
    lemma_run(body);
    let run = digit_run(body) as int;
    let whole = body.take(run);
    let rest = body.skip(run);
    let point = rest.len() > 0 && rest[0] == '.';
    lemma_run(rest.skip(1));
    let parts = digit_run(rest.skip(1)) as int;
    let fraction = if point {
        Some(rest.skip(1).take(parts))
    } else {
        None
    };
    let tail = if point {
        rest.skip(1).skip(parts)
    } else {
        rest
    };
    assert(rest =~= fraction_text(fraction) + tail);
    assert(exponent_of(tail) is Some);
    let power = lemma_written_power(tail);
    assert(forall|i: int| 0 <= i < whole.len() ==> #[trigger] whole[i] == body[i]);
    if point {
        let digits = rest.skip(1).take(parts);
        assert(forall|i: int| 0 <= i < digits.len() ==> #[trigger] digits[i] == rest.skip(1)[i]);
    }
    assert(body =~= whole + rest);
    assert(body =~= whole + fraction_text(fraction) + power_text(power));
    (whole, fraction, power)
}

proof fn lemma_written_power(tail: Seq<char>) -> (power: Option<(char, Option<bool>, Seq<char>)>)
    requires
        exponent_of(tail) is Some,
    ensures
        power matches Some((letter, sign, digits)) ==> (letter == 'e' || letter == 'E')
            && all_digits(digits) && digits.len() > 0,
        power_text(power) == tail,
{
    if tail.len() == 0 {
        assert(power_text(None) =~= tail);
        None
    } else {
        let t = tail.skip(1);
        let sign: Option<bool> = if t[0] == '-' {
            Some(true)
        } else if t[0] == '+' {
            Some(false)
        } else {
            None
        };
        let digits = if sign is Some {
            t.skip(1)
        } else {
            t
        };
        lemma_run(digits);
        let power = Some((tail[0], sign, digits));
        assert(t =~= sign_text(sign) + digits);
        assert(power_text(power) =~= tail);
        power
    }
}

/// Nothing else is a number: a text that is one is written out, or is a name behind a sign or none.
pub proof fn numbers_are_written_or_named(s: Seq<char>)
    ensures
        numeral(s) is Some ==> is_written_out(s) || exists|sign: Option<bool>, name: Seq<char>|
            s == #[trigger] (sign_text(sign) + name) && (same_letters(name, seq!['i', 'n', 'f'])
                || same_letters(name, seq!['i', 'n', 'f', 'i', 'n', 'i', 't', 'y']) || same_letters(
                name,
                seq!['n', 'a', 'n'],
            )),
{
    if numeral(s) is Some {
        let sign: Option<bool> = if s.len() > 0 && s[0] == '-' {
            Some(true)
        } else if s.len() > 0 && s[0] == '+' {
            Some(false)
        } else {
            None
        };
        let body = if sign is Some {
            s.skip(1)
        } else {
            s
        };
        assert(s =~= sign_text(sign) + body);
        if same_letters(body, "inf"@) || same_letters(body, "infinity"@) || same_letters(
            body,
            "nan"@,
        ) {
            reveal_strlit("inf");
            reveal_strlit("infinity");
            reveal_strlit("nan");
            assert("inf"@ =~= seq!['i', 'n', 'f']);
            assert("infinity"@ =~= seq!['i', 'n', 'f', 'i', 'n', 'i', 't', 'y']);
            assert("nan"@ =~= seq!['n', 'a', 'n']);
        } else {
            let parts = lemma_written_out(body);
            assert(s =~= written_out(sign, parts.0, parts.1, parts.2));
        }
    }
}

/// A text without characters is no number.
pub proof fn numbers_are_not_empty(s: Seq<char>)
    ensures
        numeral(s) is Some ==> s.len() > 0,
{
    reveal_strlit("inf");
    reveal_strlit("infinity");
    reveal_strlit("nan");
}

/// A number neither starts nor ends with white space.
pub proof fn numbers_hold_no_white_space(s: Seq<char>)
    requires
        is_written_out(s),
    ensures
        s.len() > 0,
        !crate::text::is_white(s[0]),
        !crate::text::is_white(s.last()),
{
    let (sign, whole, fraction, power) = choose|
        sign: Option<bool>,
        whole: Seq<char>,
        fraction: Option<Seq<char>>,
        power: Option<(char, Option<bool>, Seq<char>)>,
    |
        s == #[trigger] written_out(sign, whole, fraction, power) && is_decimal(
            whole,
            fraction,
            power,
        );
    let head = sign_text(sign) + whole + fraction_text(fraction);
    assert(s =~= head + power_text(power));
    if let Some((letter, minus, digits)) = power {
        assert(s.last() == digits.last());
    } else {
        assert(s =~= head);
        if let Some(digits) = fraction {
            assert(s.last() == (seq!['.'] + digits).last());
        } else {
            assert(s.last() == whole.last());
        }
    }
    if sign is None {
        if whole.len() > 0 {
            assert(s[0] == whole[0]);
        } else {
            assert(s[0] == '.');
        }
    }
}

/// Whether a number is the fraction `n / d`: its digits times its power of ten, with its sign.
pub open spec fn is_fraction(number: Numeral, n: int, d: int) -> bool {
    &&& d > 0
    &&& number matches Numeral::Finite { negative, digits, exponent }
    &&& n * pow(
        10,
        if exponent < 0 {
            (-exponent) as nat
        } else {
            0
        },
    ) == (if negative {
        -decimal_value(digits)
    } else {
        decimal_value(digits)
    }) * pow(
        10,
        if exponent > 0 {
            exponent as nat
        } else {
            0
        },
    ) * d
}

/// Whether `k` is the pattern of the binary64 number nearest to `n / d`, negated below zero.
pub open spec fn is_nearest(n: int, d: int, k: int) -> bool {
    if n >= 0 {
        rounds_to(n, d, k)
    } else {
        rounds_to(-n, d, -k)
    }
}

proof fn lemma_units_rise(a: int, b: int)
    requires
        0 <= a <= b,
    ensures
        units(a) <= units(b),
        a < b ==> units(a) < units(b),
    decreases b - a,
{
    if a < b {
        lemma_units_rise(a, b - 1);
        lemma_units(b - 1);
        let base = 0x10_0000_0000_0000int;
        let exponent = (b - 1) / base;
        let m = if exponent == 0 {
            (b - 1) % base
        } else {
            base + (b - 1) % base
        };
        let p = pow(
            2,
            if exponent == 0 {
                0
            } else {
                (exponent - 1) as nat
            },
        );
        assert((m + 1) * p == m * p + p) by (nonlinear_arith);
    }
}

proof fn lemma_rounds_somewhere(n: int, d: int, bits: int)
    requires
        0 <= bits <= INFINITE_BITS,
        bits < INFINITE_BITS ==> !above_middle(n, d, bits),
    ensures
        exists|b: int| rounds_to(n, d, b),
    decreases bits,
{
    if bits > 0 && !above_middle(n, d, bits - 1) {
        lemma_rounds_somewhere(n, d, bits - 1);
    } else {
        assert(rounds_to(n, d, bits));
    }
}

/// Above a middle, also for the larger fraction.
proof fn lemma_above_middle_up(n: int, d: int, m: int, e: int, bits: int)
    requires
        d > 0,
        e > 0,
        n * e <= m * d,
        above_middle(n, d, bits),
    ensures
        above_middle(m, e, bits),
{
    let p = pow(2, 1074);
    lemma_pow_positive(2, 1074);
    let middle = units(bits) + units(bits + 1);
    assert((n * e) * p <= (m * d) * p) by (nonlinear_arith)
        requires
            n * e <= m * d,
            p > 0,
    ;
    let x = n * p;
    let y = m * p;
    assert(x * e <= y * d) by (nonlinear_arith)
        requires
            (n * e) * p <= (m * d) * p,
            x == n * p,
            y == m * p,
    ;
    if 2 * x > middle * d {
        assert(2 * y > middle * e) by (nonlinear_arith)
            requires
                2 * x > middle * d,
                x * e <= y * d,
                d > 0,
                e > 0,
        ;
    } else {
        assert(2 * y >= middle * e) by (nonlinear_arith)
            requires
                2 * x == middle * d,
                x * e <= y * d,
                d > 0,
                e > 0,
        ;
    }
}

/// Rounding keeps the order of numbers.
pub proof fn rounding_keeps_order(n: int, d: int, m: int, e: int, j: int, k: int)
    requires
        d > 0,
        e > 0,
        n * e <= m * d,
        is_nearest(n, d, j),
        is_nearest(m, e, k),
    ensures
        j <= k,
{
    if n >= 0 {
        assert(m >= 0) by (nonlinear_arith)
            requires
                n >= 0,
                e > 0,
                d > 0,
                n * e <= m * d,
        ;
        lemma_rounding_rises(n, d, m, e, j, k);
    } else if m < 0 {
        assert((-m) * d <= (-n) * e) by (nonlinear_arith)
            requires
                n * e <= m * d,
        ;
        lemma_rounding_rises(-m, e, -n, d, -k, -j);
    }
}

proof fn lemma_rounding_rises(n: int, d: int, m: int, e: int, j: int, k: int)
    requires
        d > 0,
        e > 0,
        n * e <= m * d,
        rounds_to(n, d, j),
        rounds_to(m, e, k),
    ensures
        j <= k,
{
    if k < j {
        lemma_above_middle_down(n, d, k, j - 1);
        lemma_above_middle_up(n, d, m, e, k);
    }
}

/// No number is nearer to a fraction than the one that it is rounded to.
pub proof fn rounded_number_is_nearest(n: int, d: int, bits: int, other: int)
    requires
        0 <= n,
        d > 0,
        rounds_to(n, d, bits),
        bits < INFINITE_BITS,
        0 <= other,
    ensures
        vstd::math::abs(n * pow(2, 1074) - units(bits) * d) <= vstd::math::abs(
            n * pow(2, 1074) - units(other) * d,
        ),
{
    let x = n * pow(2, 1074);
    let u = units(bits);
    let v = units(other);
    if other > bits {
        let w = units(bits + 1);
        lemma_units_rise(bits, bits + 1);
        lemma_units_rise(bits + 1, other);
        assert(u * d <= w * d <= v * d && (u + w) * d == u * d + w * d) by (nonlinear_arith)
            requires
                u <= w <= v,
                d > 0,
        ;
    } else if other < bits {
        let w = units(bits - 1);
        lemma_units_rise(bits - 1, bits);
        lemma_units_rise(other, bits - 1);
        assert(v * d <= w * d <= u * d && (w + u) * d == w * d + u * d) by (nonlinear_arith)
            requires
                v <= w <= u,
                d > 0,
        ;
    }
}

proof fn lemma_digits_of_numeral(s: Seq<char>)
    ensures
        numeral(s) matches Some(Numeral::Finite { digits, .. }) ==> all_digits(digits),
{
    let body = if s.len() > 0 && (s[0] == '-' || s[0] == '+') {
        s.skip(1)
    } else {
        s
    };
    if decimal_parts(body) is Some {
        let parts = lemma_written_out(body);
        lemma_decimal_read(parts.0, parts.1, parts.2);
    }
}

/// A finite number stands where the binary64 number nearest to it does.
pub proof fn finite_numbers_stand_at_the_nearest(s: Seq<char>, n: int, d: int)
    requires
        numeral(s) matches Some(number) && is_fraction(number, n, d),
    ensures
        place(numeral(s)->0) matches Some(k) && is_nearest(n, d, k),
{
    let number = numeral(s)->0;
    lemma_digits_of_numeral(s);
    let negative = number->Finite_negative;
    let digits = number->digits;
    let exponent = number->exponent;
    let top = numerator(digits, exponent);
    let bottom = denominator(exponent);
    lemma_denominator(exponent);
    assert forall|i: int| 0 <= i < digits.len() implies is_digit(#[trigger] digits[i]) by {}
    lemma_decimal_bounds(digits);
    let v = decimal_value(digits);
    let up: nat = if exponent > 0 {
        exponent as nat
    } else {
        0
    };
    let down: nat = if exponent < 0 {
        (-exponent) as nat
    } else {
        0
    };
    lemma_pow_positive(10, up);
    lemma_pow_positive(10, down);
    vstd::arithmetic::power::lemma_pow0(10);
    assert(top == v * pow(10, up)) by {
        assert(v * 1 == v);
    }
    assert(bottom == pow(10, down));
    let a = pow(10, up);
    let b = pow(10, down);
    assert(n * b == (if negative {
        -v
    } else {
        v
    }) * a * d);
    assert(top >= 0) by (nonlinear_arith)
        requires
            top == v * a,
            v >= 0,
            a > 0,
    ;
    lemma_rounds_somewhere(top, bottom, INFINITE_BITS as int);
    let bits = nearest_bits(digits, exponent);
    assert(rounds_to(top, bottom, bits));
    if negative {
        assert((-n) * b == top * d) by (nonlinear_arith)
            requires
                n * b == (-v) * a * d,
                top == v * a,
        ;
        assert(n <= 0) by (nonlinear_arith)
            requires
                (-n) * b == top * d,
                top >= 0,
                d > 0,
                b > 0,
        ;
        lemma_same_fraction(top, b, -n, d, bits);
        if n == 0 {
            lemma_zero_rounds_to_zero(d, bits);
        }
    } else {
        assert(n * b == top * d) by (nonlinear_arith)
            requires
                n * b == v * a * d,
                top == v * a,
        ;
        assert(n >= 0) by (nonlinear_arith)
            requires
                n * b == top * d,
                top >= 0,
                d > 0,
                b > 0,
        ;
        lemma_same_fraction(top, b, n, d, bits);
    }
}

proof fn lemma_same_fraction(n: int, d: int, m: int, e: int, bits: int)
    requires
        d > 0,
        e > 0,
        m * d == n * e,
        rounds_to(n, d, bits),
    ensures
        rounds_to(m, e, bits),
{
    if bits > 0 {
        lemma_above_middle_up(n, d, m, e, bits - 1);
    }
    if bits < INFINITE_BITS && above_middle(m, e, bits) {
        lemma_above_middle_up(m, e, n, d, bits);
    }
}

proof fn lemma_zero_rounds_to_zero(d: int, bits: int)
    requires
        d > 0,
        rounds_to(0, d, bits),
    ensures
        bits == 0,
{
    let p = pow(2, 1074);
    assert(0 * p == 0);
    assert(!above_middle(0, d, 0)) by {
        lemma_units(0);
        assert(units(0) == 0 && units(1) == 1);
        assert((units(0) + units(1)) * d > 0) by (nonlinear_arith)
            requires
                units(0) == 0,
                units(1) == 1,
                d > 0,
        ;
    }
    if bits > 0 {
        lemma_above_middle_down(0, d, 0, bits - 1);
    }
}

/// The pattern of a whole number.
proof fn lemma_whole_is_exact(n: int) -> (bits: int)
    requires
        0 <= n <= 0x20_0000_0000_0000,
    ensures
        rounds_to(n, 1, bits),
        units(bits) == n * pow(2, 1074),
{
    if n == 0 {
        assert(units(0) == 0);
        lemma_rounds_exactly(0, 0);
        0
    } else {
        let k = lemma_top_bit(n);
        let low = pow(2, k);
        let base = 0x10_0000_0000_0000int;
        vstd::arithmetic::power2::lemma2_to64();
        vstd::arithmetic::power2::lemma2_to64_rest();
        vstd::arithmetic::power2::lemma_pow2(52);
        vstd::arithmetic::power2::lemma_pow2(53);
        assert(pow(2, 52) == base);
        assert(k <= 53) by {
            if k > 53 {
                lemma_pow_increases(2, 54, k);
                lemma_pow_adds(2, 53, 1);
                vstd::arithmetic::power::lemma_pow1(2);
                assert(false);
            }
        }
        // A number of 54 bits is the power itself.
        if k == 53 {
            assert(n == 2 * base);
            let bits = (53 + 1023) * base;
            assert(bits / base == 1076 && bits % base == 0);
            lemma_pow_adds(2, 52, 1075);
            lemma_pow_adds(2, 53, 1074);
            assert(units(bits) == base * pow(2, 1075));
            assert(n == pow(2, 53));
            assert(units(bits) == n * pow(2, 1074));
            lemma_rounds_exactly(n, bits);
            bits
        } else {
            let shift = (52 - k) as nat;
            let q = pow(2, shift);
            lemma_pow_positive(2, shift);
            lemma_pow_adds(2, k, shift);
            lemma_pow_adds(2, k + 1, shift);
            lemma_pow_adds(2, 52, 1);
            vstd::arithmetic::power::lemma_pow1(2);
            let m = n * q;
            assert(base <= m < 2 * base) by (nonlinear_arith)
                requires
                    low <= n < pow(2, k + 1),
                    low * q == base,
                    pow(2, k + 1) * q == 2 * base,
                    m == n * q,
                    q > 0,
            ;
            let bits = (k + 1023) * base + (m - base);
            assert(bits / base == k + 1023 && bits % base == m - base);
            assert(units(bits) == m * pow(2, (k + 1022) as nat));
            lemma_pow_adds(2, shift, (k + 1022) as nat);
            let r = pow(2, (k + 1022) as nat);
            assert(m * r == n * (q * r)) by (nonlinear_arith)
                requires
                    m == n * q,
            ;
            lemma_rounds_exactly(n, bits);
            bits
        }
    }
}

/// The place of the highest bit of a number.
proof fn lemma_top_bit(n: int) -> (k: nat)
    requires
        n > 0,
    ensures
        pow(2, k) <= n < pow(2, k + 1),
    decreases n,
{
    vstd::arithmetic::power::lemma_pow0(2);
    vstd::arithmetic::power::lemma_pow1(2);
    if n == 1 {
        0
    } else {
        let k = lemma_top_bit(n / 2);
        lemma_pow_adds(2, k, 1);
        lemma_pow_adds(2, k + 1, 1);
        k + 1
    }
}

proof fn lemma_rounds_exactly(n: int, bits: int)
    requires
        0 <= bits < INFINITE_BITS,
        units(bits) == n * pow(2, 1074),
    ensures
        rounds_to(n, 1, bits),
{
    lemma_units_rise(bits, bits + 1);
    assert((units(bits) + units(bits + 1)) * 1 == units(bits) + units(bits + 1));
    if bits > 0 {
        lemma_units_rise(bits - 1, bits);
        assert((units(bits - 1) + units(bits)) * 1 == units(bits - 1) + units(bits));
    }
}

/// Whole numbers of up to sixteen places, to be exact up to two to the power of 53, are told apart:
/// of two that differ the smaller one stands before the larger one.
pub proof fn whole_numbers_stand_apart(m: int, n: int, j: int, k: int)
    requires
        -0x20_0000_0000_0000 <= m < n <= 0x20_0000_0000_0000,
        is_nearest(m, 1, j),
        is_nearest(n, 1, k),
    ensures
        j < k,
{
    rounding_keeps_order(m, 1, n, 1, j, k);
    let a = lemma_whole_is_exact(if m >= 0 {
        m
    } else {
        -m
    });
    let b = lemma_whole_is_exact(if n >= 0 {
        n
    } else {
        -n
    });
    if m >= 0 {
        nearest_is_unique(m, 1, a, j);
    } else {
        nearest_is_unique(-m, 1, a, -j);
    }
    if n >= 0 {
        nearest_is_unique(n, 1, b, k);
    } else {
        nearest_is_unique(-n, 1, b, -k);
    }
    let p = pow(2, 1074);
    lemma_pow_positive(2, 1074);
    if j == k {
        if (m >= 0) == (n >= 0) {
            assert(m * p != n * p && (-m) * p != (-n) * p) by (nonlinear_arith)
                requires
                    m < n,
                    p > 0,
            ;
        } else {
            // One pattern and its negation: both are zero.
            assert(j == 0);
            assert(units(0) == 0);
            assert((-m) * p > 0) by (nonlinear_arith)
                requires
                    m < 0,
                    p > 0,
            ;
        }
        assert(false);
    }
}

/// A sign or none and digits are a whole number exactly where the number that they write is between
/// the smallest and the largest `i64`.
pub proof fn whole_numbers_have_digits_only(sign: Option<bool>, digits: Seq<char>)
    requires
        all_digits(digits),
        digits.len() > 0,
    ensures
        is_whole(sign_text(sign) + digits) <==> {
            let value = if sign == Some(true) {
                -decimal_value(digits)
            } else {
                decimal_value(digits)
            };
            i64::MIN <= value <= i64::MAX
        },
{
    let s = sign_text(sign) + digits;
    if sign is Some {
        assert(s.skip(1) =~= digits);
    } else {
        assert(s =~= digits);
        assert('0' <= digits[0] <= '9');
    }
    lemma_digit_run(digits, Seq::empty());
    assert(digits + Seq::<char>::empty() =~= digits);
    assert forall|i: int| 0 <= i < digits.len() implies is_digit(#[trigger] digits[i]) by {}
    lemma_decimal_bounds(digits);
}

/// A whole number holds nothing but a sign or none and digits, and is a number.
pub proof fn whole_numbers_are_numbers(s: Seq<char>)
    requires
        is_whole(s),
    ensures
        exists|sign: Option<bool>, digits: Seq<char>|
            s == #[trigger] (sign_text(sign) + digits) && all_digits(digits) && digits.len() > 0,
        numeral(s) matches Some(Numeral::Finite { exponent, .. }) && exponent == 0,
{
    let sign: Option<bool> = if s[0] == '-' {
        Some(true)
    } else if s[0] == '+' {
        Some(false)
    } else {
        None
    };
    let digits = if sign is Some {
        s.skip(1)
    } else {
        s
    };
    lemma_run(digits);
    assert(s =~= sign_text(sign) + digits);
    assert(s =~= written_out(sign, digits, None, None));
    written_numbers_are_read(sign, digits, None, None);
}

/// A fraction in the middle between two numbers is rounded to the one whose pattern is even.
pub proof fn ties_go_to_the_even_number(n: int, d: int, bits: int)
    requires
        rounds_to(n, d, bits),
        bits < INFINITE_BITS,
    ensures
        2 * (n * pow(2, 1074)) == (units(bits) + units(bits + 1)) * d ==> bits % 2 == 0,
        bits > 0 && 2 * (n * pow(2, 1074)) == (units(bits - 1) + units(bits)) * d ==> bits % 2 == 0,
{
}

} // verus!
