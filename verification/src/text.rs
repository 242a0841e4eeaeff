//! Text as sequences of characters: decoding, trimming, and writing numbers.
use vstd::prelude::*;

verus! {

/// `std::string::String::push` appends one character.
pub assume_specification[ String::push ](text: &mut String, c: char)
    ensures
        final(text)@ == old(text)@.push(c),
;

/// `std::str::from_utf8`: the text that bytes encode, if they are well-formed UTF-8.
#[verifier::external_body]
pub(crate) fn utf8_text(bytes: &[u8]) -> (text: Option<&str>)
    ensures
        text is Some <==> vstd::utf8::valid_utf8(bytes@),
        text matches Some(t) ==> t@ == vstd::utf8::decode_utf8(bytes@),
{
    std::str::from_utf8(bytes).ok()
}

/// The text of bytes, in which whatever is not UTF-8 is replaced.
pub uninterp spec fn lossy_text(bytes: Seq<u8>) -> Seq<char>;

/// `std::string::String::from_utf8_lossy`: the text that bytes encode; parts that are not UTF-8 are
/// replaced.
#[verifier::external_body]
pub(crate) fn utf8_lossy(bytes: &[u8]) -> (text: String)
    ensures
        text@ == lossy_text(bytes@),
        vstd::utf8::valid_utf8(bytes@) ==> text@ == vstd::utf8::decode_utf8(bytes@),
{
    String::from_utf8_lossy(bytes).into_owned()
}

/// The characters of a text.
pub fn chars_of(text: &str) -> (chars: Vec<char>)
    ensures
        chars@ == text@,
{
    let mut chars: Vec<char> = Vec::new();
    for c in it: text.chars()
        invariant
            it.seq() == text@,
            chars@ == it.seq().take(it.index()),
    {
        chars.push(c);
    }
    chars
}

/// The text made of the given characters.
pub fn string_of(chars: &[char]) -> (text: String)
    ensures
        text@ == chars@,
{
    let mut text = String::new();
    for i in 0..chars.len()
        invariant
            text@ == chars@.take(i as int),
    {
        text.push(chars[i]);
        assert(chars@.take(i + 1) =~= chars@.take(i as int).push(chars@[i as int]));
    }
    assert(chars@.take(chars@.len() as int) =~= chars@);
    text
}

/// Appends a text.
pub fn append(out: &mut String, text: &str)
    ensures
        final(out)@ == old(out)@ + text@,
{
    vstd::string::StringExecFns::append(out, text);
}

/// Whether a character has the Unicode property `White_Space`.
pub open spec fn is_white(c: char) -> bool {
    ||| 0x9 <= c as u32 <= 0xd
    ||| c as u32 == 0x20
    ||| c as u32 == 0x85
    ||| c as u32 == 0xa0
    ||| c as u32 == 0x1680
    ||| 0x2000 <= c as u32 <= 0x200a
    ||| c as u32 == 0x2028
    ||| c as u32 == 0x2029
    ||| c as u32 == 0x202f
    ||| c as u32 == 0x205f
    ||| c as u32 == 0x3000
}

/// Whether a character is white space.
pub fn white(c: char) -> (r: bool)
    ensures
        r == is_white(c),
{
    let u: u32 = c as u32;
    (0x9 <= u && u <= 0xd) || u == 0x20 || u == 0x85 || u == 0xa0 || u == 0x1680 || (0x2000 <= u
        && u <= 0x200a) || u == 0x2028 || u == 0x2029 || u == 0x202f || u == 0x205f || u == 0x3000
}

/// A text without the white space that it starts with.
pub open spec fn trim_front(s: Seq<char>) -> Seq<char>
    decreases s.len(),
{
    if s.len() > 0 && is_white(s[0]) {
        trim_front(s.drop_first())
    } else {
        s
    }
}

/// A text without the white space that it ends with.
pub open spec fn trim_back(s: Seq<char>) -> Seq<char>
    decreases s.len(),
{
    if s.len() > 0 && is_white(s.last()) {
        trim_back(s.drop_last())
    } else {
        s
    }
}

/// A text without the white space around it.
pub open spec fn trimmed(s: Seq<char>) -> Seq<char> {
    trim_back(trim_front(s))
}

/// The text without the white space around it.
pub fn trim(chars: &[char]) -> (r: Vec<char>)
    ensures
        r@ == trimmed(chars@),
{
    let mut lo: usize = 0;
    let n: usize = chars.len();
    assert(chars@.skip(0) =~= chars@);
    while lo < n && white(chars[lo])
        invariant
            lo <= n == chars.len(),
            trim_front(chars@) == trim_front(chars@.skip(lo as int)),
        decreases n - lo,
    {
        assert(chars@.skip(lo as int).drop_first() =~= chars@.skip(lo + 1));
        lo += 1;
    }
    let ghost front = chars@.skip(lo as int);
    assert(trim_front(chars@) == front);
    let mut hi: usize = n;
    assert(front =~= chars@.subrange(lo as int, hi as int));
    while hi > lo && white(chars[hi - 1])
        invariant
            lo <= hi <= n == chars.len(),
            trim_back(front) == trim_back(chars@.subrange(lo as int, hi as int)),
        decreases hi,
    {
        assert(chars@.subrange(lo as int, hi as int).drop_last() =~= chars@.subrange(
            lo as int,
            hi - 1,
        ));
        hi -= 1;
    }
    vstd::slice::slice_to_vec(vstd::slice::slice_subrange(chars, lo, hi))
}

/// The text of a field without the white space around it; nothing where the field is not UTF-8.
pub open spec fn field_text(bytes: Seq<u8>) -> Option<Seq<char>> {
    if vstd::utf8::valid_utf8(bytes) {
        Some(trimmed(vstd::utf8::decode_utf8(bytes)))
    } else {
        None
    }
}

/// The trimmed text of a field; `None` where the field is not UTF-8.
pub fn trimmed_field(bytes: &[u8]) -> (r: Option<Vec<char>>)
    ensures
        r matches Some(t) ==> field_text(bytes@) == Some(t@),
        r is None ==> field_text(bytes@) is None,
{
    match utf8_text(bytes) {
        Some(text) => {
            let chars = chars_of(text);
            Some(trim(chars.as_slice()))
        },
        None => None,
    }
}

/// Whether a character is one of the ASCII digits.
pub open spec fn is_digit(c: char) -> bool {
    '0' <= c <= '9'
}

/// The value of an ASCII digit.
pub open spec fn digit_value(c: char) -> int {
    c as int - '0' as int
}

/// The number that a row of decimal digits writes.
pub open spec fn decimal_value(s: Seq<char>) -> int
    decreases s.len(),
{
    if s.len() == 0 {
        0
    } else {
        10 * decimal_value(s.drop_last()) + digit_value(s.last())
    }
}

/// An ASCII capital letter in lower case, any other character as it is.
pub open spec fn lower(c: char) -> char {
    if 'A' <= c <= 'Z' {
        (c as u32 + 32) as char
    } else {
        c
    }
}

/// Whether two texts are equal up to the case of ASCII letters.
pub open spec fn same_letters(a: Seq<char>, b: Seq<char>) -> bool {
    a.len() == b.len() && forall|i: int| 0 <= i < a.len() ==> #[trigger] lower(a[i]) == lower(b[i])
}

/// The lower-case form of a character, for ASCII letters only.
pub fn to_lower(c: char) -> (r: char)
    ensures
        r == lower(c),
{
    if 'A' <= c && c <= 'Z' {
        let u: u8 = c as u8;
        (u + 32) as char
    } else {
        c
    }
}

/// Whether two texts are equal up to the case of ASCII letters.
pub fn equal_ignoring_case(a: &[char], b: &[char]) -> (r: bool)
    ensures
        r == same_letters(a@, b@),
{
    if a.len() != b.len() {
        return false;
    }
    for i in 0..a.len()
        invariant
            a.len() == b.len(),
            forall|j: int| 0 <= j < i ==> #[trigger] lower(a@[j]) == lower(b@[j]),
    {
        if to_lower(a[i]) != to_lower(b[i]) {
            assert(lower(a@[i as int]) != lower(b@[i as int]));
            return false;
        }
    }
    true
}

/// The hexadecimal digit for a value under sixteen.
pub open spec fn hex_digit(value: int) -> char {
    if value < 10 {
        (value + '0' as int) as char
    } else {
        (value - 10 + 'a' as int) as char
    }
}

/// The last `width` hexadecimal digits of a number.
pub open spec fn hex_text(n: int, width: nat) -> Seq<char>
    decreases width,
{
    if width == 0 {
        Seq::empty()
    } else {
        hex_text(n / 16, (width - 1) as nat).push(hex_digit(n % 16))
    }
}

/// Appends the last `width` hexadecimal digits of a number.
pub fn push_hex(out: &mut String, n: u64, width: u32)
    ensures
        final(out)@ == old(out)@ + hex_text(n as int, width as nat),
    decreases width,
{
    if width > 0 {
        push_hex(out, n / 16, width - 1);
        let value: u8 = (n % 16) as u8;
        let c: char = if value < 10 {
            (value + 0x30) as char
        } else {
            (value - 10 + 0x61) as char
        };
        assert(c == hex_digit(n as int % 16));
        out.push(c);
        assert(out@ =~= old(out)@ + hex_text(n as int, width as nat));
    } else {
        assert(out@ =~= old(out)@ + hex_text(n as int, width as nat));
    }
}

/// A number in decimal digits.
pub open spec fn decimal_text(n: int) -> Seq<char>
    decreases n,
{
    if n < 10 {
        seq![(n + '0' as int) as char]
    } else {
        decimal_text(n / 10).push((n % 10 + '0' as int) as char)
    }
}

/// Appends a number in decimal digits.
pub fn push_decimal(out: &mut String, n: u64)
    ensures
        final(out)@ == old(out)@ + decimal_text(n as int),
    decreases n,
{
    if n >= 10 {
        push_decimal(out, n / 10);
    }
    let digit: u8 = (n % 10) as u8;
    out.push((digit + 0x30) as char);
    assert(out@ =~= old(out)@ + decimal_text(n as int));
}

/// A decimal text holds the number it was made of.
pub proof fn decimal_text_reads_back(n: int)
    requires
        0 <= n,
    ensures
        decimal_value(decimal_text(n)) == n,
        decimal_text(n).len() > 0,
        forall|i: int| 0 <= i < decimal_text(n).len() ==> is_digit(#[trigger] decimal_text(n)[i]),
    decreases n,
{
    let s = decimal_text(n);
    if n >= 10 {
        decimal_text_reads_back(n / 10);
        assert(s.drop_last() =~= decimal_text(n / 10));
        assert forall|i: int| 0 <= i < s.len() implies is_digit(#[trigger] s[i]) by {
            if i < s.len() - 1 {
                assert(s[i] == decimal_text(n / 10)[i]);
            }
        }
    } else {
        assert(s.drop_last() =~= Seq::empty());
        assert(decimal_value(Seq::<char>::empty()) == 0);
    }
}

/// Whether two rows of bytes are equal.
pub fn same_bytes(a: &[u8], b: &[u8]) -> (r: bool)
    ensures
        r == (a@ == b@),
{
    if a.len() != b.len() {
        return false;
    }
    for i in 0..a.len()
        invariant
            a.len() == b.len(),
            forall|j: int| 0 <= j < i ==> a@[j] == b@[j],
    {
        if a[i] != b[i] {
            return false;
        }
    }
    assert(a@ =~= b@);
    true
}

/// White space is what Unicode calls so: the tab and the line ends of ASCII, the space, and the
/// spaces and separators beyond.
pub proof fn white_space_is_that_of_unicode(c: char)
    ensures
        is_white(c) <==> seq![
            0x09u32,
            0x0a,
            0x0b,
            0x0c,
            0x0d,
            0x20,
            0x85,
            0xa0,
            0x1680,
            0x2000,
            0x2001,
            0x2002,
            0x2003,
            0x2004,
            0x2005,
            0x2006,
            0x2007,
            0x2008,
            0x2009,
            0x200a,
            0x2028,
            0x2029,
            0x202f,
            0x205f,
            0x3000,
        ].contains(c as u32),
{
    let all = seq![
        0x09u32,
        0x0a,
        0x0b,
        0x0c,
        0x0d,
        0x20,
        0x85,
        0xa0,
        0x1680,
        0x2000,
        0x2001,
        0x2002,
        0x2003,
        0x2004,
        0x2005,
        0x2006,
        0x2007,
        0x2008,
        0x2009,
        0x200a,
        0x2028,
        0x2029,
        0x202f,
        0x205f,
        0x3000,
    ];
    if is_white(c) {
        let u = c as int;
        let k: int = if u <= 0xd {
            u - 9
        } else if u == 0x20 {
            5
        } else if u == 0x85 {
            6
        } else if u == 0xa0 {
            7
        } else if u == 0x1680 {
            8
        } else if u <= 0x200a {
            u - 0x2000 + 9
        } else if u == 0x2028 {
            20
        } else if u == 0x2029 {
            21
        } else if u == 0x202f {
            22
        } else if u == 0x205f {
            23
        } else {
            24
        };
        assert(all[k] == c as u32);
    }
}

proof fn lemma_trim_front(front: Seq<char>, s: Seq<char>)
    requires
        forall|i: int| 0 <= i < front.len() ==> is_white(#[trigger] front[i]),
    ensures
        trim_front(front + s) == trim_front(s),
    decreases front.len(),
{
    let all = front + s;
    if front.len() == 0 {
        assert(all =~= s);
    } else {
        assert(all[0] == front[0]);
        assert(all.drop_first() =~= front.drop_first() + s);
        assert forall|i: int| 0 <= i < front.drop_first().len() implies is_white(
            #[trigger] front.drop_first()[i],
        ) by {
            assert(front.drop_first()[i] == front[i + 1]);
        }
        lemma_trim_front(front.drop_first(), s);
    }
}

proof fn lemma_trim_back(s: Seq<char>, back: Seq<char>)
    requires
        forall|i: int| 0 <= i < back.len() ==> is_white(#[trigger] back[i]),
    ensures
        trim_back(s + back) == trim_back(s),
    decreases back.len(),
{
    let all = s + back;
    if back.len() == 0 {
        assert(all =~= s);
    } else {
        assert(all.last() == back.last());
        assert(all.drop_last() =~= s + back.drop_last());
        assert forall|i: int| 0 <= i < back.drop_last().len() implies is_white(
            #[trigger] back.drop_last()[i],
        ) by {
            assert(back.drop_last()[i] == back[i]);
        }
        lemma_trim_back(s, back.drop_last());
    }
}

/// Of a field, the white space before and behind the text is taken off, and nothing else.
pub proof fn white_space_around_is_taken_off(front: Seq<char>, text: Seq<char>, back: Seq<char>)
    requires
        forall|i: int| 0 <= i < front.len() ==> is_white(#[trigger] front[i]),
        forall|i: int| 0 <= i < back.len() ==> is_white(#[trigger] back[i]),
        text.len() > 0 ==> !is_white(text[0]) && !is_white(text.last()),
    ensures
        trimmed(front + text + back) == text,
        field_text(vstd::utf8::encode_utf8(front + text + back)) == Some(text),
{
    let all = front + text + back;
    assert(all =~= front + (text + back));
    lemma_trim_front(front, text + back);
    if text.len() > 0 {
        assert((text + back)[0] == text[0]);
        lemma_trim_back(text, back);
    } else {
        assert(text + back =~= back + Seq::<char>::empty());
        lemma_trim_front(back, Seq::empty());
        assert(trim_front(Seq::<char>::empty()) == Seq::<char>::empty());
        assert(trim_back(Seq::<char>::empty()) == Seq::<char>::empty());
        assert(text =~= Seq::empty());
    }
    vstd::utf8::encode_utf8_valid_utf8(all);
    vstd::utf8::encode_utf8_decode_utf8(all);
}

/// A field that is not UTF-8 has no text.
pub proof fn malformed_fields_have_no_text(field: Seq<u8>)
    ensures
        field_text(field) is Some <==> vstd::utf8::valid_utf8(field),
{
}

/// The digits of ASCII count from zero to nine, and each place of a row of digits counts ten times
/// the next one.
pub proof fn places_count_tenfold(s: Seq<char>, c: char)
    ensures
        decimal_value(Seq::<char>::empty()) == 0,
        decimal_value(s.push(c)) == 10 * decimal_value(s) + (c as int - 0x30),
        is_digit(c) <==> 0x30 <= c as int <= 0x39,
{
    assert(s.push(c).drop_last() =~= s);
}

/// The digits of two numbers are the same only if the numbers are, up to what the digits leave out.
pub proof fn hex_texts_tell_numbers_apart(a: int, b: int, width: nat)
    requires
        0 <= a < vstd::arithmetic::power::pow(16, width),
        0 <= b < vstd::arithmetic::power::pow(16, width),
        hex_text(a, width) == hex_text(b, width),
    ensures
        a == b,
        hex_text(a, width).len() == width,
    decreases width,
{
    reveal(vstd::arithmetic::power::pow);
    if width > 0 {
        let less = (width - 1) as nat;
        let s = hex_text(a, width);
        let t = hex_text(b, width);
        assert(s.drop_last() =~= hex_text(a / 16, less));
        assert(t.drop_last() =~= hex_text(b / 16, less));
        assert(s.last() == hex_digit(a % 16));
        assert(t.last() == hex_digit(b % 16));
        assert(vstd::arithmetic::power::pow(16, width) == 16 * vstd::arithmetic::power::pow(16, less));
        hex_texts_tell_numbers_apart(a / 16, b / 16, less);
        assert(a % 16 == b % 16);
    }
}

/// Letters are told apart without regard to case for ASCII alone: a capital stands for the letter 32
/// places behind it, and every other character for itself.
pub proof fn case_is_that_of_ascii(c: char, d: char)
    ensures
        0x41 <= c as int <= 0x5a ==> lower(c) as int == c as int + 32,
        !(0x41 <= c as int <= 0x5a) ==> lower(c) == c,
        same_letters(seq![c], seq![d]) <==> lower(c) == lower(d),
{
    if same_letters(seq![c], seq![d]) {
        assert(lower(seq![c][0]) == lower(seq![d][0]));
    }
}

/// A number in decimal digits has no zeros before it.
pub proof fn decimal_texts_start_with_a_digit_that_counts(n: int)
    requires
        0 < n,
    ensures
        decimal_text(n).len() > 0,
        '1' <= decimal_text(n)[0] <= '9',
        decimal_text(0) == seq!['0'],
    decreases n,
{
    assert(decimal_text(0) =~= seq!['0']);
    if n >= 10 {
        decimal_texts_start_with_a_digit_that_counts(n / 10);
        assert(decimal_text(n)[0] == decimal_text(n / 10)[0]);
    }
}

} // verus!
