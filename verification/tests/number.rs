use tableizer::number::{is_integer, is_number, number_place};
use tableizer::text::{push_decimal, push_hex, trim};

fn chars(text: &str) -> Vec<char> {
    text.chars().collect()
}

/// The place of a double among all of them, as an integer.
fn place(value: f64) -> i64 {
    let bits = (value.abs()).to_bits() as i64;
    if value < 0.0 {
        -bits
    } else {
        bits
    }
}

#[test]
fn numerals_are_those_of_doubles() {
    for text in [
        "0", "-0", "+1", "1.", ".5", "1e5", "1E-5", "1e+5", "inf", "-Infinity", "NAN", "1e400",
        "-1e-400", "123456789012345678901234567890", "0.1", "2.2250738585072011e-308",
        "4.9406564584124654e-324", "2.4703282292062327e-324", "2.4703282292062328e-324",
        "1.7976931348623158e308", "9007199254740993", "9007199254740995", "1e22", "1e23",
        "8.5e-17", "", ".", "e", "1e", "1e+", "+", "-", "1a", "0x1", "1 ", " 1", "1_0", "infx",
        "nan1", "--1", "+-1", "1e5e5", "1.2.3", "١",
    ] {
        let parsed = text.parse::<f64>();
        let ours = number_place(&chars(text));
        assert_eq!(is_number(&chars(text)), parsed.is_ok(), "{text}");
        match parsed {
            Ok(value) if value.is_nan() => assert_eq!(ours, Some(None), "{text}"),
            Ok(value) => assert_eq!(ours, Some(Some(place(value))), "{text}"),
            Err(_) => assert_eq!(ours, None, "{text}"),
        }
    }
}

#[test]
fn many_numerals_round_as_doubles_do() {
    let mut state: u64 = 0x2545_f491_4f6c_dd1d;
    for _ in 0..400 {
        state ^= state << 13;
        state ^= state >> 7;
        state ^= state << 17;
        let exponent = (state % 700) as i64 - 350;
        let text = format!("{}.{}e{}", state >> 40, state & 0xffff_ffff, exponent);
        let value: f64 = text.parse().unwrap();
        assert_eq!(number_place(&chars(&text)), Some(Some(place(value))), "{text}");
    }
}

#[test]
fn integers_are_those_of_64_bits() {
    for text in [
        "0", "-5", "+7", "9223372036854775807", "9223372036854775808", "-9223372036854775808",
        "-9223372036854775809", "00012", "1.0", "", "+", "-", "1e3", "abc",
    ] {
        assert_eq!(is_integer(&chars(text)), text.parse::<i64>().is_ok(), "{text}");
    }
}

#[test]
fn white_space_is_trimmed_as_text_is() {
    for text in ["", " ", "a", " a ", "\u{a0}a\u{3000}", "\t a b\n", "\u{200b}a", "\u{85}x\u{1680}"] {
        let trimmed: String = trim(&chars(text)).into_iter().collect();
        assert_eq!(trimmed, text.trim(), "{text:?}");
    }
    for c in (0u32..0x3100).filter_map(char::from_u32) {
        assert_eq!(trim(&[c]).is_empty(), c.is_whitespace(), "{c:?}");
    }
}

#[test]
fn numbers_are_written_in_digits() {
    let mut text = String::from("n=");
    push_decimal(&mut text, 0);
    push_decimal(&mut text, u64::MAX);
    push_hex(&mut text, 0xab, 4);
    assert_eq!(text, "n=01844674407370955161500ab");
}
