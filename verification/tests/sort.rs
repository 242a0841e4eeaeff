use std::cmp::Ordering;
use tableizer::sort::{compare_keys, sorted_positions, Key};
use tableizer::Direction;

#[test]
fn numeric_keys_sort_numerically_not_lexically() {
    // Lexically "10" < "9"; numerically 10 > 9.
    assert_eq!(compare_keys(b"10", b"9", Direction::Ascending), Ordering::Greater);
}

#[test]
fn text_keys_sort_lexically() {
    assert_eq!(compare_keys(b"apple", b"banana", Direction::Ascending), Ordering::Less);
}

#[test]
fn descending_reverses_the_order() {
    assert_eq!(compare_keys(b"a", b"b", Direction::Descending), Ordering::Greater);
}

#[test]
fn numbers_compare_as_doubles_do() {
    for (a, b) in [
        ("1e3", "999"),
        ("-0", "0"),
        ("0.1", "0.10000000000000001"),
        ("inf", "1e308"),
        ("1e400", "inf"),
        ("-1e400", "-inf"),
        ("9007199254740993", "9007199254740992"),
        ("4.9e-324", "0"),
        ("2e-324", "0"),
        ("1.7976931348623157e308", "1.7976931348623159e308"),
        (" 12 ", "12"),
        ("+5", "5"),
        (".5", "0.5"),
        ("5.", "5"),
        ("1E2", "100"),
        ("infinity", "INF"),
    ] {
        let x: f64 = a.trim().parse().unwrap();
        let y: f64 = b.trim().parse().unwrap();
        assert_eq!(
            compare_keys(a.as_bytes(), b.as_bytes(), Direction::Ascending),
            x.partial_cmp(&y).unwrap(),
            "{a} and {b}"
        );
    }
}

#[test]
fn what_is_no_number_compares_as_bytes() {
    for text in ["", "1_000", "0x10", "1e", "e5", ".", "+", "--1", "1 2", "1e5.5", "infin"] {
        assert!(text.parse::<f64>().is_err(), "{text}");
        assert_eq!(
            compare_keys(text.as_bytes(), b"5", Direction::Ascending),
            text.as_bytes().cmp(b"5"),
            "{text}"
        );
    }
}

#[test]
fn the_undefined_number_is_equal_to_every_number() {
    assert_eq!(compare_keys(b"nan", b"5", Direction::Ascending), Ordering::Equal);
    assert_eq!(compare_keys(b"NaN", b"-5", Direction::Descending), Ordering::Equal);
}

#[test]
fn equal_keys_keep_their_order_in_both_directions() {
    let keys: Vec<Key> = [&b"2"[..], b"1", b"2.0", b"1.0"]
        .iter()
        .map(|k| Key::new(k.to_vec()))
        .collect();
    assert_eq!(sorted_positions(&keys, Direction::Ascending), vec![1, 3, 0, 2]);
    assert_eq!(sorted_positions(&keys, Direction::Descending), vec![0, 2, 1, 3]);
}

#[test]
fn the_default_direction_is_ascending() {
    assert_eq!(Direction::default(), Direction::Ascending);
}
