use tableizer::search::{verdict, Matcher};
use tableizer::{Error, FilterSpec};

fn record(fields: &[&str]) -> csv::ByteRecord {
    let mut record = csv::ByteRecord::new();
    for field in fields {
        record.push_field(field.as_bytes());
    }
    record
}

fn matcher(query: &str, regex: bool, invert: bool) -> Matcher {
    Matcher::compile(&FilterSpec { query: query.into(), regex, invert, case_sensitive: false })
        .ok()
        .expect("compiles")
}

#[test]
fn literal_match_is_a_case_insensitive_substring() {
    let m = matcher("err", false, false);
    assert!(m.matches(&record(&["INFO", "Error: x"])));
    assert!(!m.matches(&record(&["INFO", "ok"])));
}

#[test]
fn regex_match() {
    let m = matcher(r"^\d+$", true, false);
    assert!(m.matches(&record(&["abc", "123"])));
    assert!(!m.matches(&record(&["abc", "12x"])));
}

#[test]
fn invert_negates_the_match() {
    let m = matcher("x", false, true);
    assert!(!m.matches(&record(&["x"]))); // contains x, inverted: false
    assert!(m.matches(&record(&["y"]))); // no x, inverted: true
}

#[test]
fn an_invalid_regex_is_an_error() {
    assert!(matches!(
        Matcher::compile(&FilterSpec {
            query: "(".into(),
            regex: true,
            invert: false,
            case_sensitive: false,
        }),
        Err(Error::InvalidPattern(_))
    ));
}

#[test]
fn case_sensitive_match_respects_case() {
    let spec = |case_sensitive| FilterSpec {
        query: "err".into(),
        regex: false,
        invert: false,
        case_sensitive,
    };
    // Insensitive (default) matches regardless of case.
    let insensitive = Matcher::compile(&spec(false)).ok().unwrap();
    assert!(insensitive.matches(&record(&["ERROR"])));
    // Sensitive matches only the exact case.
    let sensitive = Matcher::compile(&spec(true)).ok().unwrap();
    assert!(!sensitive.matches(&record(&["ERROR"])));
    assert!(sensitive.matches(&record(&["an error"])));
}

#[test]
fn a_literal_query_is_not_read_as_a_pattern() {
    let m = matcher("a.c", false, false);
    assert!(m.matches_any(&[b"xa.cx".to_vec()]));
    assert!(!m.matches_any(&[b"abc".to_vec()]));
    assert!(matcher("(", false, false).hits(b"f(x)"));
}

#[test]
fn every_character_of_a_literal_query_stands_for_itself() {
    let query = r"\.+*?()|[]{}^$#&-~ a";
    let spec = FilterSpec { query: query.into(), regex: false, invert: false, case_sensitive: true };
    let m = Matcher::compile(&spec).ok().unwrap();
    assert!(m.matches(&record(&[&format!("x{query}y")])));
    assert!(!m.matches(&record(&["x"])));
    for (at, c) in query.char_indices() {
        let other = format!("{}{}", &query[..at], &query[at + c.len_utf8()..]);
        assert!(!m.matches(&record(&[&other])), "without {c}");
    }
}

#[test]
fn a_record_without_fields_matches_only_inverted() {
    assert!(!matcher("x", false, false).matches_any(&[]));
    assert!(matcher("x", false, true).matches_any(&[]));
    assert!(verdict(true, false) && !verdict(true, true));
}

#[test]
fn bytes_that_are_no_text_can_match() {
    assert!(matcher("b", false, false).hits(&[0xff, b'b', 0xfe]));
}
