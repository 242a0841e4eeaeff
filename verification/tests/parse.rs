use tableizer::parse::Dialect;

#[test]
fn sniffs_comma_with_header() {
    let d = Dialect::sniff(b"name,age,city\nbob,30,paris\nann,25,rome\n");
    assert_eq!(d.delimiter, b',');
    assert!(d.has_header);
}

#[test]
fn sniffs_tab_delimiter() {
    let d = Dialect::sniff(b"a\tb\tc\n1\t2\t3\n");
    assert_eq!(d.delimiter, b'\t');
}

#[test]
fn sniffs_semicolon_delimiter() {
    let d = Dialect::sniff(b"a;b;c\n1;2;3\n");
    assert_eq!(d.delimiter, b';');
}

#[test]
fn detects_no_header_when_first_row_is_numeric() {
    let d = Dialect::sniff(b"1,2,3\n4,5,6\n");
    assert!(!d.has_header);
}

#[test]
fn an_empty_sample_gives_the_default_dialect() {
    assert_eq!(Dialect::sniff(b""), Dialect::default());
    assert_eq!(Dialect::default(), Dialect { delimiter: b',', quote: b'"', has_header: true });
}

#[test]
fn the_most_consistent_delimiter_wins() {
    // Commas occur in the text, but only the bar splits every record alike.
    let d = Dialect::sniff(b"a|b, c\n1|2\n3|4, 5, 6\n");
    assert_eq!(d.delimiter, b'|');
}
