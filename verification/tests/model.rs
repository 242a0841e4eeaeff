use tableizer::encoding::{decode_field, TextEncoding};
use tableizer::model::{
    chosen_delimiter, column_name, delimiter_display, delimiter_label, detect_format, format_label,
    highlight_matcher, is_marked, parse_delimiter, raw_name, reorder, view_file_name,
    DelimiterChoice, Format, GridLayout, RowSpan, SavedView, ViewControls,
};
use tableizer::parse::Dialect;
use tableizer::{Column, ColumnId, Direction, InferredType, Schema, SortKey, ViewSpec};

/// Detect the format of a file with the given extension and content.
fn detect_with(extension: &str, content: &[u8]) -> Format {
    detect_format(content, &format!("/tmp/file.{extension}"))
}

#[test]
fn detect_format_falls_back_to_extension_for_empty_content() {
    // With no content to sniff, the extension decides.
    assert_eq!(detect_with("parquet", b""), Format::Parquet);
    assert_eq!(detect_with("PQT", b""), Format::Parquet);
    assert_eq!(detect_with("ndjson", b""), Format::Json);
    assert_eq!(detect_with("JSONL", b""), Format::Json);
    assert_eq!(detect_with("csv", b""), Format::Delimited);
    assert_eq!(detect_with("unknown_ext_zz", b""), Format::Delimited);
}

#[test]
fn detect_format_routes_json_by_content_regardless_of_extension() {
    // NDJSON content in a `.json` file must be JSON, not CSV.
    assert_eq!(detect_with("json", b"{\"a\":1}\n{\"a\":2}\n"), Format::Json);
    // A top-level array in a `.json` file is JSON too.
    assert_eq!(detect_with("json", b"[{\"a\":1},{\"a\":2}]"), Format::Json);
    // Content wins over a misleading extension (NDJSON named `.csv`).
    assert_eq!(detect_with("csv", b"{\"a\":1}\n{\"a\":2}\n"), Format::Json);
    // Real delimited content stays delimited even with a `.json` extension.
    assert_eq!(detect_with("json", b"name,age\nbob,30\n"), Format::Delimited);
    // A `[`-leading CSV is not mistaken for a JSON array.
    assert_eq!(detect_with("csv", b"[id],name\n[1],bob\n"), Format::Delimited);
}

#[test]
fn format_label_names_each_format() {
    let comma = Dialect::default();
    assert_eq!(format_label(Format::Parquet, &comma), "Parquet");
    assert_eq!(format_label(Format::Json, &comma), "JSON");
    // Delimited is named by its delimiter.
    assert_eq!(format_label(Format::Delimited, &comma), "CSV");
    let tab = Dialect { delimiter: b'\t', ..Dialect::default() };
    assert_eq!(format_label(Format::Delimited, &tab), "TSV");
    let semi = Dialect { delimiter: b';', ..Dialect::default() };
    assert_eq!(format_label(Format::Delimited, &semi), "Delimited · semicolon");
}

#[test]
fn detect_format_falls_back_to_parquet_magic_bytes() {
    // A Parquet file mis-named without a known extension is still recognised by its `PAR1` magic.
    assert_eq!(detect_with("bin", b"PAR1\x00\x00datatrailer"), Format::Parquet);
    // A non-Parquet file with an unknown extension reads as delimited.
    assert_eq!(detect_with("bin", b"a,b,c\n1,2,3\n"), Format::Delimited);
}

#[test]
fn reorder_moves_a_column_before_the_target() {
    let mut order = vec![ColumnId(0), ColumnId(1), ColumnId(2), ColumnId(3)];
    reorder(&mut order, ColumnId(3), ColumnId(1), false);
    assert_eq!(order, vec![ColumnId(0), ColumnId(3), ColumnId(1), ColumnId(2)]);
}

#[test]
fn reorder_after_the_target_inserts_to_its_right() {
    // Drag column 0 to *after* column 2 (right half of the target).
    let mut order = vec![ColumnId(0), ColumnId(1), ColumnId(2), ColumnId(3)];
    reorder(&mut order, ColumnId(0), ColumnId(2), true);
    assert_eq!(order, vec![ColumnId(1), ColumnId(2), ColumnId(0), ColumnId(3)]);
}

#[test]
fn reorder_dragging_onto_itself_is_a_noop() {
    let mut order = vec![ColumnId(0), ColumnId(1)];
    reorder(&mut order, ColumnId(1), ColumnId(1), false);
    assert_eq!(order, vec![ColumnId(0), ColumnId(1)]);
}

#[test]
fn reorder_without_the_column_or_the_target() {
    let mut order = vec![ColumnId(0), ColumnId(1)];
    reorder(&mut order, ColumnId(9), ColumnId(1), false);
    assert_eq!(order, vec![ColumnId(0), ColumnId(1)]);
    reorder(&mut order, ColumnId(0), ColumnId(9), false);
    assert_eq!(order, vec![ColumnId(1), ColumnId(0)]);
}

#[test]
fn row_span_covers_the_range_regardless_of_drag_direction() {
    let down = RowSpan { anchor: 2, lead: 5 };
    assert_eq!((down.lo(), down.hi(), down.len()), (2, 5, 4));
    assert!(down.contains(2) && down.contains(4) && down.contains(5));
    assert!(!down.contains(1) && !down.contains(6));

    // Dragging upward (lead < anchor) selects the same rows.
    let up = RowSpan { anchor: 5, lead: 2 };
    assert_eq!((up.lo(), up.hi(), up.len()), (2, 5, 4));
    assert!(up.contains(3));

    let single = RowSpan::single(7);
    assert_eq!(single.len(), 1);
    assert!(single.contains(7) && !single.contains(8));
}

#[test]
fn displayed_columns_respect_visibility_and_order() {
    let mut layout = GridLayout::new(3);
    layout.visible[1] = false;
    reorder(&mut layout.order, ColumnId(2), ColumnId(0), false);
    assert_eq!(layout.displayed(), vec![ColumnId(2), ColumnId(0)]);
}

#[test]
fn decode_field_strips_utf8_bom() {
    let bytes = [0xEF, 0xBB, 0xBF, b'n', b'a', b'm', b'e'];
    assert_eq!(decode_field(&bytes, TextEncoding::Utf8), "name");
}

#[test]
fn decode_field_handles_windows_1252_smart_quotes() {
    // 0x93/0x94 are “ ” in Windows-1252 but invalid UTF-8.
    let bytes = [0x93, b'h', b'i', 0x94];
    assert_eq!(decode_field(&bytes, TextEncoding::Windows1252), "\u{201c}hi\u{201d}");
}

/// A `ViewControls` with just the find fields set, for the highlight-matcher tests.
fn find(search: &str, regex: bool, case_sensitive: bool) -> ViewControls {
    ViewControls { search: search.to_owned(), regex, case_sensitive, ..ViewControls::default() }
}

fn highlights(view: &ViewControls, cell: &str) -> bool {
    highlight_matcher(view).is_some_and(|m| m.matches_any(&[cell.as_bytes().to_vec()]))
}

#[test]
fn highlight_matcher_handles_case_and_empty_query() {
    assert!(highlights(&find("world", false, false), "Hello World")); // case-insensitive default
    assert!(!highlights(&find("xyz", false, false), "Hello"));
    assert!(highlight_matcher(&find("", false, false)).is_none()); // empty query: no highlight
    // Case-sensitive: compared as-is.
    assert!(highlights(&find("World", false, true), "Hello World"));
    assert!(!highlights(&find("world", false, true), "Hello World"));
}

#[test]
fn highlight_matcher_respects_regex_mode() {
    // In regex mode the highlight uses the pattern, not a literal substring of the pattern text.
    let view = find(r"^\d{3}$", true, false);
    assert!(highlights(&view, "123"));
    assert!(!highlights(&view, "12"));
    // An invalid regex (mid-typing) compiles to nothing rather than erroring.
    assert!(highlight_matcher(&find("(", true, false)).is_none());
}

#[test]
fn highlight_never_inverts() {
    let mut view = find("a", false, false);
    view.invert = true;
    assert!(highlights(&view, "abc"));
    assert!(!highlights(&view, "xyz"));
}

#[test]
fn parses_single_char_and_hex_delimiters() {
    assert_eq!(parse_delimiter(","), Some(b','));
    assert_eq!(parse_delimiter(":"), Some(b':'));
    assert_eq!(parse_delimiter("0x01"), Some(1)); // Hive/Unix Ctrl-A
    assert_eq!(parse_delimiter("\\x09"), Some(b'\t'));
    assert_eq!(parse_delimiter(""), None); // mid-entry: not yet a delimiter
    assert_eq!(parse_delimiter("ab"), None); // not a single byte
    assert_eq!(parse_delimiter("é"), None); // multi-byte char isn't a single delimiter
}

#[test]
fn a_delimiter_is_detected_listed_or_typed() {
    let auto = DelimiterChoice::Auto { detected: b'~' };
    let choices = [
        (auto, b'~'),
        (DelimiterChoice::Comma, b','),
        (DelimiterChoice::Pipe, b'|'),
        (DelimiterChoice::Semicolon, b';'),
        (DelimiterChoice::Tab, b'\t'),
        (DelimiterChoice::Custom, 1),
    ];
    for (choice, byte) in choices {
        assert_eq!(chosen_delimiter(choice, "0x01"), Some(byte));
        assert_eq!(is_marked(choice, byte, true), choice == auto);
        let listed = choice != auto && choice != DelimiterChoice::Custom;
        assert_eq!(is_marked(choice, byte, false), listed);
        assert!(!is_marked(choice, b'!', false));
    }
    // What is no delimiter yet changes nothing.
    assert_eq!(chosen_delimiter(DelimiterChoice::Custom, "0x"), None);
    assert_eq!(chosen_delimiter(DelimiterChoice::Comma, "0x"), Some(b','));
}

#[test]
fn hex_entries_are_exactly_two_digits() {
    assert_eq!(parse_delimiter("0xFf"), Some(255));
    for entry in ["0x", "0x1", "0x123", "0xg1", "0x-1", "0x+", "0x+1", "0x+f", "\\x+1", "0X01", "x09", "0xé"] {
        assert_eq!(parse_delimiter(entry), None, "{entry}");
    }
}

#[test]
fn delimiter_display_round_trips_through_parse() {
    for byte in [b',', b'\t', b'|', 1u8, 0x1f] {
        assert_eq!(parse_delimiter(&delimiter_display(byte)), Some(byte));
    }
    for byte in 0..=255u8 {
        assert_eq!(parse_delimiter(&delimiter_display(byte)), Some(byte));
    }
    assert_eq!(delimiter_display(b'\t'), "0x09");
    assert_eq!(delimiter_display(b' '), " ");
    assert_eq!(delimiter_display(0xab), "0xab");
}

#[test]
fn delimiters_have_friendly_names() {
    assert_eq!(delimiter_label(b','), "comma");
    assert_eq!(delimiter_label(b'\t'), "tab");
    assert_eq!(delimiter_label(b';'), "semicolon");
    assert_eq!(delimiter_label(b'|'), "pipe");
    assert_eq!(delimiter_label(b':'), ":");
    assert_eq!(delimiter_label(1), "0x01");
}

fn schema(names: &[&[u8]]) -> Schema {
    Schema {
        columns: names
            .iter()
            .enumerate()
            .map(|(i, n)| Column {
                id: ColumnId(i as u32),
                name: n.to_vec(),
                inferred: InferredType::Text,
            })
            .collect(),
    }
}

#[test]
fn columns_are_named_in_the_display_encoding() {
    let schema = schema(&[b"\xEF\xBB\xBFid", b"caf\xe9"]);
    assert_eq!(column_name(&schema, ColumnId(0), TextEncoding::Utf8), "id");
    assert_eq!(column_name(&schema, ColumnId(1), TextEncoding::Windows1252), "café");
    assert_eq!(column_name(&schema, ColumnId(7), TextEncoding::Utf8), "col7");
    assert_eq!(raw_name(&schema, ColumnId(0)), b"id");
    assert_eq!(raw_name(&schema, ColumnId(1)), b"caf\xe9");
    assert_eq!(raw_name(&schema, ColumnId(7)), b"");
}

#[test]
fn a_filter_is_wanted_only_with_a_query_and_the_mode() {
    let mut view = find("q", true, true);
    view.invert = true;
    assert_eq!(view.desired(), ViewSpec::default());
    view.filter_mode = true;
    let filter = view.desired().filter.unwrap();
    assert_eq!(
        (filter.query.as_str(), filter.regex, filter.invert, filter.case_sensitive),
        ("q", true, true, true)
    );
    view.search = String::new();
    assert!(view.desired().filter.is_none());
}

#[test]
fn a_reset_takes_back_the_view() {
    let mut view = find("q", true, true);
    view.filter_mode = true;
    view.sort = Some(SortKey { column: ColumnId(1), direction: Direction::Descending });
    view.selected = Some(RowSpan::single(3));
    view.reset();
    assert_eq!(view.desired(), ViewSpec::default());
    assert_eq!(view.selected, None);
    assert!(view.case_sensitive);
}

#[test]
fn a_saved_view_comes_back() {
    let mut layout = GridLayout::new(3);
    layout.visible[2] = false;
    reorder(&mut layout.order, ColumnId(0), ColumnId(2), true);
    let mut view = find("q", false, true);
    view.filter_mode = true;
    view.sort = Some(SortKey { column: ColumnId(1), direction: Direction::Descending });
    let saved = SavedView::snapshot(&layout, &view, Some(b';'));
    assert_eq!(saved.delimiter, Some(b';'));
    assert_eq!(saved.sort, Some((1, false)));

    let mut opened = GridLayout::new(3);
    let mut controls = ViewControls::default();
    saved.apply(&mut opened, &mut controls);
    assert_eq!(opened.order, layout.order);
    assert_eq!(opened.visible, layout.visible);
    assert_eq!(controls.desired(), view.desired());

    // With another number of columns only the view comes back.
    let mut other = GridLayout::new(2);
    saved.apply(&mut other, &mut controls);
    assert_eq!(other.order, vec![ColumnId(0), ColumnId(1)]);
    assert_eq!(other.visible, vec![true, true]);
}

#[test]
fn a_layout_is_kept_for_as_many_columns() {
    let mut layout = GridLayout::new(2);
    layout.show_all(false);
    layout.refit(2);
    assert_eq!(layout.displayed(), vec![]);
    layout.refit(3);
    assert_eq!(layout.displayed(), vec![ColumnId(0), ColumnId(1), ColumnId(2)]);
}

#[test]
fn a_saved_view_is_kept_under_the_hash_of_its_source() {
    // The hash of nothing is the offset that the hash starts with.
    assert_eq!(view_file_name(""), "cbf29ce484222325.json");
    assert_eq!(view_file_name("a"), "af63dc4c8601ec8c.json");
}
