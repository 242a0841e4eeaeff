use tableizer::model::{Format, GridLayout};
use tableizer::panel::{
    available_tabs, export_columns, export_names, fix_panel_tab, opening, toggle_tab, ExportKind,
    PanelTab,
};
use tableizer::parse::Dialect;
use tableizer::{Column, ColumnId, ExportScope, InferredType, Schema};

#[test]
fn tabs_depend_on_the_source() {
    assert_eq!(available_tabs(None), vec![PanelTab::Settings]);
    assert_eq!(
        available_tabs(Some(Format::Delimited)),
        vec![PanelTab::Columns, PanelTab::Parsing, PanelTab::Settings]
    );
    assert_eq!(
        available_tabs(Some(Format::Json)),
        vec![PanelTab::Columns, PanelTab::Settings]
    );
    let labels: Vec<&str> =
        available_tabs(Some(Format::Delimited)).iter().map(|t| t.label()).collect();
    assert_eq!(labels, vec!["Columns", "Parsing", "Settings"]);
}

#[test]
fn a_tab_that_is_gone_is_replaced() {
    assert_eq!(fix_panel_tab(None, PanelTab::Columns), PanelTab::Settings);
    assert_eq!(fix_panel_tab(Some(Format::Parquet), PanelTab::Parsing), PanelTab::Columns);
    assert_eq!(fix_panel_tab(Some(Format::Delimited), PanelTab::Parsing), PanelTab::Parsing);
    assert_eq!(PanelTab::default(), PanelTab::Columns);
}

#[test]
fn a_switch_opens_and_closes_its_tab() {
    assert_eq!(toggle_tab(false, PanelTab::Columns, PanelTab::Settings), (true, PanelTab::Settings));
    assert_eq!(toggle_tab(true, PanelTab::Columns, PanelTab::Settings), (true, PanelTab::Settings));
    assert_eq!(
        toggle_tab(true, PanelTab::Settings, PanelTab::Settings),
        (false, PanelTab::Settings)
    );
}

#[test]
fn export_formats_have_labels_extensions_and_delimiters() {
    let all: Vec<(&str, &str, Option<u8>)> =
        ExportKind::ALL.iter().map(|k| (k.label(), k.extension(), k.delimiter())).collect();
    assert_eq!(
        all,
        vec![
            ("CSV", "csv", Some(b',')),
            ("TSV", "tsv", Some(b'\t')),
            ("NDJSON", "ndjson", None),
            ("Parquet", "parquet", None),
        ]
    );
}

#[test]
fn a_saved_delimiter_overrides_the_detected_one() {
    let sniffed = Dialect { delimiter: b';', quote: b'"', has_header: false };
    let auto = opening(Format::Delimited, sniffed, None);
    assert_eq!((auto.dialect, auto.detected_delimiter, auto.delimiter_auto), (sniffed, b';', true));
    let saved = opening(Format::Delimited, sniffed, Some(b'|'));
    assert_eq!(saved.dialect, Dialect { delimiter: b'|', ..sniffed });
    assert_eq!((saved.detected_delimiter, saved.delimiter_auto), (b';', false));
    let json = opening(Format::Json, sniffed, Some(b'|'));
    assert_eq!(json.dialect, Dialect::default());
    assert!(json.delimiter_auto);
}

#[test]
fn the_view_exports_what_is_shown_and_the_source_all() {
    let mut layout = GridLayout::new(3);
    layout.visible[1] = false;
    assert_eq!(
        export_columns(ExportScope::CurrentView, &layout, 3),
        vec![ColumnId(0), ColumnId(2)]
    );
    assert_eq!(
        export_columns(ExportScope::Source, &layout, 3),
        vec![ColumnId(0), ColumnId(1), ColumnId(2)]
    );
    let schema = Schema {
        columns: vec![Column {
            id: ColumnId(0),
            name: b"\xEF\xBB\xBFid".to_vec(),
            inferred: InferredType::Text,
        }],
    };
    assert_eq!(export_names(&schema, &[ColumnId(0), ColumnId(5)]), vec![b"id".to_vec(), vec![]]);
}
