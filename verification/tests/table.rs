use tableizer::encoding::transcode;
use tableizer::index::OffsetIndex;
use tableizer::parse::Dialect;
use tableizer::table::{build_view, column_label, fetch_from_head, fetch_streaming, CsvState};
use tableizer::{
    CancellationToken, ColumnId, CsvTable, Direction, Error, FilterSpec, InferredType, Progress,
    RowCount, RowRange, SortKey, ViewSpec, ViewportRequest, ViewportSource,
};

fn request(start: u64, len: u32, columns: &[u32]) -> ViewportRequest {
    ViewportRequest {
        rows: RowRange { start, len },
        columns: columns.iter().copied().map(ColumnId).collect(),
    }
}

/// A dialect that treats every physical record as data (no header).
fn no_header() -> Dialect {
    Dialect { has_header: false, ..Dialect::default() }
}

/// Encode text as UTF-16LE with a BOM (for the transcoding test).
fn to_utf16le(s: &str) -> Vec<u8> {
    let mut out = vec![0xFF, 0xFE];
    for unit in s.encode_utf16() {
        out.extend_from_slice(&unit.to_le_bytes());
    }
    out
}

fn ascending() -> ViewSpec {
    ViewSpec {
        filter: None,
        sort: Some(SortKey { column: ColumnId(0), direction: Direction::Ascending }),
    }
}

#[test]
fn fetches_cells_as_exact_field_bytes() {
    let table = CsvTable::from_bytes(b"a,b\nc,d\n".to_vec(), no_header()).unwrap();

    assert!(matches!(table.row_count(), RowCount::Exact(2)));
    let viewport = table.fetch(&request(0, 2, &[0, 1]), &CancellationToken::new()).unwrap();

    assert_eq!(viewport.rows.len(), 2);
    assert_eq!(viewport.rows[0][0].0, b"a");
    assert_eq!(viewport.rows[0][1].0, b"b");
    assert_eq!(viewport.rows[1][0].0, b"c");
    assert_eq!(viewport.rows[1][1].0, b"d");
}

#[test]
fn projects_only_requested_columns_in_the_requested_order() {
    let table = CsvTable::from_bytes(b"a,b,c\n".to_vec(), no_header()).unwrap();

    let viewport = table.fetch(&request(0, 1, &[2, 0]), &CancellationToken::new()).unwrap();

    assert_eq!(viewport.rows[0][0].0, b"c");
    assert_eq!(viewport.rows[0][1].0, b"a");
}

#[test]
fn schema_has_one_column_per_field() {
    let table = CsvTable::from_bytes(b"a,b,c\n1,2,3\n".to_vec(), no_header()).unwrap();
    assert_eq!(table.schema().columns.len(), 3);
}

#[test]
fn table_opens_and_reads_a_file_via_mmap() {
    // A state that gets its index later, as for a mapped file that is indexed in the background.
    let bytes = b"x,y\n1,2\n3,4\n";
    let mut state = CsvState::new(bytes, no_header());
    assert!(matches!(state.row_count(), RowCount::AtLeast(0)));
    state.set_index(OffsetIndex::build(bytes, &no_header()).unwrap());

    assert!(matches!(state.row_count(), RowCount::Exact(3)));
    let viewport =
        state.fetch(bytes, &request(1, 2, &[0, 1]), &CancellationToken::new()).unwrap();
    assert_eq!(viewport.rows[0][0].0, b"1");
    assert_eq!(viewport.rows[1][1].0, b"4");
}

#[test]
fn streaming_fetch_matches_indexed_fetch() {
    // The progressive (pre-index) path must return byte-identical cells to the indexed path.
    let data = b"a,b\n\"c\nc\",d\ne,f\n".to_vec();
    let dialect = no_header();
    let cols = [ColumnId(0), ColumnId(1)];

    let table = CsvTable::from_bytes(data.clone(), dialect).unwrap();
    let indexed = table.fetch(&request(1, 2, &[0, 1]), &CancellationToken::new()).unwrap();
    let streamed =
        fetch_streaming(&data, &dialect, &[1, 2], &cols, &CancellationToken::new()).unwrap();

    assert_eq!(indexed.rows, streamed.rows);
    assert_eq!(streamed.rows[0][0].0, b"c\nc"); // quoted embedded newline preserved
}

#[test]
fn streaming_fallback_resolves_scattered_view_rows() {
    // Requesting data rows [2, 0] returns those rows in that order (with header skipped).
    let data = b"h\nr0\nr1\nr2\n".to_vec();
    let cols = [ColumnId(0)];
    let streamed =
        fetch_streaming(&data, &Dialect::default(), &[2, 0], &cols, &CancellationToken::new())
            .unwrap();
    assert_eq!(streamed.rows[0][0].0, b"r2");
    assert_eq!(streamed.rows[1][0].0, b"r0");
}

#[test]
fn a_view_of_no_rows_is_built_whatever_the_token_says() {
    let cancel = CancellationToken::new();
    cancel.cancel();
    let sort = ascending().sort;
    let build = |bytes: &[u8]| build_view(bytes, &Dialect::default(), &None, sort, Some(&cancel));
    assert_eq!(build(b"").ok(), Some(vec![]));
    assert_eq!(build(b"h\n").ok(), Some(vec![]));
}

#[test]
fn only_a_token_cancels_a_fetch() {
    let data = b"h\nr0\nr1\n".to_vec();
    let dialect = Dialect::default();
    let cols = [ColumnId(0)];
    let mut state = CsvState::new(&data, dialect);
    let cancel = CancellationToken::new();
    cancel.cancel();
    let streamed = fetch_from_head(&data, &dialect, &[1], &cols, None).unwrap();
    assert_eq!(streamed.rows[0][0].0, b"r1");
    let cancelled = fetch_from_head(&data, &dialect, &[1], &cols, Some(&cancel));
    assert!(matches!(cancelled, Err(Error::Cancelled)));
    for _ in 0..2 {
        // Without an index, and then through one.
        let fetched = state.fetch_data_rows(&data, &[1, 0], &cols, None).unwrap();
        assert_eq!(fetched.rows[0][0].0, b"r1");
        assert_eq!(fetched.rows[1][0].0, b"r0");
        let cancelled = state.fetch_data_rows(&data, &[1], &cols, Some(&cancel));
        assert!(matches!(cancelled, Err(Error::Cancelled)));
        assert!(state.fetch_data_rows(&data, &[], &cols, Some(&cancel)).unwrap().rows.is_empty());
        state.set_index(OffsetIndex::build(&data, &dialect).unwrap());
    }
}

#[test]
fn header_row_names_columns_and_is_excluded_from_data() {
    let table =
        CsvTable::from_bytes(b"name,age\nbob,30\nann,25\n".to_vec(), Dialect::default()).unwrap();

    // The header is excluded from the data view.
    assert!(matches!(table.row_count(), RowCount::Exact(2)));
    // Column names come from the header row.
    assert_eq!(table.schema().columns[0].name, b"name");
    assert_eq!(table.schema().columns[1].name, b"age");
    // Data row 0 is the first record *after* the header.
    let viewport = table.fetch(&request(0, 1, &[0, 1]), &CancellationToken::new()).unwrap();
    assert_eq!(viewport.rows[0][0].0, b"bob");
    assert_eq!(viewport.rows[0][1].0, b"30");
}

#[test]
fn opens_a_utf16le_file_by_transcoding_to_utf8() {
    let bytes = transcode(&to_utf16le("a,b\n1,2\n3,4\n")).expect("marked as UTF-16");
    let table = CsvTable::from_bytes(bytes, no_header()).unwrap();

    // UTF-16 was transcoded to UTF-8, so the structure parses and cells are UTF-8 bytes.
    assert!(matches!(table.row_count(), RowCount::Exact(3)));
    let viewport = table.fetch(&request(0, 3, &[0, 1]), &CancellationToken::new()).unwrap();
    assert_eq!(viewport.rows[0][0].0, b"a");
    assert_eq!(viewport.rows[2][1].0, b"4");
}

#[test]
fn global_sort_orders_rows_by_a_column() {
    // Header "n"; data rows 3, 1, 2: ascending sort yields 1, 2, 3.
    let mut table = CsvTable::from_bytes(b"n\n3\n1\n2\n".to_vec(), Dialect::default()).unwrap();
    table.set_view(&ascending()).unwrap();
    assert!(!table.view_status().building);

    let viewport = table.fetch(&request(0, 3, &[0]), &CancellationToken::new()).unwrap();
    assert_eq!(viewport.rows[0][0].0, b"1");
    assert_eq!(viewport.rows[1][0].0, b"2");
    assert_eq!(viewport.rows[2][0].0, b"3");
}

#[test]
fn table_global_filter_hides_non_matching_rows() {
    let mut table =
        CsvTable::from_bytes(b"name\napple\nbanana\navocado\n".to_vec(), Dialect::default())
            .unwrap();
    table
        .set_view(&ViewSpec {
            filter: Some(FilterSpec {
                query: "av".into(),
                regex: false,
                invert: false,
                case_sensitive: false,
            }),
            sort: None,
        })
        .unwrap();

    assert!(matches!(table.row_count(), RowCount::Exact(1)));
    let viewport = table.fetch(&request(0, 10, &[0]), &CancellationToken::new()).unwrap();
    assert_eq!(viewport.rows.len(), 1);
    assert_eq!(viewport.rows[0][0].0, b"avocado");
}

#[test]
fn clear_view_returns_to_source_order() {
    let mut table = CsvTable::from_bytes(b"n\n3\n1\n2\n".to_vec(), Dialect::default()).unwrap();
    table.set_view(&ascending()).unwrap();
    table.clear_view();

    let viewport = table.fetch(&request(0, 3, &[0]), &CancellationToken::new()).unwrap();
    assert_eq!(viewport.rows[0][0].0, b"3"); // source order restored
}

#[test]
fn infers_numeric_columns_for_alignment() {
    let table =
        CsvTable::from_bytes(b"name,age\nalice,30\nbob,25\n".to_vec(), Dialect::default())
            .unwrap();
    let columns = &table.schema().columns;
    assert_eq!(columns[0].inferred, InferredType::Text); // "name" is text
    assert_eq!(columns[1].inferred, InferredType::Integer); // "age" is integer
}

#[test]
fn infers_floats_truths_and_empty_columns() {
    let table = CsvTable::from_bytes(
        b"f,t,e,m\n1.5,true,,1\n2,FALSE,,x\n,,,\n".to_vec(),
        Dialect::default(),
    )
    .unwrap();
    let types: Vec<InferredType> = table.schema().columns.iter().map(|c| c.inferred).collect();
    assert_eq!(
        types,
        vec![
            InferredType::Float,
            InferredType::Boolean,
            InferredType::Text,
            InferredType::Text,
        ]
    );
}

#[test]
fn columns_without_a_header_get_made_up_names() {
    let table = CsvTable::from_bytes(b"1,2\n".to_vec(), no_header()).unwrap();
    assert_eq!(table.schema().columns[1].name, column_label(1).as_bytes());
}

#[test]
fn rows_beyond_the_table_are_not_shown_and_missing_fields_are_empty() {
    let table = CsvTable::from_bytes(b"a,b\nc\n".to_vec(), no_header()).unwrap();
    let viewport = table.fetch(&request(1, 5, &[0, 1, 9]), &CancellationToken::new()).unwrap();
    assert_eq!(viewport.rows[0][0].0, b"c");
    assert_eq!(viewport.rows[0][1].0, b"");
    assert_eq!(viewport.rows[0][2].0, b"");
    assert_eq!(table.data_quality().ragged_rows, 1);
    assert!(table.data_quality().complete);
}

#[test]
fn a_fetch_is_cancellable() {
    let table = CsvTable::from_bytes(b"a\nb\n".to_vec(), no_header()).unwrap();
    let cancel = CancellationToken::new();
    cancel.cancel();
    assert!(matches!(table.fetch(&request(0, 2, &[0]), &cancel), Err(Error::Cancelled)));
}

#[test]
fn an_invalid_filter_leaves_the_view_as_it_was() {
    let mut table = CsvTable::from_bytes(b"n\n3\n1\n2\n".to_vec(), Dialect::default()).unwrap();
    table.set_view(&ascending()).unwrap();
    let bad = ViewSpec {
        filter: Some(FilterSpec {
            query: "(".into(),
            regex: true,
            invert: false,
            case_sensitive: false,
        }),
        sort: None,
    };
    assert!(matches!(table.set_view(&bad), Err(Error::InvalidPattern(_))));
    let viewport = table.fetch(&request(0, 1, &[0]), &CancellationToken::new()).unwrap();
    assert_eq!(viewport.rows[0][0].0, b"1");
}

#[test]
fn progress_counts_as_a_lower_bound_without_the_header() {
    let bytes = b"h\n1\n2\n3\n";
    let mut state = CsvState::new(bytes, Dialect::default());
    state.note_progress(Progress { rows_indexed: 3, bytes_processed: 6 });
    assert!(matches!(state.row_count(), RowCount::AtLeast(2)));
    assert!(!state.data_quality().complete);
}

#[test]
fn a_superseded_view_changes_nothing() {
    let bytes = b"n\n3\n1\n2\n";
    let mut state = CsvState::new(bytes, Dialect::default());
    state.set_index(OffsetIndex::build(bytes, &Dialect::default()).unwrap());
    let first = state.begin_view(&ascending()).ok().unwrap().unwrap();
    let second = state.begin_view(&ascending()).ok().unwrap().unwrap();
    state.finish_view(first.id, Some(vec![0]));
    assert!(state.view_status().building);
    assert!(matches!(state.row_count(), RowCount::Exact(3)));
    state.finish_view(second.id, Some(vec![1, 2, 0]));
    assert!(!state.view_status().building);
    let shown = state.fetch(bytes, &request(0, 1, &[0]), &CancellationToken::new()).unwrap();
    assert_eq!(shown.rows[0][0].0, b"1");
    let stored =
        state.fetch_source(bytes, &request(0, 1, &[0]), &CancellationToken::new()).unwrap();
    assert_eq!(stored.rows[0][0].0, b"3");
}
