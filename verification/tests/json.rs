use tableizer::export::export_csv;
use tableizer::json::{build_view, derive_columns, detect, fetch_streaming, sniff, JsonState, RecordIndex};
use tableizer::json_scan::scan_value_end;
use tableizer::{
    CancellationToken, ColumnId, Direction, Error, ExportScope, FilterSpec, JsonMode, JsonTable,
    RowCount, RowRange, SortKey, ViewSpec, Viewport, ViewportRequest, ViewportSource,
};

fn request(start: u64, len: u32, columns: &[u32]) -> ViewportRequest {
    ViewportRequest {
        rows: RowRange { start, len },
        columns: columns.iter().copied().map(ColumnId).collect(),
    }
}

fn cells(viewport: &Viewport) -> Vec<Vec<String>> {
    viewport
        .rows
        .iter()
        .map(|row| {
            row.iter()
                .map(|c| String::from_utf8_lossy(&c.0).into_owned())
                .collect()
        })
        .collect()
}

fn col_names(table: &JsonTable) -> Vec<String> {
    table
        .schema()
        .columns
        .iter()
        .map(|c| String::from_utf8_lossy(&c.name).into_owned())
        .collect()
}

// ---- NDJSON (lines mode) ----

#[test]
fn ndjson_columns_are_union_of_keys_in_first_seen_order() {
    let data = b"{\"name\":\"bob\",\"age\":30}\n{\"name\":\"ann\",\"city\":\"rome\"}\n";
    let table = JsonTable::from_bytes(data.to_vec()).unwrap();
    assert_eq!(table.mode(), JsonMode::Lines);
    assert_eq!(col_names(&table), vec!["name", "age", "city"]);
    assert!(matches!(table.row_count(), RowCount::Exact(2)));
}

#[test]
fn ndjson_projects_fields_with_missing_rendered_empty() {
    let data = b"{\"name\":\"bob\",\"age\":30}\n{\"name\":\"ann\",\"city\":\"rome\"}\n";
    let table = JsonTable::from_bytes(data.to_vec()).unwrap();
    let viewport = table
        .fetch(&request(0, 2, &[0, 1, 2]), &CancellationToken::new())
        .unwrap();
    assert_eq!(
        cells(&viewport),
        vec![
            vec!["bob".to_string(), "30".to_string(), String::new()],
            vec!["ann".to_string(), String::new(), "rome".to_string()],
        ]
    );
}

#[test]
fn json_renders_null_as_empty_and_nested_as_compact_json() {
    let data = b"{\"a\":null,\"b\":[1,2],\"c\":{\"x\":1}}\n";
    let table = JsonTable::from_bytes(data.to_vec()).unwrap();
    let viewport = table
        .fetch(&request(0, 1, &[0, 1, 2]), &CancellationToken::new())
        .unwrap();
    assert_eq!(
        cells(&viewport),
        vec![vec![
            String::new(),
            "[1,2]".to_string(),
            "{\"x\":1}".to_string()
        ]]
    );
}

#[test]
fn ndjson_skips_blank_lines() {
    let data = b"{\"a\":1}\n\n   \n{\"a\":2}\n";
    let table = JsonTable::from_bytes(data.to_vec()).unwrap();
    assert!(matches!(table.row_count(), RowCount::Exact(2)));
    let viewport = table
        .fetch(&request(0, 2, &[0]), &CancellationToken::new())
        .unwrap();
    assert_eq!(
        cells(&viewport),
        vec![vec!["1".to_string()], vec!["2".to_string()]]
    );
}

#[test]
fn ndjson_resolves_offsets_across_many_anchors() {
    let mut data = Vec::new();
    for i in 0..3000u32 {
        data.extend_from_slice(format!("{{\"i\":{i}}}\n").as_bytes());
    }
    let table = JsonTable::from_bytes(data).unwrap();
    assert!(matches!(table.row_count(), RowCount::Exact(3000)));
    for row in [0u64, 1023, 1024, 1025, 2999] {
        let viewport = table
            .fetch(&request(row, 1, &[0]), &CancellationToken::new())
            .unwrap();
        assert_eq!(cells(&viewport)[0][0], row.to_string());
    }
}

// ---- JSON array (array mode) ----

#[test]
fn array_of_objects_reads_like_a_table() {
    let data = b"[{\"name\":\"bob\",\"age\":30},{\"name\":\"ann\",\"age\":25}]";
    let table = JsonTable::from_bytes(data.to_vec()).unwrap();
    assert_eq!(table.mode(), JsonMode::Array);
    assert_eq!(col_names(&table), vec!["name", "age"]);
    assert!(matches!(table.row_count(), RowCount::Exact(2)));
    let viewport = table
        .fetch(&request(0, 2, &[0, 1]), &CancellationToken::new())
        .unwrap();
    assert_eq!(
        cells(&viewport),
        vec![
            vec!["bob".to_string(), "30".to_string()],
            vec!["ann".to_string(), "25".to_string()],
        ]
    );
}

#[test]
fn pretty_printed_array_with_whitespace_and_newlines() {
    let data = b"[\n  { \"a\": 1 },\n  { \"a\": 2 },\n  { \"a\": 3 }\n]\n";
    let table = JsonTable::from_bytes(data.to_vec()).unwrap();
    assert_eq!(table.mode(), JsonMode::Array);
    assert!(matches!(table.row_count(), RowCount::Exact(3)));
    let viewport = table
        .fetch(&request(0, 3, &[0]), &CancellationToken::new())
        .unwrap();
    assert_eq!(
        cells(&viewport),
        vec![
            vec!["1".to_string()],
            vec!["2".to_string()],
            vec!["3".to_string()],
        ]
    );
}

#[test]
fn array_elements_with_strings_containing_delimiters() {
    // Strings hold ']' ',' '{' and an escaped quote — boundaries must not be fooled.
    let data = br#"[{"s":"a,b]c{"},{"s":"x\"y"}]"#;
    let table = JsonTable::from_bytes(data.to_vec()).unwrap();
    assert!(matches!(table.row_count(), RowCount::Exact(2)));
    let viewport = table
        .fetch(&request(0, 2, &[0]), &CancellationToken::new())
        .unwrap();
    assert_eq!(
        cells(&viewport),
        vec![vec!["a,b]c{".to_string()], vec!["x\"y".to_string()],]
    );
}

#[test]
fn array_of_nested_values() {
    let data = br#"[{"a":[1,2],"b":{"x":1}},{"a":[3],"b":{"y":2}}]"#;
    let table = JsonTable::from_bytes(data.to_vec()).unwrap();
    let viewport = table
        .fetch(&request(0, 2, &[0, 1]), &CancellationToken::new())
        .unwrap();
    assert_eq!(
        cells(&viewport),
        vec![
            vec!["[1,2]".to_string(), "{\"x\":1}".to_string()],
            vec!["[3]".to_string(), "{\"y\":2}".to_string()],
        ]
    );
}

#[test]
fn array_of_scalars_uses_value_column() {
    let data = b"[1, 2, 3]";
    let table = JsonTable::from_bytes(data.to_vec()).unwrap();
    assert_eq!(col_names(&table), vec!["value"]);
    let viewport = table
        .fetch(&request(0, 3, &[0]), &CancellationToken::new())
        .unwrap();
    assert_eq!(
        cells(&viewport),
        vec![
            vec!["1".to_string()],
            vec!["2".to_string()],
            vec!["3".to_string()],
        ]
    );
}

#[test]
fn json_global_filter_hides_non_matching_rows() {
    let data = b"{\"name\":\"apple\"}\n{\"name\":\"banana\"}\n{\"name\":\"avocado\"}\n";
    let mut table = JsonTable::from_bytes(data.to_vec()).unwrap();
    table
        .set_view(&ViewSpec {
            filter: Some(FilterSpec {
                query: "av".into(),
                regex: false,
                invert: false,
                case_sensitive: false,
            }),
            sort: None,
        })
        .unwrap();
    assert!(matches!(table.row_count(), RowCount::Exact(1)));
    let viewport = table
        .fetch(&request(0, 10, &[0]), &CancellationToken::new())
        .unwrap();
    assert_eq!(cells(&viewport), vec![vec!["avocado".to_string()]]);
}

#[test]
fn array_filter_and_sort() {
    let data = b"[{\"n\":3},{\"n\":1},{\"n\":2}]";
    let mut table = JsonTable::from_bytes(data.to_vec()).unwrap();
    table
        .set_view(&ViewSpec {
            filter: None,
            sort: Some(SortKey {
                column: ColumnId(0),
                direction: Direction::Ascending,
            }),
        })
        .unwrap();
    let viewport = table
        .fetch(&request(0, 3, &[0]), &CancellationToken::new())
        .unwrap();
    assert_eq!(
        cells(&viewport),
        vec![
            vec!["1".to_string()],
            vec!["2".to_string()],
            vec!["3".to_string()],
        ]
    );
}

#[test]
fn array_resolves_offsets_across_many_anchors() {
    let mut data = Vec::from(&b"["[..]);
    for i in 0..3000u32 {
        if i > 0 {
            data.push(b',');
        }
        data.extend_from_slice(format!("{{\"i\":{i}}}").as_bytes());
    }
    data.push(b']');
    let table = JsonTable::from_bytes(data).unwrap();
    assert!(matches!(table.row_count(), RowCount::Exact(3000)));
    for row in [0u64, 1023, 1024, 1025, 2999] {
        let viewport = table
            .fetch(&request(row, 1, &[0]), &CancellationToken::new())
            .unwrap();
        assert_eq!(cells(&viewport)[0][0], row.to_string());
    }
}

#[test]
fn opens_an_array_file_via_mmap() {
    // A state that gets its index later, as for a mapped file that is indexed in the background.
    let bytes = b"[{\"a\":1,\"b\":2},{\"a\":3,\"b\":4}]";
    let records = detect(bytes);
    let mut state = JsonState::new(bytes, records);
    state.set_index(RecordIndex::build(bytes, records).unwrap());
    assert_eq!(state.records().mode, JsonMode::Array);
    let viewport = state
        .fetch(bytes, &request(0, 2, &[0, 1]), &CancellationToken::new())
        .unwrap();
    assert_eq!(
        cells(&viewport),
        vec![
            vec!["1".to_string(), "2".to_string()],
            vec!["3".to_string(), "4".to_string()],
        ]
    );
}

// ---- sniff ----

#[test]
fn sniff_classifies_shapes() {
    assert_eq!(sniff(b"{\"a\":1}\n{\"a\":2}\n"), Some(JsonMode::Lines));
    assert_eq!(sniff(b"  [ {\"a\":1} ]"), Some(JsonMode::Array));
    assert_eq!(sniff(b"[1,2,3]"), Some(JsonMode::Array));
    assert_eq!(sniff(b"[]"), Some(JsonMode::Array));
    // BOM is tolerated.
    assert_eq!(sniff(b"\xEF\xBB\xBF[{\"a\":1}]"), Some(JsonMode::Array));
    // Not JSON: CSV, or a '[' that doesn't begin a JSON value.
    assert_eq!(sniff(b"name,age\nbob,30\n"), None);
    assert_eq!(sniff(b"[id],name\n[1],bob\n"), None);
    // A pretty-printed single object: first line is just '{', not a complete value.
    assert_eq!(sniff(b"{\n  \"a\": 1\n}\n"), None);
}

#[test]
fn the_streaming_fetch_matches_the_indexed_one() {
    let data = b"[{\"a\":1},{\"a\":\"x\"},{\"b\":true}]".to_vec();
    let table = JsonTable::from_bytes(data.clone()).unwrap();
    let indexed = table.fetch(&request(0, 3, &[0, 1]), &CancellationToken::new()).unwrap();
    let records = detect(&data);
    let state = JsonState::new(&data, records);
    let streamed = fetch_streaming(
        &data,
        records,
        state.column_keys(),
        &[0, 1, 2],
        &[ColumnId(0), ColumnId(1)],
        &CancellationToken::new(),
    )
    .unwrap();
    assert_eq!(indexed.rows, streamed.rows);

    let cancel = CancellationToken::new();
    cancel.cancel();
    let columns = [ColumnId(0), ColumnId(1)];
    let whole = state.fetch_data_rows(&data, &[0, 1, 2], &columns, None).unwrap();
    assert_eq!(whole.rows, streamed.rows);
    let cancelled = state.fetch_data_rows(&data, &[0], &columns, Some(&cancel));
    assert!(matches!(cancelled, Err(Error::Cancelled)));
}

#[test]
fn every_row_of_a_json_table_is_exported_and_found() {
    let data: String = (0..2_500).map(|i| format!("{{\"n\":{i}}}\n")).collect();
    let mut table = JsonTable::from_bytes(data.into_bytes()).unwrap();
    let cancel = CancellationToken::new();
    let columns = [ColumnId(0)];
    let mut out = Vec::new();
    export_csv(&table, &mut out, b',', ExportScope::Source, &columns, None, &cancel).unwrap();
    let expected: String = (0..2_500).map(|i| format!("{i}\n")).collect();
    assert_eq!(String::from_utf8(out).unwrap(), expected);

    let sort = SortKey { column: ColumnId(0), direction: Direction::Descending };
    table.set_view(&ViewSpec { filter: None, sort: Some(sort) }).unwrap();
    let mut out = Vec::new();
    export_csv(&table, &mut out, b',', ExportScope::CurrentView, &columns, None, &cancel).unwrap();
    let expected: String = (0..2_500).rev().map(|i| format!("{i}\n")).collect();
    assert_eq!(String::from_utf8(out).unwrap(), expected);
    // A row looks the same in every slice that holds it.
    let whole = table.fetch(&request(0, 2_500, &[0]), &cancel).unwrap();
    for start in [0, 1, 1_023, 1_024, 2_499] {
        let one = table.fetch(&request(start, 1, &[0]), &cancel).unwrap();
        assert_eq!(one.rows[0], whole.rows[start as usize]);
    }
}

#[test]
fn a_view_of_no_records_is_built_whatever_the_token_says() {
    let cancel = CancellationToken::new();
    cancel.cancel();
    for data in ["", "\n", "[]"] {
        let bytes = data.as_bytes();
        let built = build_view(bytes, detect(bytes), &Vec::new(), &None, None, Some(&cancel));
        assert_eq!(built.ok(), Some(vec![]), "{data}");
    }
}

#[test]
fn values_end_where_they_close() {
    for (text, start, end) in [
        ("[1]x", 0, 3),
        ("\"a]\",", 0, 4),
        ("12, 3", 0, 2),
        ("{\"a\":1", 0, 6),
        ("", 0, 0),
        ("12", 2, 2),
        ("12", 9, 9),
    ] {
        assert_eq!(scan_value_end(text.as_bytes(), start), end, "{text}");
    }
}

#[test]
fn column_keys_have_the_names_and_types_of_the_columns() {
    let data = b"{\"a\":1,\"b\":\"x\"}\n{\"b\":\"y\",\"c\":1.5}\n".to_vec();
    let (schema, keys) = derive_columns(&data, detect(&data));
    assert_eq!(schema.columns.len(), 3);
    assert_eq!(keys.len(), 3);
    for (column, key) in schema.columns.iter().zip(&keys) {
        assert_eq!(column.name, key.name);
        assert_eq!(column.inferred, key.inferred);
        assert_eq!(key.key.as_deref().map(str::as_bytes), Some(column.name.as_slice()));
    }
}

#[test]
fn an_array_that_is_closed_by_a_brace_ends_there() {
    let table = JsonTable::from_bytes(b"[1}".to_vec()).unwrap();
    assert!(matches!(table.row_count(), RowCount::Exact(1)));
}

#[test]
fn a_record_that_is_no_json_is_a_row_of_empty_cells() {
    let table = JsonTable::from_bytes(b"{\"a\":1}\n{oops\n{\"a\":3}\n".to_vec()).unwrap();
    let viewport = table.fetch(&request(0, 3, &[0]), &CancellationToken::new()).unwrap();
    assert_eq!(
        cells(&viewport),
        vec![vec!["1".to_string()], vec![String::new()], vec!["3".to_string()]]
    );
}

#[test]
fn a_json_fetch_is_cancellable() {
    let table = JsonTable::from_bytes(b"[1,2]".to_vec()).unwrap();
    let cancel = CancellationToken::new();
    cancel.cancel();
    assert!(matches!(table.fetch(&request(0, 1, &[0]), &cancel), Err(Error::Cancelled)));
}

#[test]
fn json_clear_view_returns_to_source_order() {
    let mut table = JsonTable::from_bytes(b"[3,1,2]".to_vec()).unwrap();
    table
        .set_view(&ViewSpec {
            filter: None,
            sort: Some(SortKey { column: ColumnId(0), direction: Direction::Descending }),
        })
        .unwrap();
    let sorted = table.fetch(&request(0, 3, &[0]), &CancellationToken::new()).unwrap();
    assert_eq!(cells(&sorted), vec![vec!["3"], vec!["2"], vec!["1"]]);
    table.clear_view();
    let viewport = table.fetch(&request(0, 3, &[0]), &CancellationToken::new()).unwrap();
    assert_eq!(cells(&viewport), vec![vec!["3"], vec!["1"], vec!["2"]]);
}

#[test]
fn a_source_is_read_in_the_layout_its_head_shows() {
    for (source, head) in [
        (b"{\"a\":1}\n{\"a\":2}\n".to_vec(), 10),
        (b" [ {\"a\":1},\n {\"a\":2} ]".to_vec(), 5),
        (b"[1]".to_vec(), 3),
    ] {
        let shown = sniff(&source[..head]);
        assert!(shown.is_some());
        assert_eq!(Some(detect(&source).mode), shown);
    }
}
