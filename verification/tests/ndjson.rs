use tableizer::ndjson::NdjsonTable;
use tableizer::{
    CancellationToken, ColumnId, Direction, FilterSpec, InferredType, RowCount, RowRange, SortKey,
    ViewSpec, Viewport, ViewportRequest, ViewportSource,
};

fn request(start: u64, len: u32, columns: &[u32]) -> ViewportRequest {
    ViewportRequest {
        rows: RowRange { start, len },
        columns: columns.iter().copied().map(ColumnId).collect(),
    }
}

fn cells(viewport: &Viewport) -> Vec<Vec<String>> {
    viewport
        .rows
        .iter()
        .map(|row| {
            row.iter()
                .map(|c| String::from_utf8_lossy(&c.0).into_owned())
                .collect()
        })
        .collect()
}

fn col_names(table: &NdjsonTable) -> Vec<String> {
    table
        .schema()
        .columns
        .iter()
        .map(|c| String::from_utf8_lossy(&c.name).into_owned())
        .collect()
}

#[test]
fn columns_are_the_union_of_object_keys_in_first_seen_order() {
    let data = b"{\"name\":\"bob\",\"age\":30}\n{\"name\":\"ann\",\"city\":\"rome\"}\n";
    let table = NdjsonTable::from_bytes(data.to_vec()).unwrap();
    assert_eq!(col_names(&table), vec!["name", "age", "city"]);
    assert!(matches!(table.row_count(), RowCount::Exact(2)));
}

#[test]
fn projects_fields_by_key_with_missing_rendered_empty() {
    let data = b"{\"name\":\"bob\",\"age\":30}\n{\"name\":\"ann\",\"city\":\"rome\"}\n";
    let table = NdjsonTable::from_bytes(data.to_vec()).unwrap();
    // columns: name, age, city
    let viewport = table
        .fetch(&request(0, 2, &[0, 1, 2]), &CancellationToken::new())
        .unwrap();
    assert_eq!(
        cells(&viewport),
        vec![
            vec!["bob".to_string(), "30".to_string(), String::new()],
            vec!["ann".to_string(), String::new(), "rome".to_string()],
        ]
    );
}

#[test]
fn ndjson_renders_null_as_empty_and_nested_as_compact_json() {
    let data = b"{\"a\":null,\"b\":[1,2],\"c\":{\"x\":1}}\n";
    let table = NdjsonTable::from_bytes(data.to_vec()).unwrap();
    let viewport = table
        .fetch(&request(0, 1, &[0, 1, 2]), &CancellationToken::new())
        .unwrap();
    assert_eq!(
        cells(&viewport),
        vec![vec![
            String::new(),
            "[1,2]".to_string(),
            "{\"x\":1}".to_string()
        ]]
    );
}

#[test]
fn infers_integer_columns_for_alignment() {
    let data = b"{\"name\":\"a\",\"age\":30}\n{\"name\":\"b\",\"age\":25}\n";
    let table = NdjsonTable::from_bytes(data.to_vec()).unwrap();
    let cols = &table.schema().columns;
    assert_eq!(cols[0].inferred, InferredType::Text);
    assert_eq!(cols[1].inferred, InferredType::Integer);
}

#[test]
fn falls_back_to_a_single_value_column_for_non_objects() {
    let data = b"1\n\"hello\"\n[1,2,3]\n";
    let table = NdjsonTable::from_bytes(data.to_vec()).unwrap();
    assert_eq!(col_names(&table), vec!["value"]);
    let viewport = table
        .fetch(&request(0, 3, &[0]), &CancellationToken::new())
        .unwrap();
    assert_eq!(
        cells(&viewport),
        vec![
            vec!["1".to_string()],
            vec!["hello".to_string()],
            vec!["[1,2,3]".to_string()],
        ]
    );
}

#[test]
fn skips_blank_lines() {
    let data = b"{\"a\":1}\n\n   \n{\"a\":2}\n";
    let table = NdjsonTable::from_bytes(data.to_vec()).unwrap();
    assert!(matches!(table.row_count(), RowCount::Exact(2)));
    let viewport = table
        .fetch(&request(0, 2, &[0]), &CancellationToken::new())
        .unwrap();
    assert_eq!(
        cells(&viewport),
        vec![vec!["1".to_string()], vec!["2".to_string()]]
    );
}

#[test]
fn ndjson_opens_and_reads_a_file_via_mmap() {
    let bytes = b"{\"a\":1,\"b\":2}\n{\"a\":3,\"b\":4}\n".to_vec();
    let table = NdjsonTable::from_bytes(bytes).unwrap();

    assert!(matches!(table.row_count(), RowCount::Exact(2)));
    let viewport = table
        .fetch(&request(0, 2, &[0, 1]), &CancellationToken::new())
        .unwrap();
    assert_eq!(
        cells(&viewport),
        vec![
            vec!["1".to_string(), "2".to_string()],
            vec!["3".to_string(), "4".to_string()],
        ]
    );
}

#[test]
fn resolves_offsets_across_many_anchors() {
    // More records than ANCHOR_INTERVAL forces multiple anchors.
    let mut data = Vec::new();
    for i in 0..3000u32 {
        data.extend_from_slice(format!("{{\"i\":{i}}}\n").as_bytes());
    }
    let table = NdjsonTable::from_bytes(data).unwrap();
    assert!(matches!(table.row_count(), RowCount::Exact(3000)));
    for row in [0u64, 1023, 1024, 1025, 2999] {
        let viewport = table
            .fetch(&request(row, 1, &[0]), &CancellationToken::new())
            .unwrap();
        assert_eq!(cells(&viewport)[0][0], row.to_string());
    }
}

#[test]
fn ndjson_global_filter_hides_non_matching_rows() {
    let data = b"{\"name\":\"apple\"}\n{\"name\":\"banana\"}\n{\"name\":\"avocado\"}\n";
    let mut table = NdjsonTable::from_bytes(data.to_vec()).unwrap();
    table
        .set_view(&ViewSpec {
            filter: Some(FilterSpec {
                query: "av".into(),
                regex: false,
                invert: false,
                case_sensitive: false,
            }),
            sort: None,
        })
        .unwrap();

    assert!(matches!(table.row_count(), RowCount::Exact(1)));
    let viewport = table
        .fetch(&request(0, 10, &[0]), &CancellationToken::new())
        .unwrap();
    assert_eq!(cells(&viewport), vec![vec!["avocado".to_string()]]);
}

#[test]
fn ndjson_global_sort_orders_rows_numerically() {
    let data = b"{\"n\":3}\n{\"n\":1}\n{\"n\":2}\n";
    let mut table = NdjsonTable::from_bytes(data.to_vec()).unwrap();
    table
        .set_view(&ViewSpec {
            filter: None,
            sort: Some(SortKey {
                column: ColumnId(0),
                direction: Direction::Ascending,
            }),
        })
        .unwrap();

    let viewport = table
        .fetch(&request(0, 3, &[0]), &CancellationToken::new())
        .unwrap();
    assert_eq!(
        cells(&viewport),
        vec![
            vec!["1".to_string()],
            vec!["2".to_string()],
            vec!["3".to_string()],
        ]
    );
}
