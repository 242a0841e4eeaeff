use tableizer::export::{export_csv, export_ndjson, field_name, push_csv_record, ExportCursor};
use tableizer::parse::Dialect;
use tableizer::{
    CancellationToken, Cell, ColumnId, CsvTable, Direction, Error, ExportScope, RowCount, RowRange,
    SortKey, ViewSpec, Viewport, ViewportRequest, ViewportSource,
};

fn no_header() -> Dialect {
    Dialect { has_header: false, ..Dialect::default() }
}

fn cells(viewport: &Viewport) -> Vec<Vec<Vec<u8>>> {
    viewport
        .rows
        .iter()
        .map(|row| row.iter().map(|cell| cell.0.to_vec()).collect())
        .collect()
}

#[test]
fn export_round_trips_through_reimport() {
    // Includes a quoted field containing the delimiter: the writer must re-quote it.
    let original = b"a,b\n\"x,y\",2\n3,4\n".to_vec();
    let table = CsvTable::from_bytes(original, no_header()).unwrap();
    let columns = [ColumnId(0), ColumnId(1)];

    let mut out = Vec::new();
    export_csv(
        &table,
        &mut out,
        b',',
        ExportScope::Source,
        &columns,
        None,
        &CancellationToken::new(),
    )
    .unwrap();

    let reimported = CsvTable::from_bytes(out, no_header()).unwrap();
    let request = ViewportRequest {
        rows: RowRange { start: 0, len: 10 },
        columns: columns.to_vec(),
    };
    let before = table.fetch(&request, &CancellationToken::new()).unwrap();
    let after = reimported.fetch(&request, &CancellationToken::new()).unwrap();
    assert_eq!(cells(&before), cells(&after));
}

#[test]
fn an_exported_table_has_the_same_rows_when_it_is_opened_again() {
    let mut source = b"k;v;w\n".to_vec();
    for i in 0..2100 {
        source.extend_from_slice(format!("{i};\"a;\n\"\"{i}\";\n").as_bytes());
    }
    let dialect = Dialect { delimiter: b';', ..Dialect::default() };
    let table = CsvTable::from_bytes(source, dialect).unwrap();
    let columns = [ColumnId(2), ColumnId(1), ColumnId(0)];
    let names = [b"w".to_vec(), b"v".to_vec(), b"k".to_vec()];
    let cancel = CancellationToken::new();
    let mut out = Vec::new();
    export_csv(&table, &mut out, b'|', ExportScope::Source, &columns, Some(&names), &cancel)
        .unwrap();
    let copy =
        CsvTable::from_bytes(out, Dialect { delimiter: b'|', ..Dialect::default() }).unwrap();
    assert_eq!(copy.source_count(), table.source_count());
    let all = |columns: &[ColumnId]| ViewportRequest {
        rows: RowRange { start: 0, len: 2100 },
        columns: columns.to_vec(),
    };
    let before = table.fetch(&all(&columns), &cancel).unwrap();
    let after = copy.fetch(&all(&[ColumnId(0), ColumnId(1), ColumnId(2)]), &cancel).unwrap();
    assert_eq!(cells(&before)[2099], vec![b"".to_vec(), b"a;\n\"2099".to_vec(), b"2099".to_vec()]);
    assert_eq!(cells(&before), cells(&after));
}

#[test]
fn a_cancelled_export_leaves_what_was_there() {
    let table = CsvTable::from_bytes(b"a\n1\n2\n".to_vec(), Dialect::default()).unwrap();
    let cancel = CancellationToken::new();
    cancel.cancel();
    let names = [b"a".to_vec()];
    let columns = [ColumnId(0)];
    let mut out = b"before\n".to_vec();
    let failed =
        export_csv(&table, &mut out, b',', ExportScope::Source, &columns, Some(&names), &cancel);
    assert!(matches!(failed, Err(Error::Cancelled)));
    assert_eq!(out, b"before\na\n");
    let mut out = b"before\n".to_vec();
    let failed = export_ndjson(&table, &mut out, ExportScope::Source, &columns, &names, &cancel);
    assert!(matches!(failed, Err(Error::Cancelled)));
    assert_eq!(out, b"before\n");
}

#[test]
fn export_ndjson_writes_one_text_object_per_row() {
    let table =
        CsvTable::from_bytes(b"name,age\nbob,30\nann,25\n".to_vec(), Dialect::default()).unwrap();
    let columns = [ColumnId(0), ColumnId(1)];
    let names = [b"name".to_vec(), b"age".to_vec()];

    let mut out = Vec::new();
    export_ndjson(
        &table,
        &mut out,
        ExportScope::Source,
        &columns,
        &names,
        &CancellationToken::new(),
    )
    .unwrap();

    // Keys in column order; values as their displayed text (strings).
    assert_eq!(
        String::from_utf8(out).unwrap(),
        "{\"name\":\"bob\",\"age\":\"30\"}\n{\"name\":\"ann\",\"age\":\"25\"}\n"
    );
}

#[test]
fn the_view_and_the_source_are_exported_apart() {
    let mut table = CsvTable::from_bytes(b"n\n3\n1\n2\n".to_vec(), Dialect::default()).unwrap();
    table
        .set_view(&ViewSpec {
            filter: None,
            sort: Some(SortKey { column: ColumnId(0), direction: Direction::Ascending }),
        })
        .unwrap();
    let header = [b"n".to_vec()];
    for (scope, expected) in [
        (ExportScope::CurrentView, &b"n\n1\n2\n3\n"[..]),
        (ExportScope::Source, &b"n\n3\n1\n2\n"[..]),
    ] {
        let mut out = Vec::new();
        export_csv(
            &table,
            &mut out,
            b',',
            scope,
            &[ColumnId(0)],
            Some(&header),
            &CancellationToken::new(),
        )
        .unwrap();
        assert_eq!(out, expected);
    }
}

#[test]
fn a_header_of_another_width_fails() {
    let table = CsvTable::from_bytes(b"a,b\n1,2\n".to_vec(), Dialect::default()).unwrap();
    let header = [b"only".to_vec()];
    let result = export_csv(
        &table,
        &mut Vec::new(),
        b',',
        ExportScope::Source,
        &[ColumnId(0), ColumnId(1)],
        Some(&header),
        &CancellationToken::new(),
    );
    assert!(matches!(
        result,
        Err(Error::Io(text)) if text == "records have different numbers of fields"
    ));
}

#[test]
fn an_export_is_cancellable() {
    let table = CsvTable::from_bytes(b"a\n1\n".to_vec(), Dialect::default()).unwrap();
    let cancel = CancellationToken::new();
    cancel.cancel();
    let mut out = Vec::new();
    let result = export_csv(
        &table,
        &mut out,
        b'\t',
        ExportScope::CurrentView,
        &[ColumnId(0)],
        None,
        &cancel,
    );
    assert!(matches!(result, Err(Error::Cancelled)));
    let result = export_ndjson(
        &table,
        &mut out,
        ExportScope::CurrentView,
        &[ColumnId(0)],
        &[b"a".to_vec()],
        &cancel,
    );
    assert!(matches!(result, Err(Error::Cancelled)));
}

#[test]
fn many_batches_export_every_row_once() {
    let mut data = Vec::from(&b"i\n"[..]);
    for i in 0..2500u32 {
        data.extend_from_slice(format!("{i}\n").as_bytes());
    }
    let table = CsvTable::from_bytes(data.clone(), Dialect::default()).unwrap();
    let mut out = Vec::new();
    let header = [b"i".to_vec()];
    export_csv(
        &table,
        &mut out,
        b',',
        ExportScope::Source,
        &[ColumnId(0)],
        Some(&header),
        &CancellationToken::new(),
    )
    .unwrap();
    assert_eq!(out, data);

    let mut cursor = ExportCursor::new(&table, ExportScope::Source);
    let mut seen = 0u64;
    while let Some(rows) = cursor
        .next_batch(&table, &[ColumnId(0)], &CancellationToken::new())
        .unwrap()
    {
        seen += rows.len() as u64;
        assert_eq!(cursor.progress(), (seen, 2500));
    }
    assert_eq!(seen, 2500);
}

#[test]
fn missing_names_are_made_up() {
    assert_eq!(field_name(b"", 4), "col4");
    assert_eq!(field_name(b"id", 4), "id");
    assert_eq!(field_name(&[b'a', 0xff], 0), "a\u{fffd}");
}

#[test]
fn one_empty_field_is_quoted_so_that_the_line_stays() {
    let mut out = Vec::new();
    let mut width = None;
    assert!(push_csv_record(&mut out, &mut width, &vec![Cell(Vec::new())], b','));
    assert_eq!(out, b"\"\"\n");
    assert!(!push_csv_record(&mut out, &mut width, &vec![], b','));
}

#[test]
fn an_export_goes_batch_by_batch() {
    let columns = [ColumnId(1), ColumnId(0)];
    let mut cursor = ExportCursor::over(ExportScope::Source, RowCount::Exact(1030));
    let request = cursor.request(&columns).unwrap();
    assert_eq!((request.rows.start, request.rows.len), (0, 1024));
    assert_eq!(request.columns, columns.to_vec());
    cursor.advance(1024);
    assert_eq!(cursor.progress(), (1024, 1030));
    let request = cursor.request(&columns).unwrap();
    assert_eq!((request.rows.start, request.rows.len), (1024, 6));
    cursor.advance(6);
    assert!(cursor.request(&columns).is_none());
    cursor.advance(usize::MAX);
    assert_eq!(cursor.progress(), (u64::MAX, 1030));
}
