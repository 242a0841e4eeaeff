use std::sync::Arc;

use arrow::array::{Int64Array, RecordBatch, StringArray};
use arrow::datatypes::{DataType, Field, Schema as ArrowSchema};
use parquet::arrow::ArrowWriter;
use parquet::file::properties::WriterProperties;
use tableizer::columnar::{
    ascending_set, inferred_type, row_selection, FetchPlan, FieldInfo, FieldKind, ParquetState,
    Selector,
};
use tableizer::export::{export_csv, export_parquet};
use tableizer::parquet_file::{is_framed, refuse_unframed, reread_export};
use tableizer::parse::Dialect;
use tableizer::{
    CancellationToken, ColumnId, CsvTable, Direction, Error, ExportScope, FilterSpec, InferredType,
    ParquetTable, RowCount, RowRange, SortKey, ViewSpec, Viewport, ViewportRequest, ViewportSource,
};

/// The type of texts.
const TEXT: FieldKind =
    FieldKind { boolean: false, integer: false, floating: false, decimal: false, width: None };

/// The file with another number of rows in its footer, as it is encoded there.
fn with_told_rows(mut file: Vec<u8>, told: u8, encoded: u8) -> Vec<u8> {
    let at = file.windows(3).rposition(|w| w == [0x16, told, 0x19]).unwrap();
    file[at + 1] = encoded;
    file
}

/// A `name: Utf8, age: Int64` Parquet file with small row groups (so multi-row-group random access is
/// exercised).
fn write_sample(
    names: Vec<Option<&str>>,
    ages: Vec<Option<i64>>,
    row_group_size: usize,
) -> Vec<u8> {
    let schema = Arc::new(ArrowSchema::new(vec![
        Field::new("name", DataType::Utf8, true),
        Field::new("age", DataType::Int64, true),
    ]));
    let batch = RecordBatch::try_new(
        schema.clone(),
        vec![
            Arc::new(StringArray::from(names)),
            Arc::new(Int64Array::from(ages)),
        ],
    )
    .unwrap();
    let props = WriterProperties::builder()
        .set_max_row_group_row_count(Some(row_group_size))
        .build();
    let mut writer = ArrowWriter::try_new(Vec::new(), schema, Some(props)).unwrap();
    writer.write(&batch).unwrap();
    writer.into_inner().unwrap()
}

fn open(file: Vec<u8>) -> ParquetTable {
    ParquetTable::from_bytes(file).unwrap()
}

fn fetch(table: &ParquetTable, start: u64, len: u32, columns: &[u32]) -> Viewport {
    let columns: Vec<ColumnId> = columns.iter().copied().map(ColumnId).collect();
    let request = ViewportRequest { rows: RowRange { start, len }, columns };
    table.fetch(&request, &CancellationToken::new()).unwrap()
}

fn cells(viewport: &Viewport) -> Vec<Vec<String>> {
    viewport
        .rows
        .iter()
        .map(|row| row.iter().map(|c| String::from_utf8_lossy(&c.0).into_owned()).collect())
        .collect()
}

#[test]
fn schema_names_and_types_come_from_metadata() {
    let file = write_sample(vec![Some("a")], vec![Some(1)], 100);
    let table = open(file);
    let cols = &table.schema().columns;
    assert_eq!(cols.len(), 2);
    assert_eq!(cols[0].name, b"name");
    assert_eq!(cols[0].inferred, InferredType::Text);
    assert_eq!(cols[1].name, b"age");
    assert_eq!(cols[1].inferred, InferredType::Integer);
    assert!(matches!(table.row_count(), RowCount::Exact(1)));
}

#[test]
fn fetch_renders_and_projects_in_requested_order() {
    let file = write_sample(vec![Some("bob"), Some("ann")], vec![Some(30), Some(25)], 100);
    let table = open(file);
    // Columns reversed: age, name.
    let viewport = fetch(&table, 0, 2, &[1, 0]);
    assert_eq!(
        cells(&viewport),
        vec![
            vec!["30".to_string(), "bob".to_string()],
            vec!["25".to_string(), "ann".to_string()],
        ]
    );
}

#[test]
fn nulls_render_as_empty() {
    let file = write_sample(vec![Some("a"), None], vec![Some(1), None], 100);
    let mut table = open(file);
    let viewport = fetch(&table, 0, 2, &[0, 1]);
    assert_eq!(
        cells(&viewport),
        vec![
            vec!["a".to_string(), "1".to_string()],
            vec![String::new(), String::new()],
        ]
    );
}

#[test]
fn random_access_across_row_groups() {
    let names = (0..5).map(|_| Some("x")).collect();
    let ages = (0..5i64).map(Some).collect();
    let file = write_sample(names, ages, 2); // 3 row groups: [0,1] [2,3] [4]
    let mut table = open(file);
    assert!(matches!(table.row_count(), RowCount::Exact(5)));
    // Row 4 lives in the third row group; reading it must skip the first two.
    let viewport = fetch(&table, 4, 1, &[1]);
    assert_eq!(cells(&viewport), vec![vec!["4".to_string()]]);
}

#[test]
fn parquet_global_filter_hides_non_matching_rows() {
    let file = write_sample(
        vec![Some("apple"), Some("banana"), Some("avocado")],
        vec![Some(1), Some(2), Some(3)],
        2,
    );
    let mut table = open(file);
    table.set_view(&ViewSpec {
        filter: Some(FilterSpec {
            query: "av".into(),
            regex: false,
            invert: false,
            case_sensitive: false,
        }),
        sort: None,
    }).unwrap();
    assert!(!table.view_status().building);

    assert!(matches!(table.row_count(), RowCount::Exact(1)));
    let viewport = fetch(&table, 0, 10, &[0]);
    assert_eq!(cells(&viewport), vec![vec!["avocado".to_string()]]);
}

#[test]
fn parquet_global_sort_orders_rows_numerically() {
    let file = write_sample(
        vec![Some("c"), Some("a"), Some("b")],
        vec![Some(3), Some(1), Some(2)],
        2,
    );
    let mut table = open(file);
    table.set_view(&ViewSpec {
        filter: None,
        sort: Some(SortKey {
            column: ColumnId(1), // age
            direction: Direction::Ascending,
        }),
    }).unwrap();
    assert!(!table.view_status().building);

    let viewport = fetch(&table, 0, 3, &[0, 1]);
    assert_eq!(
        cells(&viewport),
        vec![
            vec!["a".to_string(), "1".to_string()],
            vec!["b".to_string(), "2".to_string()],
            vec!["c".to_string(), "3".to_string()],
        ]
    );
}

#[test]
fn export_parquet_round_trips_through_the_reader() {
    let table =
        CsvTable::from_bytes(b"name,age\nbob,30\nann,25\n".to_vec(), Dialect::default()).unwrap();
    let columns = [ColumnId(0), ColumnId(1)];
    let names = [b"name".to_vec(), b"age".to_vec()];

    let mut out = Vec::new();
    export_parquet(
        &table,
        &mut out,
        ExportScope::Source,
        &columns,
        &names,
        &CancellationToken::new(),
    )
    .unwrap();
    let reimported = open(out);
    assert_eq!(reimported.schema().columns[0].name, b"name");
    let viewport = fetch(&reimported, 0, 2, &[0, 1]);
    assert_eq!(cells(&viewport)[0], vec!["bob", "30"]);
    assert_eq!(cells(&viewport)[1], vec!["ann", "25"]);
}

#[test]
fn an_export_is_read_again_in_a_view() {
    let table =
        CsvTable::from_bytes(b"name,age\nbob,30\nann,25\nbo,4\n".to_vec(), Dialect::default())
            .unwrap();
    let reread = |spec: &ViewSpec, columns: &[ColumnId], cancel: &CancellationToken| {
        let names = [b"age".to_vec(), b"name".to_vec()];
        let request =
            ViewportRequest { rows: RowRange { start: 0, len: 9 }, columns: vec![ColumnId(1)] };
        reread_export(&table, ExportScope::Source, columns, &names, spec, &request, cancel)
    };
    let columns = [ColumnId(1), ColumnId(0)];
    let cancel = CancellationToken::new();
    let filter =
        FilterSpec { query: "B".into(), regex: false, invert: false, case_sensitive: false };
    let sort = SortKey { column: ColumnId(0), direction: Direction::Ascending };
    let spec = ViewSpec { filter: Some(filter), sort: Some(sort) };
    let (copy, viewport) = reread(&spec, &columns, &cancel).ok().unwrap();
    assert_eq!(cells(&viewport), vec![vec!["bo"], vec!["bob"]]);
    assert_eq!(copy.source_count(), RowCount::Exact(3));
    assert_eq!(copy.row_count(), RowCount::Exact(2));
    assert_eq!(copy.schema().columns[0].name, b"age");

    let refused =
        FilterSpec { query: "(".into(), regex: true, invert: false, case_sensitive: false };
    let spec = ViewSpec { filter: Some(refused), sort: None };
    assert!(matches!(reread(&spec, &columns, &cancel), Err(Error::InvalidPattern(_))));
    let all = ViewSpec { filter: None, sort: None };
    assert!(matches!(reread(&all, &[], &cancel), Err(Error::Io(_))));
    cancel.cancel();
    assert!(matches!(reread(&all, &columns, &cancel), Err(Error::Cancelled)));
}

#[test]
fn a_parquet_export_without_columns_fails_and_one_that_is_cancelled_writes_nothing() {
    let table = CsvTable::from_bytes(b"a\n1\n".to_vec(), Dialect::default()).unwrap();
    let mut out = Vec::new();
    let failed = export_parquet(
        &table,
        &mut out,
        ExportScope::Source,
        &[],
        &[],
        &CancellationToken::new(),
    );
    assert!(matches!(failed, Err(Error::Io(_))));
    let cancel = CancellationToken::new();
    cancel.cancel();
    let cancelled = export_parquet(
        &table,
        &mut out,
        ExportScope::Source,
        &[ColumnId(0)],
        &[b"a".to_vec()],
        &cancel,
    );
    assert!(matches!(cancelled, Err(Error::Cancelled)));
    assert!(out.is_empty());
}

#[test]
fn a_repeated_request_reads_nothing() {
    let fields = [
        FieldInfo { name: "name".to_string(), kind: TEXT },
        FieldInfo { name: "age".to_string(), kind: FieldKind { integer: true, width: Some(8), ..TEXT } },
    ];
    let mut state = ParquetState::new(&fields, 2);
    let rows = state.resolve(RowRange { start: 0, len: 2 });
    let FetchPlan::Read(plan) = state.plan(&rows, &[ColumnId(0)]) else { panic!("nothing read") };
    assert_eq!((plan.roots.clone(), plan.rows.clone()), (vec![0], vec![0, 1]));
    let read = vec![vec![b"a".to_vec()], vec![b"b".to_vec()]];
    let first = state.finish(&plan, &read, &rows, &[ColumnId(0)]);
    assert_eq!(cells(&first), vec![vec!["a"], vec!["b"]]);
    match state.plan(&rows, &[ColumnId(0)]) {
        FetchPlan::Done(viewport) => assert_eq!(cells(&viewport), cells(&first)),
        FetchPlan::Read(_) => panic!("read again"),
    }
    assert!(matches!(state.plan(&rows, &[ColumnId(1)]), FetchPlan::Read(_)));
}

#[test]
fn what_is_kept_is_what_is_fetched() {
    let file = write_sample(vec![Some("a"), Some("b")], vec![Some(1), Some(2)], 1);
    let mut table = open(file);
    let request =
        ViewportRequest { rows: RowRange { start: 0, len: 3 }, columns: vec![ColumnId(1), ColumnId(9)] };
    let token = CancellationToken::new();
    let read = table.fetch_keeping(&request, &token).unwrap();
    assert_eq!(cells(&read), vec![vec!["1", ""], vec!["2", ""], vec!["", ""]]);
    // What is kept is given even where reading is cancelled.
    token.cancel();
    assert_eq!(cells(&table.fetch_keeping(&request, &token).unwrap()), cells(&read));
    assert_eq!(cells(&table.fetch(&request, &token).unwrap()), cells(&read));
    // So is what is not in the file, of which nothing is read.
    for (start, column) in [(2, 0), (0, 7)] {
        let outside =
            ViewportRequest { rows: RowRange { start, len: 1 }, columns: vec![ColumnId(column)] };
        assert_eq!(cells(&table.fetch(&outside, &token).unwrap()), vec![vec![""]]);
    }
    let other = ViewportRequest { rows: RowRange { start: 0, len: 1 }, columns: vec![ColumnId(0)] };
    assert!(matches!(table.fetch(&other, &token), Err(Error::Cancelled)));
}

#[test]
fn bytes_that_are_no_parquet_file_are_refused() {
    assert!(matches!(ParquetTable::from_bytes(b"name,age\n".to_vec()), Err(Error::Io(_))));
    assert!(matches!(ParquetTable::from_bytes(Vec::new()), Err(Error::Io(_))));
}

#[test]
fn a_file_whose_pages_are_broken_opens_but_cannot_be_read() {
    let mut file = write_sample(vec![Some("a"), Some("b")], vec![Some(1), Some(2)], 100);
    // The footer stays; the pages behind the magic number do not.
    for byte in &mut file[4..40] {
        *byte = 0xff;
    }
    let mut table = open(file);
    assert!(matches!(table.source_count(), RowCount::Exact(2)));
    let request = ViewportRequest { rows: RowRange { start: 0, len: 2 }, columns: vec![ColumnId(0)] };
    assert!(matches!(table.fetch(&request, &CancellationToken::new()), Err(Error::Io(_))));
    let sort = SortKey { column: ColumnId(0), direction: Direction::Ascending };
    let spec = ViewSpec { filter: None, sort: Some(sort) };
    assert!(matches!(table.set_view(&spec), Err(Error::Io(_))));
    assert!(!table.view_status().building);
    assert!(matches!(table.row_count(), RowCount::Exact(2)));
}

#[test]
fn a_view_scans_every_row_whatever_the_footer_counts() {
    let file = write_sample(vec![Some("b"), Some("a")], vec![Some(1), Some(2)], 100);
    // Numbers are encoded doubled: the footer tells of two rows, and then of one.
    let mut table = open(with_told_rows(file.clone(), 4, 2));
    assert_eq!(table.source_count(), RowCount::Exact(1));
    for column in [0, 7] {
        let sort = SortKey { column: ColumnId(column), direction: Direction::Ascending };
        table.set_view(&ViewSpec { filter: None, sort: Some(sort) }).unwrap();
        assert_eq!(table.row_count(), RowCount::Exact(2));
    }
    let filter =
        FilterSpec { query: "2".into(), regex: false, invert: false, case_sensitive: false };
    table.set_view(&ViewSpec { filter: Some(filter), sort: None }).unwrap();
    assert_eq!(table.row_count(), RowCount::Exact(1));
    // A number below zero counts as none.
    let table = open(with_told_rows(file, 4, 1));
    assert_eq!(table.source_count(), RowCount::Exact(0));
}

#[test]
fn bytes_without_a_frame_are_refused_and_others_given_back() {
    let file = write_sample(vec![Some("a")], vec![Some(1)], 100);
    assert!(is_framed(&file));
    assert_eq!(refuse_unframed(file.clone()).ok(), Some(file.clone()));
    for bytes in [b"".to_vec(), b"PAR1".to_vec(), b"name,age\n".to_vec(), file[..20].to_vec()] {
        assert!(!is_framed(&bytes));
        assert!(matches!(refuse_unframed(bytes), Err(Error::Io(_))));
    }
    // A footer that is longer than the file has a frame, and cannot be read.
    let long = b"\xff\xff\x00\x00PAR1".to_vec();
    assert!(is_framed(&long));
    assert!(matches!(ParquetTable::from_bytes(long), Err(Error::Io(_))));
}

#[test]
fn every_row_of_a_file_is_exported() {
    let ages: Vec<Option<i64>> = (0..2_500i64).map(Some).collect();
    let names = ages.iter().map(|_| Some("x")).collect();
    let table = open(write_sample(names, ages, 700));
    let mut out = Vec::new();
    let cancel = CancellationToken::new();
    export_csv(&table, &mut out, b',', ExportScope::Source, &[ColumnId(1)], None, &cancel).unwrap();
    let expected: String = (0..2_500).map(|i| format!("{i}\n")).collect();
    assert_eq!(String::from_utf8(out).unwrap(), expected);
}

#[test]
fn a_sort_by_a_column_that_is_not_there_keeps_the_order() {
    let file = write_sample(vec![Some("b"), Some("a")], vec![Some(2), Some(1)], 100);
    let mut table = open(file);
    let sort = SortKey { column: ColumnId(7), direction: Direction::Descending };
    table.set_view(&ViewSpec { filter: None, sort: Some(sort) }).unwrap();
    assert_eq!(cells(&fetch(&table, 0, 2, &[0])), vec![vec!["b"], vec!["a"]]);
    table.clear_view();
    assert_eq!(cells(&fetch(&table, 0, 2, &[0])), vec![vec!["b"], vec!["a"]]);
    let filter = FilterSpec { query: "(".into(), regex: true, invert: false, case_sensitive: false };
    let refused = table.set_view(&ViewSpec { filter: Some(filter), sort: None });
    assert!(matches!(refused, Err(Error::InvalidPattern(_))));
}

#[test]
fn many_batches_are_read_in_order() {
    let ages: Vec<Option<i64>> = (0..20_000i64).map(Some).collect();
    let names = ages.iter().map(|_| Some("x")).collect();
    let mut table = open(write_sample(names, ages, 7_000));
    let viewport = fetch(&table, 0, 20_000, &[1]);
    assert_eq!(viewport.rows.len(), 20_000);
    assert_eq!(viewport.rows[8_192][0].0, b"8192");
    let sort = SortKey { column: ColumnId(1), direction: Direction::Descending };
    table.set_view(&ViewSpec { filter: None, sort: Some(sort) }).unwrap();
    assert_eq!(cells(&fetch(&table, 0, 2, &[1])), vec![vec!["19999"], vec!["19998"]]);
}

#[test]
fn a_selection_skips_the_gaps() {
    let selectors = row_selection(&[0, 1, 4, 7, 8]);
    let runs: Vec<(bool, u64)> = selectors
        .iter()
        .map(|s| match s {
            Selector::Skip(n) => (false, *n),
            Selector::Select(n) => (true, *n),
        })
        .collect();
    assert_eq!(
        runs,
        vec![(true, 2), (false, 2), (true, 1), (false, 2), (true, 2)]
    );
    assert_eq!(ascending_set(&[5, 1, 5, 9, 0], 9), vec![0, 1, 5]);
}

#[test]
fn types_are_mapped_for_alignment() {
    let inferred = |kind: FieldKind| inferred_type(kind);
    assert_eq!(inferred(FieldKind { boolean: true, ..TEXT }), InferredType::Boolean);
    assert_eq!(inferred(FieldKind { integer: true, width: Some(1), ..TEXT }), InferredType::Integer);
    assert_eq!(inferred(FieldKind { floating: true, width: Some(2), ..TEXT }), InferredType::Float);
    for (width, expected) in [
        (4, InferredType::Text),
        (8, InferredType::Text),
        (16, InferredType::Float),
        (32, InferredType::Float),
    ] {
        let kind = FieldKind { decimal: true, width: Some(width), ..TEXT };
        assert_eq!(inferred(kind), expected, "{width}");
    }
    assert_eq!(inferred(TEXT), InferredType::Text);
    assert_eq!(inferred(FieldKind { width: Some(16), ..TEXT }), InferredType::Text);

    // The types of a file are told apart the same way.
    let types = [
        (DataType::Boolean, InferredType::Boolean),
        (DataType::Int8, InferredType::Integer),
        (DataType::UInt64, InferredType::Integer),
        (DataType::Float16, InferredType::Float),
        (DataType::Float32, InferredType::Float),
        (DataType::Float64, InferredType::Float),
        (DataType::Decimal128(20, 2), InferredType::Float),
        (DataType::Decimal256(50, 2), InferredType::Float),
        (DataType::Date32, InferredType::Text),
        (DataType::Utf8, InferredType::Text),
        (DataType::Binary, InferredType::Text),
    ];
    let fields: Vec<Field> =
        types.iter().enumerate().map(|(i, (t, _))| Field::new(format!("c{i}"), t.clone(), true)).collect();
    let schema = Arc::new(ArrowSchema::new(fields));
    let writer = ArrowWriter::try_new(Vec::new(), schema, None).unwrap();
    let table = open(writer.into_inner().unwrap());
    for (column, (data_type, expected)) in table.schema().columns.iter().zip(&types) {
        assert_eq!(column.inferred, *expected, "{data_type}");
    }
}
