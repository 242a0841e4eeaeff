use tableizer::index::{IndexBuilder, OffsetIndex};
use tableizer::parse::Dialect;
use tableizer::{CancellationToken, Error};

#[test]
fn reports_the_byte_offset_of_each_record() {
    // Two simple records: "a,b\n" (bytes 0..4) then "c,d\n" (bytes 4..8).
    let csv: &[u8] = b"a,b\nc,d\n";
    let index = OffsetIndex::build(csv, &Dialect::default()).unwrap();

    assert_eq!(index.row_count(), 2);
    assert_eq!(index.offset_of_row(csv, 0), Some(0));
    assert_eq!(index.offset_of_row(csv, 1), Some(4));
    assert_eq!(index.offset_of_row(csv, 2), None);
}

#[test]
fn embedded_newline_inside_quotes_is_not_a_record_boundary() {
    let csv: &[u8] = b"\"x\ny\",1\n2,3\n";
    let index = OffsetIndex::build(csv, &Dialect::default()).unwrap();

    assert_eq!(index.row_count(), 2);
    assert_eq!(index.offset_of_row(csv, 1), Some(8));
}

#[test]
fn resolves_offsets_across_many_anchors_including_quoted_newlines() {
    let mut data = Vec::new();
    let mut expected = Vec::new();
    for i in 0..3000u32 {
        expected.push(data.len() as u64);
        if i == 1500 {
            data.extend_from_slice(b"\"emb\nedded\",x\n");
        } else {
            data.extend_from_slice(format!("row{i},val{i}\n").as_bytes());
        }
    }

    let index = OffsetIndex::build(&data, &Dialect::default()).unwrap();

    assert_eq!(index.row_count(), 3000);
    for &row in &[0u64, 1, 1023, 1024, 1025, 1499, 1500, 1501, 2999] {
        assert_eq!(
            index.offset_of_row(&data, row),
            Some(expected[row as usize]),
            "row {row}"
        );
    }
    assert_eq!(index.offset_of_row(&data, 3000), None);
}

#[test]
fn offsets_rise_strictly_past_a_mark_at_a_kept_offset() {
    // Record 1024, whose offset is kept, starts with a byte order mark.
    let lines = |mark: &[u8]| {
        let mut data = Vec::new();
        let mut starts = Vec::new();
        for row in 0..1100 {
            starts.push(data.len() as u64);
            if row == 1024 {
                data.extend_from_slice(mark);
            }
            data.extend_from_slice(format!("r{row},x\n").as_bytes());
        }
        (data, starts)
    };
    let (data, starts) = lines(b"\xef\xbb\xbf");
    let index = OffsetIndex::build(&data, &Dialect::default()).unwrap();
    assert_eq!(index.row_count(), 1100);
    for (row, start) in starts.iter().enumerate() {
        assert_eq!(index.offset_of_row(&data, row as u64), Some(*start), "{row}");
        assert!(*start < data.len() as u64);
    }
    assert_eq!(index.offset_of_row(&data, 1100), None);
    // A line that is nothing but a mark is a record, but not for a reader that starts with it.
    let (data, starts) = lines(b"\xef\xbb\xbf\n");
    let index = OffsetIndex::build(&data, &Dialect::default()).unwrap();
    assert_eq!(index.row_count(), 1101);
    assert_eq!(index.offset_of_row(&data, 1024), Some(starts[1024]));
    assert_eq!(index.offset_of_row(&data, 1026), Some(starts[1026]));
    assert_eq!(index.offset_of_row(&data, 1100), None);
}

#[test]
fn build_is_cancellable() {
    let cancel = CancellationToken::new();
    cancel.cancel();

    let result = OffsetIndex::build_with(b"a,b\nc,d\n", &Dialect::default(), &cancel, |_| {});

    assert!(matches!(result, Err(Error::Cancelled)));
}

#[test]
fn build_reports_non_decreasing_progress_ending_at_total_bytes() {
    let mut data = Vec::new();
    for i in 0..10_000u32 {
        data.extend_from_slice(format!("r{i}\n").as_bytes());
    }
    let cancel = CancellationToken::new();
    let mut seen = Vec::new();

    let index =
        OffsetIndex::build_with(&data, &Dialect::default(), &cancel, |p| seen.push(p)).unwrap();

    assert_eq!(index.row_count(), 10_000);
    assert!(!seen.is_empty(), "progress should be reported on a large file");
    let last = seen.last().unwrap();
    assert_eq!(last.rows_indexed, 10_000, "final progress reports all rows");
    assert_eq!(last.bytes_processed, data.len() as u64, "final progress is total bytes");
    assert!(
        seen.windows(2).all(|w| w[0].bytes_processed <= w[1].bytes_processed),
        "progress must be non-decreasing"
    );
}

#[test]
fn a_builder_reports_step_by_step() {
    let mut data = Vec::new();
    for i in 0..5_000u32 {
        data.extend_from_slice(format!("r{i}\n").as_bytes());
    }
    let mut builder = IndexBuilder::new(&data, &Dialect::default());
    let mut reports = 0;
    loop {
        let (progress, done) = builder.advance();
        reports += 1;
        assert!(progress.bytes_processed <= data.len() as u64);
        if done {
            assert_eq!(progress.rows_indexed, 5_000);
            break;
        }
    }
    assert!(reports > 1);
    assert_eq!(builder.finish().row_count(), 5_000);
}

#[test]
fn index_round_trips_through_serialization() {
    let csv: &[u8] = b"a,b\nc,d\ne,f\n";
    let index = OffsetIndex::build(csv, &Dialect::default()).unwrap();

    let restored = OffsetIndex::deserialize(&index.serialize()).expect("valid blob");

    assert_eq!(restored.row_count(), index.row_count());
    for row in 0..index.row_count() {
        assert_eq!(
            restored.offset_of_row(csv, row),
            index.offset_of_row(csv, row),
            "row {row}"
        );
    }
}

#[test]
fn deserialize_rejects_a_bad_blob() {
    assert!(OffsetIndex::deserialize(b"not an index at all").is_none());
    assert!(OffsetIndex::deserialize(&[]).is_none());
}

#[test]
fn counts_ragged_rows_and_round_trips_them() {
    // Record 1 ("c,d,e") has 3 fields against the first record's 2: one ragged row.
    let csv: &[u8] = b"a,b\nc,d,e\nf,g\n";
    let index = OffsetIndex::build(csv, &Dialect::default()).unwrap();
    assert_eq!(index.row_count(), 3);
    assert_eq!(index.ragged_rows(), 1);

    let restored = OffsetIndex::deserialize(&index.serialize()).expect("valid blob");
    assert_eq!(restored.ragged_rows(), 1);
}

#[test]
fn an_index_of_another_source_gives_no_offset_beyond_it() {
    let mut long = Vec::new();
    for i in 0..3000u32 {
        long.extend_from_slice(format!("row{i}\n").as_bytes());
    }
    let index = OffsetIndex::build(&long, &Dialect::default()).unwrap();
    assert_eq!(index.offset_of_row(b"short\n", 2500), None);
}

#[test]
fn blank_lines_are_no_records_and_an_empty_source_has_none() {
    let index = OffsetIndex::build(b"a\n\n\nb\n", &Dialect::default()).unwrap();
    assert_eq!(index.row_count(), 2);
    assert_eq!(OffsetIndex::build(b"", &Dialect::default()).unwrap().row_count(), 0);
}
