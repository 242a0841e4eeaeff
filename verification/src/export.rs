//! Writing a table out: as delimited text, as lines of JSON, or as columns of text.
//!
//! What is written of a cell is its bytes, whatever they look like. Either the active view is
//! written, or every row of the source in its order.
use std::sync::Arc;
use arrow::array::{ArrayRef, StringArray};
use arrow::datatypes::{DataType, Field, Schema as ArrowSchema};
use arrow::record_batch::RecordBatch;
use parquet::arrow::ArrowWriter;
use serde_json::{Map as JsonMap, Value};
use vstd::prelude::*;
use crate::cancel::CancellationToken;
use crate::error::Error;
use crate::json_value::ValueView;
use crate::table::column_label;
use crate::text::utf8_lossy;
use crate::viewport::{
    Cell, ColumnId, RowCount, RowRange, Viewport, ViewportRequest, ViewportSource,
};

verus! {

/// Which rows are written.
#[derive(Clone, Copy, Debug, PartialEq, Eq, Structural)]
pub enum ExportScope {
    /// The rows of the active view, in its order.
    CurrentView,
    /// Every row of the source, in its order.
    Source,
}

/// The rows that are fetched at once.
pub const BATCH: u32 = 1024;

/// A number of rows, whether or not counting goes on.
pub open spec fn count_of(count: RowCount) -> u64 {
    match count {
        RowCount::Exact(n) => n,
        RowCount::AtLeast(n) => n,
    }
}

/// How many rows are written.
pub open spec fn total_of<T: ViewportSource>(table: &T, scope: ExportScope) -> u64 {
    match scope {
        ExportScope::CurrentView => count_of(table.rows()),
        ExportScope::Source => count_of(table.source_rows()),
    }
}

/// The rows that a range of a table has.
pub open spec fn batch_of<T: ViewportSource>(
    table: &T,
    scope: ExportScope,
    columns: Seq<ColumnId>,
    range: RowRange,
) -> Seq<Seq<Seq<u8>>> {
    match scope {
        ExportScope::CurrentView => table.shown(range, columns),
        ExportScope::Source => table.stored(range, columns),
    }
}

/// The next rows to fetch.
pub open spec fn next_range(start: int, total: int) -> RowRange {
    RowRange {
        start: start as u64,
        len: (if total - start < BATCH {
            total - start
        } else {
            BATCH as int
        }) as u32,
    }
}

/// The rows that are written from `start` on: batch by batch, until there are no more.
pub open spec fn exported<T: ViewportSource>(
    table: &T,
    scope: ExportScope,
    columns: Seq<ColumnId>,
    start: int,
    total: int,
) -> Seq<Seq<Seq<u8>>>
    decreases
        if start < total {
            total - start
        } else {
            0
        },
{
    if start < 0 || start >= total {
        Seq::empty()
    } else {
        let batch = batch_of(table, scope, columns, next_range(start, total));
        if batch.len() == 0 {
            Seq::empty()
        } else {
            batch + exported(table, scope, columns, start + batch.len(), total)
        }
    }
}

/// The same rows, batch by batch.
pub open spec fn exported_batches<T: ViewportSource>(
    table: &T,
    scope: ExportScope,
    columns: Seq<ColumnId>,
    start: int,
    total: int,
) -> Seq<Seq<Seq<Seq<u8>>>>
    decreases
        if start < total {
            total - start
        } else {
            0
        },
{
    if start < 0 || start >= total {
        Seq::empty()
    } else {
        let batch = batch_of(table, scope, columns, next_range(start, total));
        if batch.len() == 0 {
            Seq::empty()
        } else {
            seq![batch] + exported_batches(table, scope, columns, start + batch.len(), total)
        }
    }
}

/// The batches that are written of a table.
pub open spec fn export_batches<T: ViewportSource>(
    table: &T,
    scope: ExportScope,
    columns: Seq<ColumnId>,
) -> Seq<Seq<Seq<Seq<u8>>>> {
    exported_batches(table, scope, columns, 0, total_of(table, scope) as int)
}

/// The rows of batches, one after another.
pub open spec fn batch_rows(batches: Seq<Seq<Seq<Seq<u8>>>>) -> Seq<Seq<Seq<u8>>>
    decreases batches.len(),
{
    if batches.len() == 0 {
        Seq::empty()
    } else {
        batches[0] + batch_rows(batches.drop_first())
    }
}

/// The batches hold the rows that are written, in order.
pub proof fn batches_hold_the_rows<T: ViewportSource>(
    table: &T,
    scope: ExportScope,
    columns: Seq<ColumnId>,
    start: int,
    total: int,
)
    ensures
        batch_rows(exported_batches(table, scope, columns, start, total)) == exported(
            table,
            scope,
            columns,
            start,
            total,
        ),
    decreases
        if start < total {
            total - start
        } else {
            0
        },
{
    if 0 <= start < total {
        let batch = batch_of(table, scope, columns, next_range(start, total));
        if batch.len() > 0 {
            let rest = exported_batches(table, scope, columns, start + batch.len(), total);
            batches_hold_the_rows(table, scope, columns, start + batch.len(), total);
            assert((seq![batch] + rest).drop_first() =~= rest);
        }
    }
}

/// The rows that are written of a table.
pub open spec fn export_rows<T: ViewportSource>(
    table: &T,
    scope: ExportScope,
    columns: Seq<ColumnId>,
) -> Seq<Seq<Seq<u8>>> {
    exported(table, scope, columns, 0, total_of(table, scope) as int)
}

/// Where every range within a table has its rows, every row of the table is written, in order.
pub proof fn every_row_is_exported<T: ViewportSource>(
    table: &T,
    scope: ExportScope,
    columns: Seq<ColumnId>,
    row: spec_fn(int) -> Seq<Seq<u8>>,
    start: int,
    total: int,
)
    requires
        0 <= start <= total <= u64::MAX,
        forall|range: RowRange|
            range.start + range.len <= total ==> #[trigger] batch_of(table, scope, columns, range)
                == Seq::new(range.len as nat, |i: int| row(range.start + i)),
    ensures
        exported(table, scope, columns, start, total) == Seq::new(
            (total - start) as nat,
            |i: int| row(start + i),
        ),
    decreases total - start,
{
    if start < total {
        let range = next_range(start, total);
        let batch = batch_of(table, scope, columns, range);
        every_row_is_exported(table, scope, columns, row, start + batch.len(), total);
    }
    assert(exported(table, scope, columns, start, total) =~= Seq::new(
        (total - start) as nat,
        |i: int| row(start + i),
    ));
}

/// Every row of a table over delimited text is written, in the order of the active view or of the
/// source.
pub proof fn every_csv_row_is_exported(
    table: &crate::table::CsvTable,
    scope: ExportScope,
    columns: Seq<ColumnId>,
)
    requires
        scope is CurrentView ==> (table.state().slot().shown() matches Some(rows) ==> rows.len()
            <= u64::MAX),
    ensures
        export_rows(table, scope, columns) == table.state().cells(
            table.source(),
            match (scope, table.state().slot().shown()) {
                (ExportScope::CurrentView, Some(rows)) => rows,
                _ => Seq::new(count_of(table.source_rows()) as nat, |i: int| i as u64),
            },
            columns,
        ),
{
    let total = total_of(table, scope) as int;
    let list = match (scope, table.state().slot().shown()) {
        (ExportScope::CurrentView, Some(rows)) => rows,
        _ => Seq::new(count_of(table.source_rows()) as nat, |i: int| i as u64),
    };
    assert(list.len() == total);
    let all = table.state().cells(table.source(), list, columns);
    let row = |i: int| all[i];
    assert forall|range: RowRange| range.start + range.len <= total implies #[trigger] batch_of(
        table,
        scope,
        columns,
        range,
    ) == Seq::new(range.len as nat, |i: int| row(range.start + i)) by {
        let part = list.subrange(range.start as int, range.start + range.len);
        match (scope, table.state().slot().shown()) {
            (ExportScope::CurrentView, Some(rows)) => {
                if range.len == 0 && range.start >= rows.len() {
                    assert(crate::view::resolved(Some(rows), range) =~= part);
                }
            },
            _ => {
                assert(crate::view::contiguous(range) =~= part);
            },
        }
        assert(batch_of(table, scope, columns, range) =~= Seq::new(
            range.len as nat,
            |i: int| row(range.start + i),
        ));
    }
    every_row_is_exported(table, scope, columns, row, 0, total);
    assert(export_rows(table, scope, columns) =~= all);
}

/// Every row of a table over JSON is written, in the order of the active view or of the source.
pub proof fn every_json_row_is_exported(
    table: &crate::json::JsonTable,
    scope: ExportScope,
    columns: Seq<ColumnId>,
)
    requires
        table.source().len() <= u64::MAX,
        crate::json::is_indexed(table),
        scope is CurrentView ==> crate::json::has_own_rows(table),
    ensures
        export_rows(table, scope, columns) == Seq::new(
            total_of(table, scope) as nat,
            |i: int|
                crate::json::row_cells(
                    table,
                    match (scope, table.state().slot().shown()) {
                        (ExportScope::CurrentView, Some(rows)) => rows[i] as int,
                        _ => i,
                    },
                    columns,
                ),
        ),
{
    let total = total_of(table, scope) as int;
    let list = match (scope, table.state().slot().shown()) {
        (ExportScope::CurrentView, Some(rows)) => rows,
        _ => Seq::new(count_of(table.source_rows()) as nat, |i: int| i as u64),
    };
    let row = |i: int| crate::json::row_cells(table, list[i] as int, columns);
    assert forall|range: RowRange| range.start + range.len <= total implies #[trigger] batch_of(
        table,
        scope,
        columns,
        range,
    ) == Seq::new(range.len as nat, |i: int| row(range.start + i)) by {
        let part = list.subrange(range.start as int, range.start + range.len);
        match (scope, table.state().slot().shown()) {
            (ExportScope::CurrentView, Some(rows)) => {
                assert(crate::view::resolved(Some(rows), range) =~= part);
            },
            _ => {
                assert(crate::view::contiguous(range) =~= part);
            },
        }
        crate::json::lemma_own_rows(table, part, columns);
        assert(batch_of(table, scope, columns, range) =~= Seq::new(
            range.len as nat,
            |i: int| row(range.start + i),
        ));
    }
    every_row_is_exported(table, scope, columns, row, 0, total);
    assert(export_rows(table, scope, columns) =~= Seq::new(
        total as nat,
        |i: int|
            crate::json::row_cells(
                table,
                match (scope, table.state().slot().shown()) {
                    (ExportScope::CurrentView, Some(rows)) => rows[i] as int,
                    _ => i,
                },
                columns,
            ),
    ));
}

/// Every row of a table over a Parquet file is written, in the order of the active view or of the
/// file: it is a row of the batch that it was asked for in.
pub proof fn every_parquet_row_is_exported(
    table: &crate::parquet_file::ParquetTable,
    scope: ExportScope,
    columns: Seq<ColumnId>,
)
    requires
        table.state().slot().shown() matches Some(rows) ==> rows.len() <= u64::MAX,
    ensures
        ({
            let total = total_of(table, scope) as int;
            let rows = export_rows(table, scope, columns);
            &&& rows.len() == total
            &&& forall|i: int|
                0 <= i < total ==> #[trigger] rows[i] == batch_of(
                    table,
                    scope,
                    columns,
                    next_range(i - i % BATCH as int, total),
                )[i % BATCH as int]
        }),
{
    let total = total_of(table, scope) as int;
    let rows = export_rows(table, scope, columns);
    lemma_parquet_rows(table, scope, columns, 0);
    assert forall|i: int| 0 <= i < total implies #[trigger] rows[i] == batch_of(
        table,
        scope,
        columns,
        next_range(i - i % BATCH as int, total),
    )[i % BATCH as int] by {
        assert(rows[i - 0] == rows[i]);
    }
}

proof fn lemma_parquet_rows(
    table: &crate::parquet_file::ParquetTable,
    scope: ExportScope,
    columns: Seq<ColumnId>,
    start: int,
)
    requires
        table.state().slot().shown() matches Some(rows) ==> rows.len() <= u64::MAX,
        0 <= start,
        start % BATCH as int == 0,
    ensures
        ({
            let total = total_of(table, scope) as int;
            let rows = exported(table, scope, columns, start, total);
            &&& rows.len() == (if start < total {
                total - start
            } else {
                0
            })
            &&& forall|i: int|
                start <= i < total ==> #[trigger] rows[i - start] == batch_of(
                    table,
                    scope,
                    columns,
                    next_range(i - i % BATCH as int, total),
                )[i % BATCH as int]
        }),
    decreases
        if start < total_of(table, scope) {
            total_of(table, scope) - start
        } else {
            0
        },
{
    let total = total_of(table, scope) as int;
    let rows = exported(table, scope, columns, start, total);
    if start < total {
        let range = next_range(start, total);
        let batch = batch_of(table, scope, columns, range);
        assert(batch.len() == range.len) by {
            if scope is CurrentView {
                if let Some(shown) = table.state().slot().shown() {
                    assert(crate::view::resolved(Some(shown), range).len() == range.len);
                }
            }
        }
        let rest = exported(table, scope, columns, start + batch.len(), total);
        if range.len == BATCH {
            lemma_parquet_rows(table, scope, columns, start + BATCH as int);
        }
        assert(rows == batch + rest);
        assert forall|i: int| start <= i < total implies #[trigger] rows[i - start] == batch_of(
            table,
            scope,
            columns,
            next_range(i - i % BATCH as int, total),
        )[i % BATCH as int] by {
            if i < start + batch.len() {
                assert(i - i % BATCH as int == start);
            } else {
                assert(rows[i - start] == rest[i - (start + BATCH as int)]);
            }
        }
    }
}

/// How far an export has come.
pub struct ExportCursor {
    scope: ExportScope,
    start: u64,
    total: u64,
}

impl ExportCursor {
    /// The rows that are still to be written.
    pub closed spec fn rest<T: ViewportSource>(
        &self,
        table: &T,
        columns: Seq<ColumnId>,
    ) -> Seq<Seq<Seq<u8>>> {
        exported(table, self.scope, columns, self.start as int, self.total as int)
    }

    /// The batches that are still to be written.
    pub closed spec fn batches<T: ViewportSource>(
        &self,
        table: &T,
        columns: Seq<ColumnId>,
    ) -> Seq<Seq<Seq<Seq<u8>>>> {
        exported_batches(table, self.scope, columns, self.start as int, self.total as int)
    }

    /// The rows that are gone through.
    pub closed spec fn position(&self) -> u64 {
        self.start
    }

    /// The rows in all.
    pub closed spec fn size(&self) -> u64 {
        self.total
    }

    /// Which rows are written.
    pub closed spec fn kind(&self) -> ExportScope {
        self.scope
    }

    /// At the start of an export of as many rows as are counted.
    pub fn over(scope: ExportScope, count: RowCount) -> (r: ExportCursor)
        ensures
            r.kind() == scope,
            r.position() == 0,
            r.size() == count_of(count),
    {
        let total: u64 = match count {
            RowCount::Exact(n) => n,
            RowCount::AtLeast(n) => n,
        };
        ExportCursor { scope, start: 0, total }
    }

    /// At the start of an export.
    pub fn new<T: ViewportSource>(table: &T, scope: ExportScope) -> (r: ExportCursor)
        requires
            table.wf(),
        ensures
            forall|columns: Seq<ColumnId>| #[trigger]
                r.rest(table, columns) == export_rows(table, scope, columns),
            forall|columns: Seq<ColumnId>| #[trigger]
                r.batches(table, columns) == export_batches(table, scope, columns),
            r.kind() == scope,
            r.position() == 0,
            r.size() == total_of(table, scope),
    {
        match scope {
            ExportScope::CurrentView => ExportCursor::over(scope, table.row_count()),
            ExportScope::Source => ExportCursor::over(scope, table.source_count()),
        }
    }

    /// How many rows are gone through, and how many there are in all.
    pub fn progress(&self) -> (r: (u64, u64))
        ensures
            r == (self.position(), self.size()),
    {
        (self.start, self.total)
    }

    /// The request for the next rows; none at the end.
    pub fn request(&self, columns: &[ColumnId]) -> (r: Option<ViewportRequest>)
        ensures
            r is None <==> self.position() >= self.size(),
            r matches Some(request) ==> request.rows == next_range(
                self.position() as int,
                self.size() as int,
            ) && request.columns@ == columns@,
    {
        if self.start >= self.total {
            return None;
        }
        let left: u64 = self.total - self.start;
        let len: u32 = if left < BATCH as u64 {
            left as u32
        } else {
            BATCH
        };
        Some(
            ViewportRequest {
                rows: RowRange { start: self.start, len },
                columns: vstd::slice::slice_to_vec(columns),
            },
        )
    }

    /// Goes past rows that were fetched.
    pub fn advance(&mut self, fetched: usize)
        ensures
            final(self).kind() == old(self).kind(),
            final(self).size() == old(self).size(),
            final(self).position() == (if old(self).position() + fetched <= u64::MAX {
                old(self).position() + fetched
            } else {
                u64::MAX as int
            }),
    {
        self.start = self.start.saturating_add(fetched as u64);
    }

    /// The next rows; none at the end. Fails only where `cancel` was raised or the table cannot be
    /// read.
    pub fn next_batch<T: ViewportSource>(
        &mut self,
        table: &T,
        columns: &[ColumnId],
        cancel: &CancellationToken,
    ) -> (r: Result<Option<Vec<Vec<Cell>>>, Error>)
        requires
            table.wf(),
        ensures
            final(self).kind() == old(self).kind(),
            final(self).size() == old(self).size(),
            match r {
                Ok(Some(rows)) => {
                    &&& rows@.len() > 0
                    &&& old(self).rest(table, columns@) == crate::viewport::grid_bytes(rows@)
                        + final(self).rest(table, columns@)
                    &&& old(self).batches(table, columns@) == seq![
                        crate::viewport::grid_bytes(rows@),
                    ] + final(self).batches(table, columns@)
                    &&& old(self).position() < old(self).size()
                    &&& final(self).position() > old(self).position()
                },
                Ok(None) => old(self).rest(table, columns@).len() == 0 && old(self).batches(
                    table,
                    columns@,
                ).len() == 0,
                Err(e) => crate::viewport::failed(table.reliable(), e) && old(self).position()
                    < old(self).size(),
            },
    {
        let request = match self.request(columns) {
            Some(request) => request,
            None => return Ok(None),
        };
        if cancel.is_cancelled() {
            return Err(Error::Cancelled);
        }
        let fetched = match self.scope {
            ExportScope::CurrentView => table.fetch(&request, cancel),
            ExportScope::Source => table.fetch_source(&request, cancel),
        };
        let viewport: Viewport = match fetched {
            Ok(v) => v,
            Err(e) => return Err(e),
        };
        if viewport.rows.len() == 0 {
            return Ok(None);
        }
        let ghost before = self.start as int;
        self.advance(viewport.rows.len());
        proof {
            if before + viewport@.len() > u64::MAX {
                assert(exported(
                    table,
                    self.scope,
                    columns@,
                    before + viewport@.len(),
                    self.total as int,
                ) =~= Seq::empty());
                assert(self.rest(table, columns@) =~= Seq::empty());
                assert(exported_batches(
                    table,
                    self.scope,
                    columns@,
                    before + viewport@.len(),
                    self.total as int,
                ) =~= Seq::empty());
                assert(self.batches(table, columns@) =~= Seq::empty());
            }
        }
        Ok(Some(viewport.rows))
    }
}

/// A record as a line of delimited text.
pub uninterp spec fn csv_line(fields: Seq<Seq<u8>>, delimiter: u8) -> Seq<u8>;

/// Whether a record is read from a line, whatever stands behind it, and a byte order mark stands
/// before the line only where the first field starts with it. A delimiter that is a byte of the mark
/// might complete one.
pub open spec fn reads_as(line: Seq<u8>, fields: Seq<Seq<u8>>, delimiter: u8) -> bool {
    &&& line.len() > 0
    &&& forall|rest: Seq<u8>|
        #[trigger] crate::records::first_record(line + rest, delimiter, 0x22) == Some(
            (fields, line.len() as int),
        )
    &&& delimiter != 0xef && delimiter != 0xbb && delimiter != 0xbf ==> forall|rest: Seq<u8>|
        #[trigger] crate::records::has_mark(line + rest) ==> crate::records::has_mark(fields[0])
}

/// Whether a record is read back from the line that it is written as.
pub open spec fn reads_back(fields: Seq<Seq<u8>>, delimiter: u8) -> bool {
    reads_as(csv_line(fields, delimiter), fields, delimiter)
}

/// Whether fields can be kept apart by a byte: it is neither the quote nor a line end.
pub open spec fn separates(delimiter: u8) -> bool {
    delimiter != 0x22 && delimiter != 0x0a && delimiter != 0x0d
}

/// `csv::Writer` writes a record as a line, with quotes where a field needs them. Where the delimiter
/// can separate fields and there are any, a `csv` reader with that delimiter and the usual quote
/// reads the fields back from the line. The line starts with the first field or with a quote, and
/// ends with a line end. Writing to memory does not fail.
#[verifier::external_body]
pub(crate) fn write_csv_line(fields: &[Cell], delimiter: u8) -> (line: Vec<u8>)
    ensures
        line@ == csv_line(crate::viewport::row_bytes(fields@), delimiter),
        separates(delimiter) && fields@.len() > 0 ==> reads_as(
            line@,
            crate::viewport::row_bytes(fields@),
            delimiter,
        ),
{
    let mut writer = csv::WriterBuilder::new().delimiter(delimiter).from_writer(Vec::new());
    let written = writer.write_record(fields.iter().map(|cell| cell.0.as_slice()));
    written.ok().and_then(|()| writer.into_inner().ok()).unwrap_or_default()
}

/// Records as lines of delimited text.
pub open spec fn csv_text(records: Seq<Seq<Seq<u8>>>, delimiter: u8) -> Seq<u8>
    decreases records.len(),
{
    if records.len() == 0 {
        Seq::empty()
    } else {
        csv_text(records.drop_last(), delimiter) + csv_line(records.last(), delimiter)
    }
}

/// Whether records have the same number of fields.
pub open spec fn same_width(records: Seq<Seq<Seq<u8>>>) -> bool {
    forall|i: int| 0 <= i < records.len() ==> (#[trigger] records[i]).len() == records[0].len()
}

/// Whether every record is read back from the line that it is written as.
pub open spec fn all_read_back(records: Seq<Seq<Seq<u8>>>, delimiter: u8) -> bool {
    forall|i: int| 0 <= i < records.len() ==> reads_back(#[trigger] records[i], delimiter)
}

/// What is written is read back: a table over the written text has the written records, with the
/// same fields. The one exception is a text that starts with the bytes of a byte order mark, which
/// a reader passes over.
pub proof fn exported_text_reads_back(records: Seq<Seq<Seq<u8>>>, delimiter: u8)
    requires
        all_read_back(records, delimiter),
        !crate::records::has_mark(csv_text(records, delimiter)),
    ensures
        crate::records::csv_rows(csv_text(records, delimiter), delimiter, 0x22).map_values(
            |r: crate::records::Row| r.fields,
        ) == records,
{
    lemma_reads_back_from(records, delimiter, 0);
    assert(csv_text(records.take(0), delimiter) =~= Seq::empty()) by {
        assert(records.take(0) =~= Seq::empty());
    }
    let rows = crate::records::csv_rows(csv_text(records, delimiter), delimiter, 0x22);
    assert(rows.map_values(|r: crate::records::Row| r.fields) =~= records) by {
        assert(records.skip(0) =~= records);
    }
}

/// The first columns.
pub open spec fn first_columns(n: nat) -> Seq<ColumnId> {
    Seq::new(n, |i: int| ColumnId(i as u32))
}

/// Whether every record is found again in the line that it is written as: the line is no longer than
/// what is looked at, and the first field does not start with a byte order mark, which a reader
/// passes over.
pub open spec fn all_found_again(records: Seq<Seq<Seq<u8>>>, delimiter: u8) -> bool {
    forall|i: int|
        0 <= i < records.len() ==> !crate::records::has_mark((#[trigger] records[i])[0])
            && csv_line(records[i], delimiter).len() <= crate::parse::MAX_RECORD_BYTES
}

/// A table that is exported as delimited text and opened again has the same rows: as many of them,
/// and each with the same cells, byte for byte.
#[verifier::spinoff_prover]
pub proof fn exported_table_reads_back(
    table: &crate::table::CsvTable,
    copy: &crate::table::CsvTable,
    columns: Seq<ColumnId>,
    header: Option<&[Vec<u8>]>,
    delimiter: u8,
    row: int,
)
    requires
        table.state().indexed() is Some,
        columns.len() <= u32::MAX,
        ({
            let records = header_records(header) + export_rows(
                table,
                ExportScope::Source,
                columns,
            );
            &&& all_read_back(records, delimiter)
            &&& all_found_again(records, delimiter)
            &&& copy.source() == csv_text(records, delimiter)
        }),
        delimiter != 0xef && delimiter != 0xbb && delimiter != 0xbf,
        copy.source().len() <= u64::MAX,
        copy.state().split().delimiter == delimiter,
        copy.state().split().quote == 0x22,
        copy.state().split().has_header == (header is Some),
        copy.state().indexed() == Some(
            crate::index::index_over(copy.source(), delimiter, 0x22),
        ),
        crate::records::all_settled(copy.source(), delimiter, 0x22),
    ensures
        copy.source_rows() == table.source_rows(),
        table.state().slot().shown() is None && copy.state().slot().shown() is None ==> copy.rows()
            == table.rows(),
        0 <= row < count_of(table.source_rows()) ==> copy.state().cells(
            copy.source(),
            seq![row as u64],
            first_columns(columns.len()),
        ) == table.state().cells(table.source(), seq![row as u64], columns),
{
    let rows = export_rows(table, ExportScope::Source, columns);
    let records = header_records(header) + rows;
    let (text, dialect) = (copy.source(), copy.state().split());
    let h = crate::table::header_rows(dialect);
    every_csv_row_is_exported(table, ExportScope::Source, columns);
    lemma_unmarked(records, delimiter);
    exported_text_reads_back(records, delimiter);
    let found = crate::table::rows_of(text, dialect);
    assert(found.map_values(|r: crate::records::Row| r.fields).len() == records.len());
    if found.len() > 0 {
        crate::records::records_lie_in_order(text, delimiter, 0x22, 0, 0);
    }
    assert(crate::table::grid_of(text, dialect) =~= rows) by {
        assert forall|i: int| 0 <= i < rows.len() implies found[h + i].fields == rows[i] by {
            assert(found.map_values(|r: crate::records::Row| r.fields)[h + i] == records[h + i]);
        }
    }
    if 0 <= row < count_of(table.source_rows()) {
        let all = first_columns(columns.len());
        assert(crate::table::readable(text, dialect, row + h));
        crate::table::indexed_rows_match_streamed_rows(text, dialect, row, all);
        assert(rows[row].len() == columns.len());
        assert(crate::viewport::projected(rows[row], all) =~= rows[row]);
        assert(copy.state().cells(text, seq![row as u64], all)[0] == rows[row]);
        assert(copy.state().cells(text, seq![row as u64], all) =~= table.state().cells(
            table.source(),
            seq![row as u64],
            columns,
        ));
    }
}

/// No record of a text starts with a byte order mark, and each takes up its line.
proof fn lemma_unmarked(records: Seq<Seq<Seq<u8>>>, delimiter: u8)
    requires
        all_read_back(records, delimiter),
        all_found_again(records, delimiter),
        delimiter != 0xef && delimiter != 0xbb && delimiter != 0xbf,
    ensures
        ({
            let text = csv_text(records, delimiter);
            let rows = crate::records::csv_rows(text, delimiter, 0x22);
            &&& !crate::records::has_mark(text)
            &&& rows.len() == records.len()
            &&& forall|i: int|
                0 <= i < rows.len() ==> !crate::records::has_mark(
                    text.skip((#[trigger] rows[i]).start),
                ) && rows[i].end - rows[i].start <= crate::parse::MAX_RECORD_BYTES
        }),
{
    let text = csv_text(records, delimiter);
    let none = records.take(0);
    assert(none =~= Seq::empty());
    assert(csv_text(none, delimiter).len() == 0);
    assert(text.skip(0) =~= text);
    if records.len() == 0 {
        assert(records =~= none);
    }
    assert forall|i: int| 0 <= i < records.len() implies !crate::records::has_mark(
        text.skip(csv_text(#[trigger] records.take(i), delimiter).len() as int),
    ) by {
        lemma_csv_text_split(records, delimiter, i);
        let line = csv_line(records[i], delimiter);
        let at = csv_text(records.take(i), delimiter).len() as int;
        assert(reads_back(records[i], delimiter));
        assert(text.skip(at) == line + text.skip(at + line.len()));
    }
    if records.len() > 0 {
        assert(!crate::records::has_mark(text.skip(csv_text(records.take(0), delimiter).len() as int)));
    }
    lemma_reads_back_from(records, delimiter, 0);
    let rows = crate::records::csv_rows(text, delimiter, 0x22);
    crate::records::lemma_rows_from(text, 0, 0, delimiter, 0x22);
    assert forall|i: int| 0 <= i < rows.len() implies !crate::records::has_mark(
        text.skip((#[trigger] rows[i]).start),
    ) && rows[i].end - rows[i].start <= crate::parse::MAX_RECORD_BYTES by {
        assert(rows[i].start == csv_text(records.take(0 + i), delimiter).len());
        lemma_csv_text_split(records, delimiter, i);
        let line = csv_line(records[i], delimiter);
        assert(reads_back(records[i], delimiter));
        let rest = text.skip(rows[i].start + line.len());
        assert(crate::records::first_record(line + rest, delimiter, 0x22) == Some(
            (records[i], line.len() as int),
        ));
        assert(!crate::records::has_mark((records[i])[0]));
    }
}

proof fn lemma_csv_text_split(records: Seq<Seq<Seq<u8>>>, delimiter: u8, k: int)
    requires
        0 <= k < records.len(),
    ensures
        ({
            let text = csv_text(records, delimiter);
            let at = csv_text(records.take(k), delimiter).len() as int;
            let line = csv_line(records[k], delimiter);
            &&& at + line.len() <= text.len()
            &&& csv_text(records.take(k + 1), delimiter).len() == at + line.len()
            &&& text.skip(at) == line + text.skip(at + line.len())
        }),
    decreases records.len(),
{
    let text = csv_text(records, delimiter);
    let line = csv_line(records[k], delimiter);
    assert(records.take(k + 1).drop_last() =~= records.take(k));
    let at = csv_text(records.take(k), delimiter).len() as int;
    if k == records.len() - 1 {
        assert(records.drop_last() =~= records.take(k));
        assert(text.skip(at) =~= line + text.skip(at + line.len()));
    } else {
        let shorter = records.drop_last();
        lemma_csv_text_split(shorter, delimiter, k);
        assert(shorter.take(k) =~= records.take(k));
        assert(shorter.take(k + 1) =~= records.take(k + 1));
        let before = csv_text(shorter, delimiter);
        let last = csv_line(records.last(), delimiter);
        assert(text =~= before + last);
        assert(text.skip(at) =~= before.skip(at) + last);
        assert(text.skip(at + line.len()) =~= before.skip(at + line.len()) + last);
        assert(text.skip(at) =~= line + text.skip(at + line.len()));
    }
}

proof fn lemma_reads_back_from(records: Seq<Seq<Seq<u8>>>, delimiter: u8, k: int)
    requires
        all_read_back(records, delimiter),
        0 <= k <= records.len(),
    ensures
        ({
            let rows = crate::records::rows_from(
                csv_text(records, delimiter),
                csv_text(records.take(k), delimiter).len() as int,
                0,
                delimiter,
                0x22,
            );
            &&& rows.map_values(|r: crate::records::Row| r.fields) == records.skip(k)
            &&& rows.len() == records.len() - k
            &&& forall|i: int|
                0 <= i < rows.len() ==> (#[trigger] rows[i]).start == csv_text(
                    records.take(k + i),
                    delimiter,
                ).len()
        }),
    decreases records.len() - k,
{
    let text = csv_text(records, delimiter);
    let at = csv_text(records.take(k), delimiter).len() as int;
    let rows = crate::records::rows_from(text, at, 0, delimiter, 0x22);
    let fields = |r: crate::records::Row| r.fields;
    if k == records.len() {
        assert(records.take(k) =~= records);
        assert(at == text.len());
        assert(text.skip(at) =~= Seq::empty());
        lemma_nothing_behind(text, delimiter);
        assert(rows.map_values(fields) =~= records.skip(k));
    } else {
        lemma_csv_text_split(records, delimiter, k);
        let line = csv_line(records[k], delimiter);
        assert(reads_back(records[k], delimiter));
        let rest = text.skip(at + line.len());
        assert(crate::records::first_record(line + rest, delimiter, 0x22) == Some(
            (records[k], line.len() as int),
        ));
        lemma_reads_back_from(records, delimiter, k + 1);
        let more = crate::records::rows_from(text, at + line.len(), 0, delimiter, 0x22);
        assert(rows =~= seq![
            crate::records::Row { start: at, end: at + line.len(), fields: records[k] },
        ] + more);
        assert(rows.map_values(fields) =~= seq![records[k]] + more.map_values(fields));
        assert(records.skip(k) =~= seq![records[k]] + records.skip(k + 1));
        assert forall|i: int| 0 <= i < rows.len() implies (#[trigger] rows[i]).start == csv_text(
            records.take(k + i),
            delimiter,
        ).len() by {
            if i > 0 {
                assert(rows[i] == more[i - 1]);
            }
        }
    }
}

/// Behind the last byte there is no record.
proof fn lemma_nothing_behind(text: Seq<u8>, delimiter: u8)
    ensures
        crate::records::rows_from(text, text.len() as int, 0, delimiter, 0x22).len() == 0,
{
    crate::records::lemma_rows_from(text, text.len() as int, 0, delimiter, 0x22);
}

/// Appends a record, unless it has another number of fields than the records before it.
pub fn push_csv_record(
    out: &mut Vec<u8>,
    width: &mut Option<usize>,
    fields: &Vec<Cell>,
    delimiter: u8,
) -> (r: bool)
    ensures
        r == (*old(width) is None || (*old(width))->0 == fields@.len()),
        r ==> {
            &&& *final(width) == Some(fields@.len() as usize)
            &&& final(out)@ == old(out)@ + csv_line(
                crate::viewport::row_bytes(fields@),
                delimiter,
            )
            &&& separates(delimiter) && fields@.len() > 0 ==> reads_back(
                crate::viewport::row_bytes(fields@),
                delimiter,
            )
        },
        !r ==> *final(width) == *old(width) && final(out)@ == old(out)@,
{
    let fits = match *width {
        None => true,
        Some(w) => w == fields.len(),
    };
    if fits {
        let mut line = write_csv_line(fields.as_slice(), delimiter);
        out.append(&mut line);
        *width = Some(fields.len());
    }
    fits
}

/// What is written of a header.
pub open spec fn header_records(header: Option<&[Vec<u8>]>) -> Seq<Seq<Seq<u8>>> {
    match header {
        Some(names) => seq![crate::search::contents(names@)],
        None => Seq::empty(),
    }
}

/// Names as cells.
fn name_cells(names: &[Vec<u8>]) -> (cells: Vec<Cell>)
    ensures
        crate::viewport::row_bytes(cells@) == crate::search::contents(names@),
{
    let mut cells: Vec<Cell> = Vec::new();
    for i in 0..names.len()
        invariant
            cells@.len() == i,
            forall|j: int| 0 <= j < i ==> (#[trigger] cells@[j]).0@ == names@[j]@,
    {
        cells.push(Cell(vstd::slice::slice_to_vec(names[i].as_slice())));
    }
    assert(crate::viewport::row_bytes(cells@) =~= crate::search::contents(names@));
    cells
}

/// What is known of an export on the way: these records are written.
spec fn written(
    out: Seq<u8>,
    before: Seq<u8>,
    width: Option<usize>,
    records: Seq<Seq<Seq<u8>>>,
    delimiter: u8,
) -> bool {
    &&& out == before + csv_text(records, delimiter)
    &&& same_width(records)
    &&& records.len() == 0 <==> width is None
    &&& width matches Some(w) ==> w == records[0].len()
    &&& separates(delimiter) && (width matches Some(w) ==> w > 0) ==> all_read_back(
        records,
        delimiter,
    )
}

proof fn lemma_written_push(
    out: Seq<u8>,
    before: Seq<u8>,
    width: Option<usize>,
    records: Seq<Seq<Seq<u8>>>,
    delimiter: u8,
    fields: Seq<Seq<u8>>,
)
    requires
        written(out, before, width, records, delimiter),
        width is None || width->0 == fields.len(),
        fields.len() <= usize::MAX,
        separates(delimiter) && fields.len() > 0 ==> reads_back(fields, delimiter),
    ensures
        written(
            out + csv_line(fields, delimiter),
            before,
            Some(fields.len() as usize),
            records.push(fields),
            delimiter,
        ),
{
    let all = records.push(fields);
    assert(all.drop_last() =~= records);
    assert(before + csv_text(records, delimiter) + csv_line(fields, delimiter) =~= before
        + csv_text(all, delimiter));
    assert forall|i: int| 0 <= i < all.len() implies (#[trigger] all[i]).len() == all[0].len() by {
        if i < records.len() {
            assert(all[i] == records[i]);
            assert(all[0] == records[0]);
        } else if records.len() > 0 {
            assert(all[0] == records[0]);
        }
    }
    if separates(delimiter) && fields.len() > 0 {
        assert forall|i: int| 0 <= i < all.len() implies reads_back(
            #[trigger] all[i],
            delimiter,
        ) by {
            if i < records.len() {
                assert(all[i] == records[i]);
            }
        }
    }
}

/// Writes a table as delimited text behind what stands in `out`, with a header if one is given. It
/// fails where a record has another number of fields than the first one, where the table cannot be
/// read, and where it is cancelled; a table without rows is written at once. Where it fails, the
/// records before that are written.
pub fn export_csv<T: ViewportSource>(
    table: &T,
    out: &mut Vec<u8>,
    delimiter: u8,
    scope: ExportScope,
    columns: &[ColumnId],
    header: Option<&[Vec<u8>]>,
    cancel: &CancellationToken,
) -> (r: Result<(), Error>)
    requires
        table.wf(),
    ensures
        match r {
            Ok(()) => {
                let records = header_records(header) + export_rows(table, scope, columns@);
                &&& same_width(records)
                &&& final(out)@ == old(out)@ + csv_text(records, delimiter)
                &&& separates(delimiter) && records.len() > 0 && records[0].len() > 0
                    ==> all_read_back(records, delimiter)
            },
            Err(e) => {
                let records = header_records(header) + export_rows(table, scope, columns@);
                &&& total_of(table, scope) > 0
                &&& crate::viewport::failed(table.reliable(), e) || (is_uneven(e) && !same_width(
                    records,
                ))
                &&& exists|k: int|
                    0 <= k <= records.len() && final(out)@ == old(out)@ + csv_text(
                        #[trigger] records.take(k),
                        delimiter,
                    )
            },
        },
{
    let ghost before = out@;
    let ghost head = header_records(header);
    let ghost rows = export_rows(table, scope, columns@);
    let mut width: Option<usize> = None;
    let ghost mut done: Seq<Seq<Seq<u8>>> = Seq::empty();
    proof {
        assert(out@ =~= before + csv_text(done, delimiter));
        assert(written(out@, before, width, done, delimiter));
    }
    if let Some(names) = header {
        let cells = name_cells(names);
        let ghost fields = crate::viewport::row_bytes(cells@);
        let ghost text = out@;
        let fits = push_csv_record(out, &mut width, &cells, delimiter);
        proof {
            assert(fields.len() == cells@.len());
            let n = cells.len();
            lemma_written_push(text, before, None, done, delimiter, fields);
            done = done.push(fields);
        }
    }
    assert(done =~= head);
    let mut cursor = ExportCursor::new(table, scope);
    assert(cursor.rest(table, columns@) == rows);
    loop
        invariant
            table.wf(),
            before == old(out)@,
            head == header_records(header),
            rows == export_rows(table, scope, columns@),
            head + rows == done + cursor.rest(table, columns@),
            written(out@, before, width, done, delimiter),
            cursor.size() == total_of(table, scope),
        decreases
            if cursor.position() < cursor.size() {
                cursor.size() - cursor.position()
            } else {
                0
            },
    {
        let batch = match cursor.next_batch(table, columns, cancel) {
            Ok(Some(batch)) => batch,
            Ok(None) => {
                assert(done =~= head + rows);
                return Ok(());
            },
            Err(e) => {
                assert((head + rows).take(done.len() as int) =~= done);
                return Err(e);
            },
        };
        let ghost start = done;
        let ghost part = crate::viewport::grid_bytes(batch@);
        let ghost left = cursor.rest(table, columns@);
        assert(head + rows =~= start + part + left);
        for i in 0..batch.len()
            invariant
                part == crate::viewport::grid_bytes(batch@),
                done == start + part.take(i as int),
                head + rows == start + part + left,
                written(out@, before, width, done, delimiter),
                head == header_records(header),
                rows == export_rows(table, scope, columns@),
                total_of(table, scope) > 0,
                before == old(out)@,
        {
            let ghost fields = crate::viewport::row_bytes(batch@[i as int]@);
            let ghost text = out@;
            let ghost old_width = width;
            assert(fields == part[i as int]);
            if !push_csv_record(out, &mut width, &batch[i], delimiter) {
                proof {
                    let records = head + rows;
                    let k = done.len() as int;
                    assert(records[k] == fields);
                    assert(records[0] == done[0]);
                    assert(!same_width(records));
                    assert(records.take(k) =~= done);
                }
                return Err(uneven());
            }
            proof {
                let n = batch@[i as int].len();
                lemma_written_push(text, before, old_width, done, delimiter, fields);
                done = done.push(fields);
                assert(done =~= start + part.take(i + 1));
            }
        }
        proof {
            assert(part.take(part.len() as int) =~= part);
            assert(head + rows =~= done + left);
        }
    }
}

/// Whether an error is the one for a record whose number of fields does not fit.
pub open spec fn is_uneven(e: Error) -> bool {
    e matches Error::Io(text) && text@ == "records have different numbers of fields"@
}

/// The error for a record whose number of fields does not fit.
fn uneven() -> (e: Error)
    ensures
        is_uneven(e),
{
    let mut text = String::new();
    crate::text::append(&mut text, "records have different numbers of fields");
    assert(text@ =~= "records have different numbers of fields"@);
    Error::Io(text)
}

/// An object with the given fields as a line of JSON.
pub uninterp spec fn json_line(keys: Seq<Seq<char>>, values: Seq<Seq<char>>) -> Seq<u8>;

/// The fields of an object whose values are texts.
pub open spec fn text_fields(keys: Seq<Seq<char>>, values: Seq<Seq<char>>) -> Seq<
    (Seq<char>, ValueView),
> {
    Seq::new(keys.len(), |i: int| (keys[i], ValueView::Text(values[i])))
}

/// Whether an object is read back from the line that it is written as: the line holds no line end
/// and is not blank, and reading it gives the fields.
pub open spec fn object_reads_back(keys: Seq<Seq<char>>, values: Seq<Seq<char>>) -> bool {
    object_reads_as(json_line(keys, values), keys, values)
}

/// Whether a line holds no line end, is not blank, and is read as an object with the given fields.
pub open spec fn object_reads_as(
    line: Seq<u8>,
    keys: Seq<Seq<char>>,
    values: Seq<Seq<char>>,
) -> bool {
    &&& line.len() > 0
    &&& forall|i: int| 0 <= i < line.len() ==> #[trigger] line[i] != 0x0a && line[i] != 0x0d
    &&& !crate::json_scan::is_space(line[0])
    &&& keys.no_duplicates() ==> (crate::json_value::json_record(line) matches Some(r) && r.fields
        == Some(text_fields(keys, values)))
}

/// `serde_json` writes an object of texts, without white space and with control characters escaped.
/// Where no key occurs twice, reading the line gives the fields back in their order.
#[verifier::external_body]
pub(crate) fn write_json_line(keys: &[String], values: &[String]) -> (line: Vec<u8>)
    requires
        keys@.len() == values@.len(),
    ensures
        line@ == json_line(
            crate::json::text_views(keys@),
            crate::json::text_views(values@),
        ),
        object_reads_as(
            line@,
            crate::json::text_views(keys@),
            crate::json::text_views(values@),
        ),
{
    let texts = values.iter().cloned().map(Value::String);
    let object: JsonMap<String, Value> = keys.iter().cloned().zip(texts).collect();
    serde_json::to_vec(&Value::Object(object)).unwrap_or_default()
}

/// The name of a column: its own, or a made-up one where it has none.
pub open spec fn name_of(name: Seq<u8>, index: int) -> Seq<char> {
    if name.len() == 0 {
        crate::table::made_up_name(index)
    } else {
        crate::text::lossy_text(name)
    }
}

/// The name of a column: its own, or a made-up one where it has none.
pub fn field_name(name: &[u8], index: u32) -> (r: String)
    ensures
        r@ == name_of(name@, index as int),
        name@.len() > 0 ==> text_decodes(name@),
{
    if name.len() == 0 {
        column_label(index)
    } else {
        utf8_lossy(name)
    }
}

/// Whether the text of bytes that are well-formed UTF-8 is what they encode.
pub open spec fn text_decodes(bytes: Seq<u8>) -> bool {
    vstd::utf8::valid_utf8(bytes) ==> crate::text::lossy_text(bytes) == vstd::utf8::decode_utf8(
        bytes,
    )
}

/// Whether the texts of a row and of the names of its columns are what they encode.
pub open spec fn row_decodes(row: Seq<Seq<u8>>, names: Seq<Seq<u8>>) -> bool {
    &&& forall|c: int| 0 <= c < row.len() ==> text_decodes(#[trigger] row[c])
    &&& forall|c: int|
        0 <= c < row.len() && c < names.len() && (#[trigger] names[c]).len() > 0 ==> text_decodes(
            names[c],
        )
}

proof fn lemma_row_decodes_push(row: Seq<Seq<u8>>, cell: Seq<u8>, names: Seq<Seq<u8>>)
    requires
        row_decodes(row, names),
        text_decodes(cell),
        row.len() < names.len() && names[row.len() as int].len() > 0 ==> text_decodes(
            names[row.len() as int],
        ),
    ensures
        row_decodes(row.push(cell), names),
{
    let after = row.push(cell);
    assert forall|c: int| 0 <= c < after.len() implies text_decodes(#[trigger] after[c]) by {
        if c < row.len() {
            assert(after[c] == row[c]);
        }
    }
}

/// The keys of an object with `n` fields.
pub open spec fn keys_for(names: Seq<Seq<u8>>, n: nat) -> Seq<Seq<char>> {
    Seq::new(
        n,
        |i: int|
            if i < names.len() {
                name_of(names[i], i)
            } else {
                crate::table::made_up_name(i)
            },
    )
}

/// The texts of cells.
pub open spec fn texts_of(row: Seq<Seq<u8>>) -> Seq<Seq<char>> {
    row.map_values(|b: Seq<u8>| crate::text::lossy_text(b))
}

/// Rows as lines of JSON.
pub open spec fn ndjson_text(rows: Seq<Seq<Seq<u8>>>, names: Seq<Seq<u8>>) -> Seq<u8>
    decreases rows.len(),
{
    if rows.len() == 0 {
        Seq::empty()
    } else {
        ndjson_text(rows.drop_last(), names) + json_line(
            keys_for(names, rows.last().len()),
            texts_of(rows.last()),
        ) + seq![0x0au8]
    }
}

/// Appends a row as a line of JSON.
pub fn push_json_record(out: &mut Vec<u8>, names: &[Vec<u8>], row: &Vec<Cell>)
    requires
        row@.len() <= u32::MAX,
    ensures
        final(out)@ == old(out)@ + json_line(
            keys_for(crate::search::contents(names@), row@.len()),
            texts_of(crate::viewport::row_bytes(row@)),
        ) + seq![0x0au8],
        object_reads_back(
            keys_for(crate::search::contents(names@), row@.len()),
            texts_of(crate::viewport::row_bytes(row@)),
        ),
        row_decodes(crate::viewport::row_bytes(row@), crate::search::contents(names@)),
{
    let ghost n = crate::search::contents(names@);
    let ghost bytes = crate::viewport::row_bytes(row@);
    let mut keys: Vec<String> = Vec::new();
    let mut values: Vec<String> = Vec::new();
    for i in 0..row.len()
        invariant
            row@.len() <= u32::MAX,
            n == crate::search::contents(names@),
            bytes == crate::viewport::row_bytes(row@),
            keys@.len() == i,
            values@.len() == i,
            forall|j: int| 0 <= j < i ==> (#[trigger] keys@[j])@ == keys_for(n, row@.len())[j],
            forall|j: int| 0 <= j < i ==> (#[trigger] values@[j])@ == texts_of(bytes)[j],
            row_decodes(bytes.take(i as int), n),
    {
        let ghost before = bytes.take(i as int);
        assert(bytes[i as int] == row@[i as int].0@);
        assert(bytes.take(i + 1) =~= before.push(bytes[i as int]));
        let key = if i < names.len() {
            field_name(names[i].as_slice(), i as u32)
        } else {
            column_label(i as u32)
        };
        keys.push(key);
        values.push(utf8_lossy(row[i].0.as_slice()));
        proof {
            lemma_row_decodes_push(before, bytes[i as int], n);
        }
    }
    proof {
        assert(bytes.take(bytes.len() as int) =~= bytes);
        assert(crate::json::text_views(keys@) =~= keys_for(n, row@.len()));
        assert(crate::json::text_views(values@) =~= texts_of(bytes));
    }
    let mut line = write_json_line(keys.as_slice(), values.as_slice());
    out.append(&mut line);
    out.push(0x0a);
    assert(out@ =~= old(out)@ + json_line(keys_for(n, row@.len()), texts_of(bytes)) + seq![0x0au8]);
}

/// Whether every row is read back from the line that it is written as.
pub open spec fn rows_read_back(rows: Seq<Seq<Seq<u8>>>, names: Seq<Seq<u8>>) -> bool {
    forall|i: int|
        0 <= i < rows.len() ==> object_reads_back(
            keys_for(names, (#[trigger] rows[i]).len()),
            texts_of(rows[i]),
        )
}

/// Writes a table as lines of JSON behind what stands in `out`, one object for each row, with every
/// value as a text. It fails where it is cancelled, where the table cannot be read, and where a row
/// has more cells than columns can be numbered; a table without rows is written at once. Where it
/// fails, the rows before that are written.
pub fn export_ndjson<T: ViewportSource>(
    table: &T,
    out: &mut Vec<u8>,
    scope: ExportScope,
    columns: &[ColumnId],
    names: &[Vec<u8>],
    cancel: &CancellationToken,
) -> (r: Result<(), Error>)
    requires
        table.wf(),
    ensures
        match r {
            Ok(()) => {
                let rows = export_rows(table, scope, columns@);
                &&& final(out)@ == old(out)@ + ndjson_text(rows, crate::search::contents(names@))
                &&& rows_read_back(rows, crate::search::contents(names@))
                &&& forall|i: int|
                    0 <= i < rows.len() ==> row_decodes(
                        #[trigger] rows[i],
                        crate::search::contents(names@),
                    )
            },
            Err(e) => {
                let rows = export_rows(table, scope, columns@);
                &&& total_of(table, scope) > 0
                &&& crate::viewport::failed(table.reliable(), e) || (is_uneven(e) && exists|i: int|
                    0 <= i < rows.len() && (#[trigger] rows[i]).len() > u32::MAX)
                &&& exists|k: int|
                    0 <= k <= rows.len() && final(out)@ == old(out)@ + ndjson_text(
                        #[trigger] rows.take(k),
                        crate::search::contents(names@),
                    )
            },
        },
{
    let ghost before = out@;
    let ghost rows = export_rows(table, scope, columns@);
    let ghost n = crate::search::contents(names@);
    let ghost mut done: Seq<Seq<Seq<u8>>> = Seq::empty();
    assert(out@ =~= before + ndjson_text(done, n));
    let mut cursor = ExportCursor::new(table, scope);
    assert(cursor.rest(table, columns@) == rows);
    assert(rows =~= done + cursor.rest(table, columns@));
    loop
        invariant
            table.wf(),
            before == old(out)@,
            rows == export_rows(table, scope, columns@),
            n == crate::search::contents(names@),
            rows == done + cursor.rest(table, columns@),
            out@ == before + ndjson_text(done, n),
            rows_read_back(done, n),
            forall|i: int| 0 <= i < done.len() ==> row_decodes(#[trigger] done[i], n),
            cursor.size() == total_of(table, scope),
        decreases
            if cursor.position() < cursor.size() {
                cursor.size() - cursor.position()
            } else {
                0
            },
    {
        let batch = match cursor.next_batch(table, columns, cancel) {
            Ok(Some(batch)) => batch,
            Ok(None) => {
                assert(done =~= rows);
                return Ok(());
            },
            Err(e) => {
                assert(rows.take(done.len() as int) =~= done);
                return Err(e);
            },
        };
        let ghost start = done;
        let ghost part = crate::viewport::grid_bytes(batch@);
        let ghost left = cursor.rest(table, columns@);
        assert(rows =~= start + part + left);
        for i in 0..batch.len()
            invariant
                part == crate::viewport::grid_bytes(batch@),
                n == crate::search::contents(names@),
                done == start + part.take(i as int),
                rows == start + part + left,
                rows == export_rows(table, scope, columns@),
                out@ == before + ndjson_text(done, n),
                rows_read_back(done, n),
                forall|j: int| 0 <= j < done.len() ==> row_decodes(#[trigger] done[j], n),
                total_of(table, scope) > 0,
                before == old(out)@,
        {
            let ghost fields = crate::viewport::row_bytes(batch@[i as int]@);
            assert(fields == part[i as int]);
            if batch[i].len() > u32::MAX as usize {
                proof {
                    let k = done.len() as int;
                    assert(rows[k] == fields);
                    assert(rows[k].len() > u32::MAX);
                    assert(rows.take(k) =~= done);
                }
                return Err(uneven());
            }
            push_json_record(out, names, &batch[i]);
            proof {
                let all = done.push(fields);
                assert(all.drop_last() =~= done);
                assert(out@ =~= before + ndjson_text(all, n));
                assert forall|j: int| 0 <= j < all.len() implies object_reads_back(
                    keys_for(n, (#[trigger] all[j]).len()),
                    texts_of(all[j]),
                ) by {
                    if j < done.len() {
                        assert(all[j] == done[j]);
                    }
                }
                done = all;
                assert(done =~= start + part.take(i + 1));
            }
        }
        proof {
            assert(part.take(part.len() as int) =~= part);
            assert(rows =~= done + left);
        }
    }
}

/// The line of a row.
pub open spec fn row_line(row: Seq<Seq<u8>>, names: Seq<Seq<u8>>) -> Seq<u8> {
    json_line(keys_for(names, row.len()), texts_of(row))
}

proof fn lemma_ndjson_split(rows: Seq<Seq<Seq<u8>>>, names: Seq<Seq<u8>>, k: int)
    requires
        0 <= k < rows.len(),
    ensures
        ({
            let text = ndjson_text(rows, names);
            let at = ndjson_text(rows.take(k), names).len() as int;
            let line = row_line(rows[k], names);
            &&& at + line.len() + 1 <= text.len()
            &&& ndjson_text(rows.take(k + 1), names).len() == at + line.len() + 1
            &&& text.subrange(at, at + line.len()) == line
            &&& text[at + line.len()] == 0x0a
        }),
    decreases rows.len(),
{
    let text = ndjson_text(rows, names);
    let line = row_line(rows[k], names);
    assert(rows.take(k + 1).drop_last() =~= rows.take(k));
    let at = ndjson_text(rows.take(k), names).len() as int;
    if k == rows.len() - 1 {
        assert(rows.drop_last() =~= rows.take(k));
        assert(text.subrange(at, at + line.len()) =~= line);
    } else {
        let shorter = rows.drop_last();
        lemma_ndjson_split(shorter, names, k);
        assert(shorter.take(k) =~= rows.take(k));
        assert(shorter.take(k + 1) =~= rows.take(k + 1));
        let before = ndjson_text(shorter, names);
        assert(text.subrange(at, at + line.len()) =~= before.subrange(at, at + line.len()));
        assert(text[at + line.len()] == before[at + line.len()]);
    }
}

/// What is written as lines of JSON is read back: the text has one record for each row, and where no
/// name occurs twice, the record has the names as keys and the texts of the cells as values.
pub proof fn exported_lines_read_back(
    rows: Seq<Seq<Seq<u8>>>,
    names: Seq<Seq<u8>>,
    k: int,
)
    requires
        rows_read_back(rows, names),
        0 <= k <= rows.len(),
    ensures
        ({
            let text = ndjson_text(rows, names);
            let at = ndjson_text(rows.take(k), names).len() as int;
            let spans = crate::json_scan::spans_from(
                crate::json_scan::JsonMode::Lines,
                text,
                at,
            );
            &&& spans.len() == rows.len() - k
            &&& forall|i: int|
                k <= i < rows.len() && keys_for(names, (#[trigger] rows[i]).len()).no_duplicates()
                    ==> (crate::json::record_at(text, spans[i - k]) matches Some(r) && r.fields
                    == Some(text_fields(keys_for(names, rows[i].len()), texts_of(rows[i]))))
        }),
    decreases rows.len() - k,
{
    let text = ndjson_text(rows, names);
    let at = ndjson_text(rows.take(k), names).len() as int;
    let mode = crate::json_scan::JsonMode::Lines;
    let spans = crate::json_scan::spans_from(mode, text, at);
    if k == rows.len() {
        assert(rows.take(k) =~= rows);
    } else {
        lemma_ndjson_split(rows, names, k);
        let line = row_line(rows[k], names);
        assert(object_reads_back(keys_for(names, rows[k].len()), texts_of(rows[k])));
        let end = at + line.len();
        assert(text.subrange(at, end) == line);
        assert forall|j: int| at <= j < end implies text[j] != 0x0a && text[j] != 0x0d by {
            assert(text[j] == line[j - at]);
        }
        crate::json_scan::lemma_line_end_at(text, at, end);
        let span = crate::json_scan::line_at(text, at);
        assert(span == (crate::json_scan::Span { start: at, end, next: end + 1 }));
        assert(!crate::json_scan::is_blank(line)) by {
            assert(!crate::json_scan::is_space(line[0]));
        }
        exported_lines_read_back(rows, names, k + 1);
        let rest = crate::json_scan::spans_from(mode, text, end + 1);
        assert(spans =~= seq![span] + rest);
        assert forall|i: int|
            k <= i < rows.len() && keys_for(
                names,
                (#[trigger] rows[i]).len(),
            ).no_duplicates() implies (crate::json::record_at(text, spans[i - k]) matches Some(r)
            && r.fields == Some(
            text_fields(keys_for(names, rows[i].len()), texts_of(rows[i])),
        )) by {
            if i > k {
                assert(spans[i - k] == rest[i - k - 1]);
            }
        }
    }
}

/// Every cell of an exported row is in its line, whatever its column: under the column's key, that is
/// its name or, for a column without one, `col` and its number, the record read back has the text of
/// the cell, and reading the export as a table shows the cell's bytes again where they are UTF-8.
pub proof fn every_cell_is_in_its_line(
    rows: Seq<Seq<Seq<u8>>>,
    names: Seq<Seq<u8>>,
    i: int,
    c: int,
)
    requires
        rows_read_back(rows, names),
        forall|k: int| 0 <= k < rows.len() ==> row_decodes(#[trigger] rows[k], names),
        0 <= i < rows.len(),
        0 <= c < rows[i].len(),
        keys_for(names, rows[i].len()).no_duplicates(),
    ensures
        ({
            let text = ndjson_text(rows, names);
            let spans = crate::json_scan::spans_from(crate::json_scan::JsonMode::Lines, text, 0);
            let record = crate::json::record_at(text, spans[i]);
            let cell = rows[i][c];
            let key = if c < names.len() && names[c].len() > 0 {
                crate::text::lossy_text(names[c])
            } else {
                seq!['c', 'o', 'l'] + crate::text::decimal_text(c)
            };
            &&& spans.len() == rows.len()
            &&& record matches Some(r) && r.fields matches Some(fields) && fields.len()
                == rows[i].len() && fields[c] == (
                key,
                ValueView::Text(crate::text::lossy_text(cell)),
            )
            &&& vstd::utf8::valid_utf8(cell) ==> crate::text::lossy_text(cell)
                == vstd::utf8::decode_utf8(cell) && crate::json_value::column_rendering(
                record,
                Some(key),
            ) == cell
            &&& c < names.len() && names[c].len() > 0 && vstd::utf8::valid_utf8(names[c]) ==> key
                == vstd::utf8::decode_utf8(names[c])
        }),
{
    reveal_strlit("col");
    assert("col"@ =~= seq!['c', 'o', 'l']);
    assert(rows.take(0) =~= Seq::empty());
    exported_lines_read_back(rows, names, 0);
    let text = ndjson_text(rows, names);
    let spans = crate::json_scan::spans_from(crate::json_scan::JsonMode::Lines, text, 0);
    let keys = keys_for(names, rows[i].len());
    let cell = rows[i][c];
    assert(spans[i - 0] == spans[i]);
    let record = crate::json::record_at(text, spans[i]);
    let fields = (record->0).fields->0;
    assert(row_decodes(rows[i], names));
    assert(text_decodes(rows[i][c]));
    assert(fields[c] == (keys[c], ValueView::Text(texts_of(rows[i])[c])));
    assert forall|j: int| 0 <= j < c implies (#[trigger] fields[j]).0 != keys[c] by {
        assert(fields[j].0 == keys[j]);
    }
    crate::json_value::lemma_field_value(fields, keys[c], c);
    if vstd::utf8::valid_utf8(cell) {
        vstd::utf8::decode_utf8_encode_utf8(cell);
    }
}

/// The texts of some rows, column by column.
pub open spec fn column_texts(rows: Seq<Seq<Seq<u8>>>, column: int) -> Seq<Option<Seq<char>>> {
    rows.map_values(
        |row: Seq<Seq<u8>>|
            if column < row.len() {
                Some(crate::text::lossy_text(row[column]))
            } else {
                None
            },
    )
}

/// The contents of a text, if there is one.
pub open spec fn text_view(text: Option<String>) -> Option<Seq<char>> {
    match text {
        Some(t) => Some(t@),
        None => None,
    }
}

/// The texts of a column of some rows.
pub fn text_column(rows: &Vec<Vec<Cell>>, column: usize) -> (r: Vec<Option<String>>)
    ensures
        r@.map_values(|t: Option<String>| text_view(t)) == column_texts(
            crate::viewport::grid_bytes(rows@),
            column as int,
        ),
{
    let ghost grid = crate::viewport::grid_bytes(rows@);
    let mut r: Vec<Option<String>> = Vec::new();
    for i in 0..rows.len()
        invariant
            grid == crate::viewport::grid_bytes(rows@),
            r@.len() == i,
            forall|j: int|
                0 <= j < i ==> text_view(#[trigger] r@[j]) == column_texts(grid, column as int)[j],
    {
        assert(grid[i as int] == crate::viewport::row_bytes(rows@[i as int]@));
        if column < rows[i].len() {
            r.push(Some(utf8_lossy(rows[i][column].0.as_slice())));
        } else {
            r.push(None);
        }
    }
    assert(r@.map_values(|t: Option<String>| text_view(t)) =~= column_texts(
        grid,
        column as int,
    ));
    r
}

/// A batch of rows, column by column, as texts.
pub open spec fn batch_columns(rows: Seq<Seq<Seq<u8>>>, n: nat) -> Seq<Seq<Option<Seq<char>>>> {
    Seq::new(n, |c: int| column_texts(rows, c))
}

/// The contents of columns of texts.
pub open spec fn columns_view(columns: Seq<Vec<Option<String>>>) -> Seq<Seq<Option<Seq<char>>>> {
    columns.map_values(|c: Vec<Option<String>>| c@.map_values(|t: Option<String>| text_view(t)))
}

/// The contents of batches of columns.
pub open spec fn batches_view(batches: Seq<Vec<Vec<Option<String>>>>) -> Seq<
    Seq<Seq<Option<Seq<char>>>>,
> {
    batches.map_values(|b: Vec<Vec<Option<String>>>| columns_view(b@))
}

/// How many bytes the texts of a column take.
pub open spec fn column_size(column: Seq<Option<Seq<char>>>) -> int
    decreases column.len(),
{
    if column.len() == 0 {
        0
    } else {
        column_size(column.drop_last()) + match column.last() {
            Some(text) => vstd::utf8::encode_utf8(text).len() as int,
            None => 0,
        }
    }
}

/// Whether the texts of every column of a batch can be told apart by offsets of 32 bits.
pub open spec fn addressable(batch: Seq<Seq<Option<Seq<char>>>>) -> bool {
    forall|c: int| 0 <= c < batch.len() ==> column_size(#[trigger] batch[c]) <= i32::MAX
}

/// A Parquet file with text columns of the given names, written batch by batch; nothing where it
/// cannot be written.
pub uninterp spec fn parquet_file(
    names: Seq<Seq<char>>,
    batches: Seq<Seq<Seq<Option<Seq<char>>>>>,
) -> Option<Seq<u8>>;

/// The texts of a column of all batches.
pub open spec fn stacked(batches: Seq<Seq<Seq<Option<Seq<char>>>>>, column: int) -> Seq<
    Option<Seq<char>>,
>
    decreases batches.len(),
{
    if batches.len() == 0 {
        Seq::empty()
    } else {
        batches[0][column] + stacked(batches.drop_first(), column)
    }
}

/// What is read of a text; nothing where there is none.
pub open spec fn stored_bytes(text: Option<Seq<char>>) -> Seq<u8> {
    match text {
        Some(t) => vstd::utf8::encode_utf8(t),
        None => Seq::empty(),
    }
}

/// The texts of some rows and columns of batches, as they are read.
pub open spec fn stored_rows(
    batches: Seq<Seq<Seq<Option<Seq<char>>>>>,
    roots: Seq<u64>,
    rows: Seq<u64>,
) -> Seq<Seq<Seq<u8>>> {
    Seq::new(
        rows.len(),
        |i: int|
            Seq::new(
                roots.len(),
                |j: int| stored_bytes(stacked(batches, roots[j] as int)[rows[i] as int]),
            ),
    )
}

/// Whether what can be read of a file is what was written: columns of texts with these names, and the
/// texts themselves. Whether it can be read is left open, since a footer may be too large.
pub open spec fn reads_written(
    file: Seq<u8>,
    names: Seq<Seq<char>>,
    batches: Seq<Seq<Seq<Option<Seq<char>>>>>,
) -> bool {
    &&& crate::parquet_file::described(file) matches Some((fields, rows)) ==> {
        &&& fields == names.map_values(
            |n: Seq<char>| (n, crate::columnar::text_kind()),
        )
        &&& forall|c: int| 0 <= c < names.len() ==> rows == (#[trigger] stacked(batches, c)).len()
    }
    &&& forall|roots: Seq<u64>, rows: Seq<u64>, batch: int|
        {
            &&& (#[trigger] crate::parquet_file::parquet_rows(file, roots, rows, batch)).1
            &&& batch > 0
            &&& roots.len() > 0
            &&& crate::columnar::ascends(roots)
            &&& crate::columnar::ascends(rows)
            &&& forall|j: int| 0 <= j < roots.len() ==> #[trigger] roots[j] < names.len()
            &&& forall|i: int|
                0 <= i < rows.len() ==> #[trigger] rows[i] < stacked(batches, 0).len()
        } ==> crate::parquet_file::parquet_rows(file, roots, rows, batch).0 == stored_rows(
            batches,
            roots,
            rows,
        )
    &&& forall|roots: Seq<u64>, batch: int|
        {
            &&& (#[trigger] crate::parquet_file::parquet_scan(file, roots, batch)).1
            &&& batch > 0
            &&& roots.len() > 0
            &&& crate::columnar::ascends(roots)
            &&& forall|j: int| 0 <= j < roots.len() ==> #[trigger] roots[j] < names.len()
        } ==> crate::parquet_file::parquet_scan(file, roots, batch).0 == stored_rows(
            batches,
            roots,
            crate::parquet_file::first_numbers(stacked(batches, 0).len() as int),
        )
}

/// `parquet::arrow::ArrowWriter` writes batches, made by `arrow::record_batch::RecordBatch::try_new`
/// of string arrays, as a Parquet file. The arrays cannot hold texts beyond offsets of 32 bits. The
/// `parquet` reader finds the columns and the texts in it that were written, as far as it can read
/// it: the columns stand side by side in the schema, and the pages are as the format has them. The
/// message of a failure is left open.
#[verifier::external_body]
fn write_parquet(names: &[String], batches: Vec<Vec<Vec<Option<String>>>>) -> (file: Result<
    Vec<u8>,
    String,
>)
    requires
        forall|b: int|
            0 <= b < batches@.len() ==> addressable(columns_view(#[trigger] batches@[b]@)),
    ensures
        match file {
            Ok(bytes) => {
                &&& parquet_file(crate::remote::texts(names@), batches_view(batches@)) == Some(
                    bytes@,
                )
                &&& reads_written(
                    bytes@,
                    crate::remote::texts(names@),
                    batches_view(batches@),
                )
                &&& crate::parquet_file::footer_sound(bytes@)
                &&& crate::parquet_file::pages_sound(bytes@)
            },
            Err(_) => parquet_file(crate::remote::texts(names@), batches_view(batches@)) is None,
        },
{
    let fields: Vec<Field> = names.iter().map(|n| Field::new(n, DataType::Utf8, true)).collect();
    let schema = Arc::new(ArrowSchema::new(fields));
    let mut writer = ArrowWriter::try_new(Vec::new(), schema.clone(), None).map_err(|e| e.to_string())?;
    for columns in batches {
        let arrays = columns.into_iter().map(|c| Arc::new(StringArray::from_iter(c)) as ArrayRef);
        let batch = RecordBatch::try_new(schema.clone(), arrays.collect()).map_err(|e| e.to_string())?;
        writer.write(&batch).map_err(|e| e.to_string())?;
    }
    writer.into_inner().map_err(|e| e.to_string())
}

/// How many bytes the texts of a column take, unless they are too many.
fn small_column(column: &Vec<Option<String>>) -> (small: bool)
    ensures
        small == (column_size(column@.map_values(|t: Option<String>| text_view(t))) <= i32::MAX),
{
    let ghost all = column@.map_values(|t: Option<String>| text_view(t));
    let mut size: u64 = 0;
    assert(all.take(0) =~= Seq::empty());
    for i in 0..column.len()
        invariant
            all == column@.map_values(|t: Option<String>| text_view(t)),
            size == column_size(all.take(i as int)),
            size <= i32::MAX,
    {
        proof {
            assert(all.take(i + 1).drop_last() =~= all.take(i as int));
            assert(all.take(i + 1).last() == text_view(column@[i as int]));
        }
        match &column[i] {
            Some(text) => {
                let n: usize = text.as_str().as_bytes().len();
                if n > (i32::MAX as u64 - size) as usize {
                    proof {
                        lemma_column_size(all, i + 1);
                    }
                    return false;
                }
                size += n as u64;
            },
            None => {},
        }
    }
    assert(all.take(all.len() as int) =~= all);
    true
}

proof fn lemma_column_size(column: Seq<Option<Seq<char>>>, n: int)
    requires
        0 <= n <= column.len(),
    ensures
        column_size(column.take(n)) <= column_size(column),
    decreases column.len() - n,
{
    if n < column.len() {
        lemma_column_size(column, n + 1);
        assert(column.take(n + 1).drop_last() =~= column.take(n));
    } else {
        assert(column.take(n) =~= column);
    }
}

/// The columns of a batch, if their texts are not too long.
fn text_columns(rows: &Vec<Vec<Cell>>, n: usize) -> (columns: Option<Vec<Vec<Option<String>>>>)
    ensures
        match columns {
            Some(c) => columns_view(c@) == batch_columns(
                crate::viewport::grid_bytes(rows@),
                n as nat,
            ) && addressable(columns_view(c@)),
            None => !addressable(batch_columns(crate::viewport::grid_bytes(rows@), n as nat)),
        },
{
    let ghost grid = crate::viewport::grid_bytes(rows@);
    let ghost all = batch_columns(grid, n as nat);
    let mut columns: Vec<Vec<Option<String>>> = Vec::new();
    assert(columns_view(columns@) =~= all.take(0));
    for c in 0..n
        invariant
            grid == crate::viewport::grid_bytes(rows@),
            all == batch_columns(grid, n as nat),
            columns_view(columns@) == all.take(c as int),
            forall|k: int| 0 <= k < c ==> column_size(#[trigger] all[k]) <= i32::MAX,
    {
        let column = text_column(rows, c);
        proof {
            assert(all[c as int] == column@.map_values(|t: Option<String>| text_view(t)));
        }
        if !small_column(&column) {
            assert(column_size(all[c as int]) > i32::MAX);
            return None;
        }
        let ghost before = columns@;
        columns.push(column);
        proof {
            assert(columns_view(before.push(column)) =~= columns_view(before).push(all[c as int]));
            assert(all.take(c + 1) =~= all.take(c as int).push(all[c as int]));
        }
    }
    assert(all.take(n as int) =~= all);
    Some(columns)
}

/// The contents of batches, column by column.
pub open spec fn text_batches(batches: Seq<Seq<Seq<Seq<u8>>>>, n: nat) -> Seq<
    Seq<Seq<Option<Seq<char>>>>,
> {
    batches.map_values(|b: Seq<Seq<Seq<u8>>>| batch_columns(b, n))
}

/// The keys of all given names.
fn field_names(names: &[Vec<u8>]) -> (keys: Vec<String>)
    requires
        names@.len() <= u32::MAX,
    ensures
        crate::remote::texts(keys@) == keys_for(
            crate::search::contents(names@),
            names@.len(),
        ),
{
    let mut keys: Vec<String> = Vec::new();
    for i in 0..names.len()
        invariant
            names@.len() <= u32::MAX,
            keys@.len() == i,
            forall|j: int|
                0 <= j < i ==> (#[trigger] keys@[j])@ == name_of(
                    crate::search::contents(names@)[j],
                    j,
                ),
    {
        keys.push(field_name(names[i].as_slice(), i as u32));
    }
    assert(crate::remote::texts(keys@) =~= keys_for(crate::search::contents(names@), names@.len()));
    keys
}

/// Writes a table as a Parquet file behind what stands in `out`. Every column is one of texts, which
/// are those that are shown. It fails where it is cancelled, where the table cannot be read, where
/// the file cannot be written, and where a column of a batch has more text than a Parquet batch
/// addresses.
pub fn export_parquet<T: ViewportSource>(
    table: &T,
    out: &mut Vec<u8>,
    scope: ExportScope,
    columns: &[ColumnId],
    names: &[Vec<u8>],
    cancel: &CancellationToken,
) -> (r: Result<(), Error>)
    requires
        table.wf(),
        names@.len() <= u32::MAX,
    ensures
        match r {
            Ok(()) => {
                let keys = keys_for(crate::search::contents(names@), names@.len());
                let batches = text_batches(
                    export_batches(table, scope, columns@),
                    columns@.len(),
                );
                &&& parquet_file(keys, batches) matches Some(bytes)
                &&& final(out)@ == old(out)@ + bytes
                &&& reads_written(bytes, keys, batches)
                &&& crate::parquet_file::footer_sound(bytes)
                &&& crate::parquet_file::pages_sound(bytes)
            },
            Err(e) => {
                let batches = text_batches(
                    export_batches(table, scope, columns@),
                    columns@.len(),
                );
                &&& final(out)@ == old(out)@
                &&& crate::viewport::failed(table.reliable(), e) || (e is Io && (parquet_file(
                    keys_for(crate::search::contents(names@), names@.len()),
                    batches,
                ) is None || exists|b: int|
                    0 <= b < batches.len() && !addressable(#[trigger] batches[b])))
                &&& e is Cancelled ==> total_of(table, scope) > 0
            },
        },
{
    let keys = field_names(names);
    let n: usize = columns.len();
    let ghost all = text_batches(export_batches(table, scope, columns@), n as nat);
    let mut batches: Vec<Vec<Vec<Option<String>>>> = Vec::new();
    let mut cursor = ExportCursor::new(table, scope);
    proof {
        assert(cursor.batches(table, columns@) == export_batches(table, scope, columns@));
        assert(all =~= batches_view(batches@) + text_batches(
            cursor.batches(table, columns@),
            n as nat,
        ));
    }
    loop
        invariant
            table.wf(),
            n == columns@.len(),
            *out == *old(out),
            crate::remote::texts(keys@) == keys_for(
                crate::search::contents(names@),
                names@.len(),
            ),
            all == text_batches(export_batches(table, scope, columns@), n as nat),
            all == batches_view(batches@) + text_batches(
                cursor.batches(table, columns@),
                n as nat,
            ),
            forall|b: int|
                0 <= b < batches@.len() ==> addressable(columns_view(#[trigger] batches@[b]@)),
            cursor.size() == total_of(table, scope),
        decreases
            if cursor.position() < cursor.size() {
                cursor.size() - cursor.position()
            } else {
                0
            },
    {
        let ghost done = batches_view(batches@);
        let ghost before = cursor.batches(table, columns@);
        let rows = match cursor.next_batch(table, columns, cancel) {
            Ok(Some(rows)) => rows,
            Ok(None) => {
                assert(all =~= batches_view(batches@));
                match write_parquet(keys.as_slice(), batches) {
                    Ok(mut file) => {
                        out.append(&mut file);
                        return Ok(());
                    },
                    Err(message) => return Err(Error::Io(message)),
                }
            },
            Err(e) => return Err(e),
        };
        let ghost part = crate::viewport::grid_bytes(rows@);
        let ghost rest = cursor.batches(table, columns@);
        proof {
            assert(before == seq![part] + rest);
            assert(text_batches(seq![part] + rest, n as nat) =~= seq![
                batch_columns(part, n as nat),
            ] + text_batches(rest, n as nat));
            assert(all[done.len() as int] == batch_columns(part, n as nat));
        }
        match text_columns(&rows, n) {
            Some(texts) => {
                let ghost was = batches@;
                batches.push(texts);
                proof {
                    assert(batches_view(was.push(texts)) =~= batches_view(was).push(
                        columns_view(texts@),
                    ));
                    assert(all =~= batches_view(batches@) + text_batches(rest, n as nat));
                }
            },
            None => {
                assert(!addressable(all[done.len() as int]));
                return Err(Error::Io(too_long()));
            },
        }
    }
}

/// What is said of a batch with too much text.
fn too_long() -> (text: String)
    ensures
        text@ == "a column of a batch has too much text"@,
{
    crate::remote::copy_text("a column of a batch has too much text")
}

/// What is exported of a table over delimited text, with its index, are the fields of the source: of
/// the active view the rows that it shows, in its order, and of the source all rows; of each row the
/// columns that are asked for.
pub proof fn exported_cells_are_fields_of_the_source(
    table: &crate::table::CsvTable,
    scope: ExportScope,
    columns: Seq<ColumnId>,
    i: int,
    c: int,
)
    requires
        table.source().len() <= u64::MAX,
        table.state().indexed() == Some(
            crate::index::index_over(
                table.source(),
                table.state().split().delimiter,
                table.state().split().quote,
            ),
        ),
        crate::records::all_settled(
            table.source(),
            table.state().split().delimiter,
            table.state().split().quote,
        ),
        forall|r: int|
            0 <= r < crate::records::csv_rows(
                table.source(),
                table.state().split().delimiter,
                table.state().split().quote,
            ).len() ==> #[trigger] crate::table::readable(table.source(), table.state().split(), r),
        table.state().slot().shown() matches Some(view) ==> view.len() <= u64::MAX,
        0 <= c < columns.len(),
        0 <= i,
    ensures
        ({
            let rows = export_rows(table, scope, columns);
            let dialect = table.state().split();
            let records = crate::records::csv_rows(
                table.source(),
                dialect.delimiter,
                dialect.quote,
            );
            match (scope, table.state().slot().shown()) {
                (ExportScope::CurrentView, Some(view)) => {
                    &&& rows.len() == view.len()
                    &&& i < rows.len() ==> rows[i].len() == columns.len() && (
                    match crate::table::field_at(
                        table.source(),
                        dialect,
                        view[i] as int,
                        columns[c].0,
                    ) {
                        Some(field) => rows[i][c] == field,
                        None => rows[i][c].len() == 0,
                    })
                },
                _ => {
                    &&& rows.len() == if !dialect.has_header {
                        records.len() as int
                    } else if records.len() == 0 {
                        0
                    } else {
                        records.len() - 1
                    }
                    &&& i < rows.len() ==> rows[i].len() == columns.len() && (
                    match crate::table::field_at(table.source(), dialect, i, columns[c].0) {
                        Some(field) => rows[i][c] == field,
                        None => rows[i][c].len() == 0,
                    })
                },
            }
        }),
{
    let bytes = table.source();
    let dialect = table.state().split();
    every_csv_row_is_exported(table, scope, columns);
    crate::table::tables_count_their_rows(*table);
    let list = match (scope, table.state().slot().shown()) {
        (ExportScope::CurrentView, Some(rows)) => rows,
        _ => Seq::new(count_of(table.source_rows()) as nat, |i: int| i as u64),
    };
    if i < list.len() {
        let r = list[i] as int;
        if r < crate::table::grid_of(bytes, dialect).len() {
            assert(crate::table::readable(bytes, dialect, r + crate::table::header_rows(dialect)));
        }
        crate::table::indexed_rows_match_streamed_rows(bytes, dialect, r, columns);
        crate::table::cells_are_fields_of_the_source(bytes, dialect, list, columns, i, c);
        assert(crate::table::cells_of(None, bytes, dialect, list, columns)[i]
            == crate::table::streamed_cells(bytes, dialect, r, columns));
        assert(export_rows(table, scope, columns)[i] == crate::table::streamed_cells(
            bytes,
            dialect,
            r,
            columns,
        ));
    }
}

/// An export as delimited text begins with its header, where it has one: read back, the first record
/// are the names of the columns and the rows follow it; without a header the rows are all there is.
pub proof fn exported_text_begins_with_its_header(
    header: Option<&[Vec<u8>]>,
    rows: Seq<Seq<Seq<u8>>>,
    delimiter: u8,
    c: int,
    i: int,
)
    requires
        all_read_back(header_records(header) + rows, delimiter),
        !crate::records::has_mark(csv_text(header_records(header) + rows, delimiter)),
    ensures
        ({
            let read = crate::records::csv_rows(
                csv_text(header_records(header) + rows, delimiter),
                delimiter,
                0x22,
            );
            &&& header matches Some(names) ==> {
                &&& read.len() == rows.len() + 1
                &&& read[0].fields.len() == names@.len()
                &&& 0 <= c < names@.len() ==> read[0].fields[c] == names@[c]@
                &&& 0 <= i < rows.len() ==> read[i + 1].fields == rows[i]
            }
            &&& header is None ==> {
                &&& read.len() == rows.len()
                &&& 0 <= i < rows.len() ==> read[i].fields == rows[i]
            }
        }),
{
    let records = header_records(header) + rows;
    exported_text_reads_back(records, delimiter);
    let read = crate::records::csv_rows(csv_text(records, delimiter), delimiter, 0x22);
    let fields = read.map_values(|r: crate::records::Row| r.fields);
    assert(fields == records);
    assert(read.len() == records.len());
    assert(forall|k: int| 0 <= k < read.len() ==> #[trigger] fields[k] == read[k].fields);
    if header is Some {
        assert(fields[0] == records[0]);
        if 0 <= i < rows.len() {
            assert(fields[i + 1] == records[i + 1]);
        }
    } else if 0 <= i < rows.len() {
        assert(fields[i] == records[i]);
    }
}

/// An export has as many rows as are known at the time: of the active view or of the source, counted
/// to the end or not.
pub proof fn exports_have_the_rows_that_are_known<T: ViewportSource>(table: &T, n: u64)
    ensures
        table.rows() == RowCount::Exact(n) || table.rows() == RowCount::AtLeast(n) ==> total_of(
            table,
            ExportScope::CurrentView,
        ) == n,
        table.source_rows() == RowCount::Exact(n) || table.source_rows() == RowCount::AtLeast(n)
            ==> total_of(table, ExportScope::Source) == n,
{
}

} // verus!
