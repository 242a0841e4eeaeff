//! Tables over lines of JSON, from the first byte on.
use vstd::prelude::*;
use crate::cancel::CancellationToken;
use crate::error::Error;
use crate::json::{JsonState, JsonTable};
use crate::json_scan::{JsonMode, Records};
use crate::viewport::{
    Column, ColumnId, DataQuality, RowCount, RowRange, Schema, ViewSpec, ViewStatus, Viewport,
    ViewportRequest, ViewportSource,
};

verus! {

/// Records are lines, from the first byte on.
pub open spec fn line_records() -> Records {
    Records { mode: JsonMode::Lines, body_start: 0 }
}

/// A table over lines of JSON in memory.
pub struct NdjsonTable {
    table: JsonTable,
}

impl NdjsonTable {
    /// The bytes of the source.
    pub closed spec fn source(&self) -> Seq<u8> {
        self.table.source()
    }

    /// The state of the table.
    pub closed spec fn state(&self) -> JsonState {
        self.table.state()
    }

    /// A table over bytes, with its index.
    pub fn from_bytes(bytes: Vec<u8>) -> (r: Result<NdjsonTable, Error>)
        ensures
            r matches Ok(table) && {
                &&& table.source() == bytes@
                &&& table.state().layout() == line_records()
                &&& crate::table::column_views(table.state().columns())
                    == crate::json::columns_from(
                    crate::json::sample_of(bytes@, line_records()),
                )
                &&& table.state().keys() == crate::json::column_keys(
                    crate::json::sample_of(bytes@, line_records()),
                )
                &&& table.state().indexed() == Some(
                    crate::json::record_index_over(bytes@, line_records()),
                )
                &&& table.state().slot().shown() is None
                &&& !table.state().slot().is_building()
            },
    {
        let records = Records { mode: JsonMode::Lines, body_start: 0 };
        match JsonTable::with_records(bytes, records) {
            Ok(table) => Ok(NdjsonTable { table }),
            Err(e) => Err(e),
        }
    }

    /// Shows a view. A search that does not compile is refused, and nothing changes.
    pub fn set_view(&mut self, spec: &ViewSpec) -> (r: Result<(), Error>)
        ensures
            final(self).source() == old(self).source(),
            final(self).state().same_table(&old(self).state()),
            final(self).state().indexed() == old(self).state().indexed(),
            r is Ok <==> crate::view::compiles(*spec),
            r is Ok ==> crate::view::shows(
                final(self).state().slot(),
                crate::json::grid_of(
                    old(self).source(),
                    old(self).state().layout(),
                    old(self).state().keys(),
                ),
                *spec,
            ),
            r matches Err(e) ==> {
                &&& final(self).state().slot() == old(self).state().slot()
                &&& e matches Error::InvalidPattern(text)
                &&& (spec.filter->0).texts() == Err::<Set<Seq<u8>>, Seq<char>>(text@)
            },
    {
        self.table.set_view(spec)
    }

    /// Returns to the order of the source.
    pub fn clear_view(&mut self)
        ensures
            final(self).source() == old(self).source(),
            final(self).state().same_table(&old(self).state()),
            final(self).state().indexed() == old(self).state().indexed(),
            final(self).state().slot().shown() is None,
            !final(self).state().slot().is_building(),
    {
        self.table.clear_view();
    }

    /// How the work on a view stands.
    pub fn view_status(&self) -> (status: ViewStatus)
        ensures
            status.building == self.state().slot().is_building(),
    {
        self.table.view_status()
    }
}

impl ViewportSource for NdjsonTable {
    open spec fn reliable(&self) -> bool {
        true
    }

    open spec fn wf(&self) -> bool {
        true
    }

    open spec fn columns(&self) -> Seq<Column> {
        self.state().columns()
    }

    open spec fn rows(&self) -> RowCount {
        self.state().rows()
    }

    open spec fn source_rows(&self) -> RowCount {
        self.state().source_rows()
    }

    open spec fn shown(&self, range: RowRange, columns: Seq<ColumnId>) -> Seq<Seq<Seq<u8>>> {
        self.state().cells(
            self.source(),
            crate::view::resolved(self.state().slot().shown(), range),
            columns,
        )
    }

    open spec fn stored(&self, range: RowRange, columns: Seq<ColumnId>) -> Seq<Seq<Seq<u8>>> {
        self.state().cells(self.source(), crate::view::contiguous(range), columns)
    }

    open spec fn quality(&self) -> DataQuality {
        DataQuality { ragged_rows: 0, complete: self.state().indexed() is Some }
    }

    fn schema(&self) -> (schema: &Schema) {
        self.table.schema()
    }

    fn row_count(&self) -> (count: RowCount) {
        self.table.row_count()
    }

    fn source_count(&self) -> (count: RowCount) {
        self.table.source_count()
    }

    fn fetch(&self, request: &ViewportRequest, cancel: &CancellationToken) -> (r: Result<
        Viewport,
        Error,
    >) {
        self.table.fetch(request, cancel)
    }

    fn fetch_source(&self, request: &ViewportRequest, cancel: &CancellationToken) -> (r: Result<
        Viewport,
        Error,
    >) {
        self.table.fetch_source(request, cancel)
    }

    fn data_quality(&self) -> (quality: DataQuality) {
        self.table.data_quality()
    }
}

/// The records of a source of lines are its lines from the first byte on.
pub proof fn lines_begin_at_the_first_byte(bytes: Seq<u8>)
    ensures
        line_records().spans(bytes) == crate::json_scan::spans_from(JsonMode::Lines, bytes, 0),
{
}

} // verus!
