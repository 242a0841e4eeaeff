//! The seam between the engine and a user interface: small slices of a table.
use vstd::prelude::*;
use crate::cancel::CancellationToken;
use crate::error::Error;
use crate::search::FilterSpec;
use crate::sort::Direction;

verus! {

/// A column, by its place in the source.
#[derive(Clone, Copy, Debug, PartialEq, Eq, Hash, Structural)]
pub struct ColumnId(pub u32);

/// A request to sort by a column.
#[derive(Clone, Copy, Debug, PartialEq, Eq, Structural)]
pub struct SortKey {
    /// The column whose fields are the keys.
    pub column: ColumnId,
    /// Which end comes first.
    pub direction: Direction,
}

/// A cell: the bytes of a field, as they stand in the source.
#[derive(Clone, Debug, PartialEq, Eq)]
pub struct Cell(pub Vec<u8>);

/// What a column looks like, for alignment. It never changes a cell.
#[derive(Clone, Copy, Debug, PartialEq, Eq, Structural)]
pub enum InferredType {
    /// Text, and whatever is ambiguous.
    Text,
    /// Whole numbers.
    Integer,
    /// Numbers.
    Float,
    /// `true` and `false`.
    Boolean,
}

impl Default for InferredType {
    fn default() -> (r: InferredType)
        ensures
            r == InferredType::Text,
    {
        InferredType::Text
    }
}

/// A column of a table.
#[derive(Clone, Debug)]
pub struct Column {
    /// The place in the source.
    pub id: ColumnId,
    /// The bytes of the header, or a made-up name.
    pub name: Vec<u8>,
    /// What the column looks like.
    pub inferred: InferredType,
}

/// The columns of a table.
#[derive(Clone, Debug)]
pub struct Schema {
    /// The columns, in the order of the source.
    pub columns: Vec<Column>,
}

impl Default for Schema {
    fn default() -> (r: Schema)
        ensures
            r.columns@.len() == 0,
    {
        Schema { columns: Vec::new() }
    }
}

/// The number of rows.
#[derive(Clone, Copy, Debug, PartialEq, Eq, Structural)]
pub enum RowCount {
    /// All rows are counted.
    Exact(u64),
    /// Counting goes on; so many rows there are at least.
    AtLeast(u64),
}

/// Rows of the active view that follow one another.
#[derive(Clone, Copy, Debug, PartialEq, Eq, Structural)]
pub struct RowRange {
    /// The first row.
    pub start: u64,
    /// How many rows.
    pub len: u32,
}

/// A request for a slice of a table.
#[derive(Clone, Debug)]
pub struct ViewportRequest {
    /// The rows.
    pub rows: RowRange,
    /// The columns, in the order in which they are shown.
    pub columns: Vec<ColumnId>,
}

/// A slice of a table, row by row.
#[derive(Clone, Debug)]
pub struct Viewport {
    /// The rows, each with one cell for each column of the request.
    pub rows: Vec<Vec<Cell>>,
}

impl Default for Viewport {
    fn default() -> (r: Viewport)
        ensures
            r.rows@.len() == 0,
    {
        Viewport { rows: Vec::new() }
    }
}

/// The bytes of a row of cells.
pub open spec fn row_bytes(cells: Seq<Cell>) -> Seq<Seq<u8>> {
    cells.map_values(|c: Cell| c.0@)
}

/// The bytes of rows of cells.
pub open spec fn grid_bytes(rows: Seq<Vec<Cell>>) -> Seq<Seq<Seq<u8>>> {
    rows.map_values(|r: Vec<Cell>| row_bytes(r@))
}

impl View for Viewport {
    type V = Seq<Seq<Seq<u8>>>;

    open spec fn view(&self) -> Seq<Seq<Seq<u8>>> {
        grid_bytes(self.rows@)
    }
}

/// The cells of a record for the given columns: a missing field is an empty cell.
pub open spec fn projected(fields: Seq<Seq<u8>>, columns: Seq<ColumnId>) -> Seq<Seq<u8>> {
    columns.map_values(
        |c: ColumnId|
            if c.0 < fields.len() {
                fields[c.0 as int]
            } else {
                Seq::<u8>::empty()
            },
    )
}

/// How the rows of a table are to be shown.
#[derive(Clone, Debug, PartialEq, Eq)]
pub struct ViewSpec {
    /// Which rows to show.
    pub filter: Option<FilterSpec>,
    /// In which order.
    pub sort: Option<SortKey>,
}

impl Default for ViewSpec {
    fn default() -> (r: ViewSpec)
        ensures
            r.filter is None,
            r.sort is None,
    {
        ViewSpec { filter: None, sort: None }
    }
}

/// How the work on a view stands.
#[derive(Clone, Copy, Debug, PartialEq, Eq, Structural)]
pub struct ViewStatus {
    /// Whether a view is being built.
    pub building: bool,
}

/// What is known of the quality of the data.
#[derive(Clone, Copy, Debug, PartialEq, Eq, Structural)]
pub struct DataQuality {
    /// The records whose number of fields differs from that of the first one.
    pub ragged_rows: u64,
    /// Whether the figures are final.
    pub complete: bool,
}

impl Default for DataQuality {
    fn default() -> (r: DataQuality)
        ensures
            r == (DataQuality { ragged_rows: 0, complete: false }),
    {
        DataQuality { ragged_rows: 0, complete: false }
    }
}

/// Whether a fetch may fail with an error: it may be cancelled, and where the source need not be
/// readable, reading may fail.
pub open spec fn failed(reliable: bool, error: Error) -> bool {
    error is Cancelled || (error is Io && !reliable)
}

/// A table of which slices can be fetched.
pub trait ViewportSource {
    /// The invariant of the table.
    spec fn wf(&self) -> bool;

    /// The columns.
    spec fn columns(&self) -> Seq<Column>;

    /// The number of rows of the active view.
    spec fn rows(&self) -> RowCount;

    /// The number of rows of the source, whatever view is active.
    spec fn source_rows(&self) -> RowCount;

    /// The cells of the given rows of the active view.
    spec fn shown(&self, range: RowRange, columns: Seq<ColumnId>) -> Seq<Seq<Seq<u8>>>;

    /// The cells of the given rows in the order of the source.
    spec fn stored(&self, range: RowRange, columns: Seq<ColumnId>) -> Seq<Seq<Seq<u8>>>;

    /// What is known of the quality of the data.
    spec fn quality(&self) -> DataQuality;

    /// Whether rows can always be read, as those of a source in memory can.
    spec fn reliable(&self) -> bool;

    /// The columns of the table.
    fn schema(&self) -> (schema: &Schema)
        requires
            self.wf(),
        ensures
            schema.columns@ == self.columns(),
    ;

    /// The number of rows of the active view.
    fn row_count(&self) -> (count: RowCount)
        requires
            self.wf(),
        ensures
            count == self.rows(),
    ;

    /// The number of rows of the source, whatever view is active.
    fn source_count(&self) -> (count: RowCount)
        requires
            self.wf(),
        ensures
            count == self.source_rows(),
    ;

    /// Fetches rows of the active view, unless it is cancelled meanwhile or the source cannot be
    /// read. To fetch no row never fails.
    fn fetch(&self, request: &ViewportRequest, cancel: &CancellationToken) -> (r: Result<
        Viewport,
        Error,
    >)
        requires
            self.wf(),
        ensures
            match r {
                Ok(viewport) => viewport@ == self.shown(request.rows, request.columns@),
                Err(e) => failed(self.reliable(), e) && self.shown(
                    request.rows,
                    request.columns@,
                ).len() > 0,
            },
    ;

    /// Fetches rows in the order of the source, unless it is cancelled meanwhile or the source cannot
    /// be read.
    fn fetch_source(&self, request: &ViewportRequest, cancel: &CancellationToken) -> (r: Result<
        Viewport,
        Error,
    >)
        requires
            self.wf(),
        ensures
            match r {
                Ok(viewport) => viewport@ == self.stored(request.rows, request.columns@),
                Err(e) => failed(self.reliable(), e) && self.stored(
                    request.rows,
                    request.columns@,
                ).len() > 0,
            },
    ;

    /// What is known of the quality of the data.
    fn data_quality(&self) -> (quality: DataQuality)
        requires
            self.wf(),
        ensures
            quality == self.quality(),
    ;
}

/// The bytes of a slice are those of its cells, each at its row and its column.
pub proof fn slices_hold_their_cells(viewport: Viewport, r: int, c: int)
    ensures
        viewport@.len() == viewport.rows@.len(),
        0 <= r < viewport.rows@.len() ==> viewport@[r].len() == viewport.rows@[r]@.len(),
        0 <= r < viewport.rows@.len() && 0 <= c < viewport.rows@[r]@.len() ==> viewport@[r][c]
            == viewport.rows@[r]@[c].0@,
{
}

} // verus!
