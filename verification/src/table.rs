//! Tables over delimited text.
//!
//! A table can be shown before its index is there: until then, rows are found by reading from the
//! head, and the number of rows is a lower bound. Cells hold the bytes of the fields as they are.
use vstd::prelude::*;
use crate::cancel::{is_stopped, CancellationToken};
use crate::error::Error;
use crate::index::{IndexView, OffsetIndex, Progress};
use crate::number::{is_integer, is_number};
use crate::parse::{Dialect, MAX_RECORD_BYTES};
use crate::records::{read_row, start_reading, Row};
use crate::search::Matcher;
use crate::text::{append, chars_of, equal_ignoring_case, push_decimal, trimmed_field};
use crate::view::{contiguous_rows, ViewBuilder, ViewJob, ViewSlot};
use crate::viewport::{
    Cell, Column, ColumnId, DataQuality, InferredType, RowCount, RowRange, Schema, SortKey, ViewSpec,
    ViewStatus, Viewport, ViewportRequest, ViewportSource,
};

verus! {

/// The number of records before the data.
pub open spec fn header_rows(dialect: Dialect) -> int {
    if dialect.has_header {
        1
    } else {
        0
    }
}

/// The records of a source.
pub open spec fn rows_of(bytes: Seq<u8>, dialect: Dialect) -> Seq<Row> {
    crate::records::csv_rows(bytes, dialect.delimiter, dialect.quote)
}

/// The fields of the rows of a table.
pub open spec fn grid_of(bytes: Seq<u8>, dialect: Dialect) -> Seq<Seq<Seq<u8>>> {
    let rows = rows_of(bytes, dialect);
    let h = header_rows(dialect);
    if rows.len() <= h {
        Seq::empty()
    } else {
        Seq::new((rows.len() - h) as nat, |i: int| rows[h + i].fields)
    }
}

/// A row of empty cells.
pub open spec fn empty_cells(columns: Seq<ColumnId>) -> Seq<Seq<u8>> {
    columns.map_values(|c: ColumnId| Seq::<u8>::empty())
}

/// The part of a source that is looked at for its first record.
pub open spec fn head_of(bytes: Seq<u8>) -> Seq<u8> {
    if bytes.len() <= MAX_RECORD_BYTES {
        bytes
    } else {
        bytes.take(MAX_RECORD_BYTES as int)
    }
}

/// The first record of a source, of which no more than its head is looked at.
pub open spec fn first_of(bytes: Seq<u8>, dialect: Dialect) -> Option<Seq<Seq<u8>>> {
    let rows = rows_of(head_of(bytes), dialect);
    if rows.len() > 0 {
        Some(rows[0].fields)
    } else {
        None
    }
}

/// The cells of a row that is read from the head on.
pub open spec fn streamed_cells(
    bytes: Seq<u8>,
    dialect: Dialect,
    row: int,
    columns: Seq<ColumnId>,
) -> Seq<Seq<u8>> {
    let grid = grid_of(bytes, dialect);
    if row < grid.len() {
        crate::viewport::projected(grid[row], columns)
    } else {
        empty_cells(columns)
    }
}

/// The cells of a row that is found through an index. A row that the index does not find, or that
/// is no record, is a row of empty cells.
pub open spec fn indexed_cells(
    index: IndexView,
    bytes: Seq<u8>,
    dialect: Dialect,
    row: int,
    columns: Seq<ColumnId>,
) -> Seq<Seq<u8>> {
    match index.located(bytes, row + header_rows(dialect)) {
        Some(offset) => if offset <= bytes.len() {
            match first_of(bytes.skip(offset), dialect) {
                Some(fields) => crate::viewport::projected(fields, columns),
                None => empty_cells(columns),
            }
        } else {
            empty_cells(columns)
        },
        None => empty_cells(columns),
    }
}

/// The cells of a row, through the index if there is one.
pub open spec fn cells_at(
    index: Option<IndexView>,
    bytes: Seq<u8>,
    dialect: Dialect,
    row: int,
    columns: Seq<ColumnId>,
) -> Seq<Seq<u8>> {
    match index {
        Some(i) => indexed_cells(i, bytes, dialect, row, columns),
        None => streamed_cells(bytes, dialect, row, columns),
    }
}

/// The cells of rows.
pub open spec fn cells_of(
    index: Option<IndexView>,
    bytes: Seq<u8>,
    dialect: Dialect,
    rows: Seq<u64>,
    columns: Seq<ColumnId>,
) -> Seq<Seq<Seq<u8>>> {
    rows.map_values(|r: u64| cells_at(index, bytes, dialect, r as int, columns))
}

/// Whether the bytes of a record can be read again from its start: it is no longer than what is
/// looked at, it is found from the kept offset before it, and it does not start with the bytes of a
/// byte order mark (which a new reader passes over), unless it is the first record.
pub open spec fn readable(bytes: Seq<u8>, dialect: Dialect, record: int) -> bool {
    let rows = rows_of(bytes, dialect);
    &&& rows[record].end - rows[record].start <= MAX_RECORD_BYTES
    &&& record == 0 || !crate::records::has_mark(bytes.skip(rows[record].start))
    &&& crate::index::can_resume(bytes, dialect.delimiter, dialect.quote, record)
}

/// What is found through the index over a source is what is found by reading from the head, byte
/// for byte: for every row of the source that can be read again from its start, and for every row
/// behind the last one.
pub proof fn indexed_rows_match_streamed_rows(
    bytes: Seq<u8>,
    dialect: Dialect,
    row: int,
    columns: Seq<ColumnId>,
)
    requires
        bytes.len() <= u64::MAX,
        0 <= row,
        crate::records::all_settled(bytes, dialect.delimiter, dialect.quote),
        row < grid_of(bytes, dialect).len() ==> readable(bytes, dialect, row + header_rows(dialect)),
    ensures
        indexed_cells(
            crate::index::index_over(bytes, dialect.delimiter, dialect.quote),
            bytes,
            dialect,
            row,
            columns,
        ) == streamed_cells(bytes, dialect, row, columns),
{
    let rows = rows_of(bytes, dialect);
    let record = row + header_rows(dialect);
    let d = dialect.delimiter;
    let q = dialect.quote;
    if row >= grid_of(bytes, dialect).len() {
        crate::index::index_ends_with_the_source(bytes, d, q, record);
    } else {
        crate::index::index_finds_records(bytes, d, q, record);
        crate::records::records_lie_in_order(bytes, d, q, record, record);
        crate::records::lemma_rows_from(bytes, 0, crate::records::mark_len(bytes), d, q);
        let start = rows[record].start;
        let tail = bytes.skip(start);
        let head = head_of(tail);
        let body = crate::records::body_start(bytes, rows, record);
        let mark = body - start;
        let n = rows[record].end - body;
        assert(crate::records::settled(bytes.skip(body), d, q));
        assert(crate::records::first_record(bytes.skip(body), d, q) == Some(
            (rows[record].fields, n),
        ));
        if record == 0 {
            assert(tail =~= bytes);
        }
        assert(crate::records::mark_len(head) == mark);
        assert(head.skip(mark) =~= bytes.skip(body).take(head.len() - mark));
        assert(rows_of(head, dialect) == crate::records::rows_from(head, 0, mark, d, q));
        assert(rows_of(head, dialect)[0].fields == rows[record].fields);
    }
}

/// A row of empty cells.
pub fn empty_row(columns: &[ColumnId]) -> (cells: Vec<Cell>)
    ensures
        crate::viewport::row_bytes(cells@) == empty_cells(columns@),
{
    let mut cells: Vec<Cell> = Vec::new();
    for i in 0..columns.len()
        invariant
            cells@.len() == i,
            forall|k: int| 0 <= k < i ==> (#[trigger] cells@[k]).0@ == Seq::<u8>::empty(),
    {
        cells.push(Cell(Vec::new()));
    }
    assert(crate::viewport::row_bytes(cells@) =~= empty_cells(columns@));
    cells
}

/// The bytes of a field of a record; none where there is no such field.
fn field_bytes(record: &csv::ByteRecord, column: u32) -> (bytes: Vec<u8>)
    ensures
        bytes@ == crate::view::cell_of(
            crate::records::record_fields(*record),
            ColumnId(column),
        ),
{
    match record.get(column as usize) {
        Some(field) => vstd::slice::slice_to_vec(field),
        None => {
            let none: Vec<u8> = Vec::new();
            assert(none@ =~= Seq::empty());
            none
        },
    }
}

/// The cells of a record for the given columns.
pub fn project_record(record: &csv::ByteRecord, columns: &[ColumnId]) -> (cells: Vec<Cell>)
    ensures
        crate::viewport::row_bytes(cells@) == crate::viewport::projected(
            crate::records::record_fields(*record),
            columns@,
        ),
{
    let ghost fields = crate::records::record_fields(*record);
    let mut cells: Vec<Cell> = Vec::new();
    for i in 0..columns.len()
        invariant
            fields == crate::records::record_fields(*record),
            cells@.len() == i,
            forall|k: int|
                0 <= k < i ==> (#[trigger] cells@[k]).0@ == crate::view::cell_of(
                    fields,
                    columns@[k],
                ),
    {
        cells.push(Cell(field_bytes(record, columns[i].0)));
    }
    assert(crate::viewport::row_bytes(cells@) =~= crate::viewport::projected(fields, columns@));
    cells
}

/// The part of a source that is looked at for its first record.
fn bounded(bytes: &[u8]) -> (head: &[u8])
    ensures
        head@ == head_of(bytes@),
{
    if bytes.len() <= MAX_RECORD_BYTES {
        bytes
    } else {
        let head = vstd::slice::slice_subrange(bytes, 0, MAX_RECORD_BYTES);
        assert(head@ =~= head_of(bytes@));
        head
    }
}

/// The first record of a source.
fn parse_one_record(bytes: &[u8], dialect: &Dialect) -> (r: Option<csv::ByteRecord>)
    ensures
        match r {
            Some(record) => first_of(bytes@, *dialect) == Some(
                crate::records::record_fields(record),
            ),
            None => first_of(bytes@, *dialect) is None,
        },
{
    let head = bounded(bytes);
    let mut reader = start_reading(head, dialect.delimiter, dialect.quote);
    let mut record = csv::ByteRecord::new();
    if read_row(
        &mut reader,
        &mut record,
        Ghost(head@),
        Ghost(dialect.delimiter),
        Ghost(dialect.quote),
        Ghost(0),
    ) {
        Some(record)
    } else {
        None
    }
}

/// The greatest of some rows.
fn greatest(rows: &[u64]) -> (r: Option<u64>)
    ensures
        r is None <==> rows@.len() == 0,
        r matches Some(m) ==> forall|i: int| 0 <= i < rows@.len() ==> #[trigger] rows@[i] <= m,
{
    if rows.len() == 0 {
        return None;
    }
    let mut m: u64 = rows[0];
    for i in 0..rows.len()
        invariant
            forall|k: int| 0 <= k < i ==> #[trigger] rows@[k] <= m,
    {
        if rows[i] > m {
            m = rows[i];
        }
    }
    Some(m)
}

/// Fetches rows by reading from the head on, unless it is cancelled meanwhile.
pub fn fetch_streaming(
    bytes: &[u8],
    dialect: &Dialect,
    data_rows: &[u64],
    columns: &[ColumnId],
    cancel: &CancellationToken,
) -> (r: Result<Viewport, Error>)
    ensures
        match r {
            Ok(viewport) => viewport@ == cells_of(None, bytes@, *dialect, data_rows@, columns@),
            Err(e) => e is Cancelled && data_rows@.len() > 0,
        },
{
    fetch_from_head(bytes, dialect, data_rows, columns, Some(cancel))
}

/// Reads rows from the head on, unless it is cancelled meanwhile. Without a token it is not
/// cancelled.
pub fn fetch_from_head(
    bytes: &[u8],
    dialect: &Dialect,
    data_rows: &[u64],
    columns: &[ColumnId],
    cancel: Option<&CancellationToken>,
) -> (r: Result<Viewport, Error>)
    ensures
        match r {
            Ok(viewport) => viewport@ == cells_of(None, bytes@, *dialect, data_rows@, columns@),
            Err(e) => e is Cancelled && cancel is Some && data_rows@.len() > 0,
        },
{
    let ghost rows = rows_of(bytes@, *dialect);
    let ghost grid = grid_of(bytes@, *dialect);
    let h: u64 = if dialect.has_header {
        1
    } else {
        0
    };
    let mut found: Vec<Vec<Cell>> = Vec::new();
    for k in 0..data_rows.len()
        invariant
            found@.len() == k,
            forall|j: int|
                0 <= j < k ==> crate::viewport::row_bytes((#[trigger] found@[j])@) == empty_cells(
                    columns@,
                ),
    {
        found.push(empty_row(columns));
    }
    let last: u64 = match greatest(data_rows) {
        Some(m) => m,
        None => {
            let viewport = Viewport { rows: found };
            assert(viewport@ =~= cells_of(None, bytes@, *dialect, data_rows@, columns@));
            return Ok(viewport);
        },
    };
    let total: usize = bytes.len();
    proof {
        crate::records::lemma_rows_from(
            bytes@,
            0,
            crate::records::mark_len(bytes@),
            dialect.delimiter,
            dialect.quote,
        );
    }
    let end: u64 = last.saturating_add(h);
    let mut reader = start_reading(bytes, dialect.delimiter, dialect.quote);
    let mut record = csv::ByteRecord::new();
    let mut i: u64 = 0;
    let mut more = true;
    while more && i <= end
        invariant
            rows == rows_of(bytes@, *dialect),
            grid == grid_of(bytes@, *dialect),
            rows.len() <= total,
            h == header_rows(*dialect),
            forall|k: int| 0 <= k < data_rows@.len() ==> #[trigger] data_rows@[k] <= last,
            data_rows@.len() > 0,
            end == if last + h <= u64::MAX {
                last + h
            } else {
                u64::MAX as int
            },
            found@.len() == data_rows@.len(),
            i <= rows.len(),
            !more ==> i == rows.len(),
            more ==> crate::records::has_read(
                reader,
                bytes@,
                dialect.delimiter,
                dialect.quote,
                i as int,
            ),
            forall|j: int|
                0 <= j < found@.len() ==> crate::viewport::row_bytes((#[trigger] found@[j])@)
                    == if data_rows@[j] + h < i {
                    crate::viewport::projected(grid[data_rows@[j] as int], columns@)
                } else {
                    empty_cells(columns@)
                },
        decreases rows.len() - i + if more {
            1int
        } else {
            0
        },
    {
        if is_stopped(cancel) {
            return Err(Error::Cancelled);
        }
        more = read_row(
            &mut reader,
            &mut record,
            Ghost(bytes@),
            Ghost(dialect.delimiter),
            Ghost(dialect.quote),
            Ghost(i as int),
        );
        if more {
            if i >= h {
                place(&mut found, data_rows, i - h, &record, columns);
                assert(grid[i - h] == rows[i as int].fields);
            }
            i += 1;
        }
    }
    let viewport = Viewport { rows: found };
    proof {
        assert forall|j: int| 0 <= j < viewport@.len() implies #[trigger] viewport@[j]
            == streamed_cells(bytes@, *dialect, data_rows@[j] as int, columns@) by {
            assert(viewport@[j] == crate::viewport::row_bytes(found@[j]@));
            assert(data_rows@[j] <= last);
        }
        assert(viewport@ =~= cells_of(None, bytes@, *dialect, data_rows@, columns@));
    }
    Ok(viewport)
}

/// Puts a record wherever its row is asked for.
fn place(
    found: &mut Vec<Vec<Cell>>,
    data_rows: &[u64],
    row: u64,
    record: &csv::ByteRecord,
    columns: &[ColumnId],
)
    requires
        old(found)@.len() == data_rows@.len(),
    ensures
        final(found)@.len() == data_rows@.len(),
        forall|j: int|
            0 <= j < data_rows@.len() ==> crate::viewport::row_bytes((#[trigger] final(found)@[j])@)
                == if data_rows@[j] == row {
                crate::viewport::projected(crate::records::record_fields(*record), columns@)
            } else {
                crate::viewport::row_bytes(old(found)@[j]@)
            },
{
    for k in 0..data_rows.len()
        invariant
            found@.len() == data_rows@.len(),
            forall|j: int|
                0 <= j < data_rows@.len() ==> crate::viewport::row_bytes((#[trigger] found@[j])@)
                    == if j < k && data_rows@[j] == row {
                    crate::viewport::projected(crate::records::record_fields(*record), columns@)
                } else {
                    crate::viewport::row_bytes(old(found)@[j]@)
                },
    {
        if data_rows[k] == row {
            let cells = project_record(record, columns);
            found.set(k, cells);
        }
    }
}

/// Fetches rows through an index, unless it is cancelled meanwhile. Without a token it is not
/// cancelled.
pub fn fetch_indexed(
    index: &OffsetIndex,
    bytes: &[u8],
    dialect: &Dialect,
    data_rows: &[u64],
    columns: &[ColumnId],
    cancel: Option<&CancellationToken>,
) -> (r: Result<Viewport, Error>)
    ensures
        match r {
            Ok(viewport) => viewport@ == cells_of(
                Some(index@),
                bytes@,
                *dialect,
                data_rows@,
                columns@,
            ),
            Err(e) => e is Cancelled && cancel is Some && data_rows@.len() > 0,
        },
{
    let mut rows: Vec<Vec<Cell>> = Vec::new();
    for k in 0..data_rows.len()
        invariant
            rows@.len() == k,
            forall|j: int|
                0 <= j < k ==> crate::viewport::row_bytes((#[trigger] rows@[j])@) == indexed_cells(
                    index@,
                    bytes@,
                    *dialect,
                    data_rows@[j] as int,
                    columns@,
                ),
    {
        if is_stopped(cancel) {
            return Err(Error::Cancelled);
        }
        rows.push(row_cells(index, bytes, dialect, data_rows[k], columns));
    }
    let viewport = Viewport { rows };
    assert(viewport@ =~= cells_of(Some(index@), bytes@, *dialect, data_rows@, columns@));
    Ok(viewport)
}

/// The cells of a row that is found through an index.
pub fn row_cells(
    index: &OffsetIndex,
    bytes: &[u8],
    dialect: &Dialect,
    row: u64,
    columns: &[ColumnId],
) -> (cells: Vec<Cell>)
    ensures
        crate::viewport::row_bytes(cells@) == indexed_cells(
            index@,
            bytes@,
            *dialect,
            row as int,
            columns@,
        ),
{
    let h: u64 = if dialect.has_header {
        1
    } else {
        0
    };
    if row > u64::MAX - h {
        return empty_row(columns);
    }
    match index.offset_of_row(bytes, row + h) {
        Some(offset) => {
            if offset > bytes.len() as u64 {
                return empty_row(columns);
            }
            let tail = vstd::slice::slice_subrange(bytes, offset as usize, bytes.len());
            assert(tail@ =~= bytes@.skip(offset as int));
            match parse_one_record(tail, dialect) {
                Some(record) => project_record(&record, columns),
                None => empty_row(columns),
            }
        },
        None => empty_row(columns),
    }
}

/// Whether the text of a field is empty or a whole number.
pub open spec fn whole_or_empty(text: Option<Seq<char>>) -> bool {
    text matches Some(t) && (t.len() == 0 || crate::number::is_whole(t))
}

/// Whether the text of a field is empty or a number.
pub open spec fn number_or_empty(text: Option<Seq<char>>) -> bool {
    text matches Some(t) && (t.len() == 0 || crate::number::numeral(t) is Some)
}

/// Whether the text of a field is empty, `true` or `false`.
pub open spec fn truth_or_empty(text: Option<Seq<char>>) -> bool {
    text matches Some(t) && (t.len() == 0 || crate::text::same_letters(t, "true"@)
        || crate::text::same_letters(t, "false"@))
}

/// Whether some text is not empty.
pub open spec fn any_value(texts: Seq<Option<Seq<char>>>) -> bool {
    exists|i: int| 0 <= i < texts.len() && (#[trigger] texts[i] matches Some(t) && t.len() > 0)
}

/// What a column looks like whose fields have the given texts (nothing for a field that is not
/// UTF-8): a type only where every text fits it, and empty texts fit every type.
pub open spec fn type_of(texts: Seq<Option<Seq<char>>>) -> InferredType {
    if !any_value(texts) {
        InferredType::Text
    } else if forall|i: int| 0 <= i < texts.len() ==> whole_or_empty(#[trigger] texts[i]) {
        InferredType::Integer
    } else if forall|i: int| 0 <= i < texts.len() ==> number_or_empty(#[trigger] texts[i]) {
        InferredType::Float
    } else if forall|i: int| 0 <= i < texts.len() ==> truth_or_empty(#[trigger] texts[i]) {
        InferredType::Boolean
    } else {
        InferredType::Text
    }
}

/// What is known of a column from some of its fields.
struct TypeFit {
    any: bool,
    whole: bool,
    number: bool,
    truth: bool,
}

impl TypeFit {
    spec fn describes(&self, texts: Seq<Option<Seq<char>>>) -> bool {
        &&& self.any == any_value(texts)
        &&& self.whole == forall|i: int|
            0 <= i < texts.len() ==> whole_or_empty(#[trigger] texts[i])
        &&& self.number == forall|i: int|
            0 <= i < texts.len() ==> number_or_empty(#[trigger] texts[i])
        &&& self.truth == forall|i: int|
            0 <= i < texts.len() ==> truth_or_empty(#[trigger] texts[i])
    }

    fn new() -> (r: TypeFit)
        ensures
            r.describes(Seq::empty()),
    {
        TypeFit { any: false, whole: true, number: true, truth: true }
    }

    /// Takes one more field into account.
    fn observe(self, field: &[u8], Ghost(texts): Ghost<Seq<Option<Seq<char>>>>) -> (r: TypeFit)
        requires
            self.describes(texts),
        ensures
            r.describes(texts.push(crate::text::field_text(field@))),
    {
        let ghost text = crate::text::field_text(field@);
        let ghost after = texts.push(text);
        proof {
            assert forall|i: int| 0 <= i < texts.len() implies after[i] == texts[i] by {}
            assert(after[texts.len() as int] == text);
        }
        let r = match trimmed_field(field) {
            None => TypeFit { any: self.any, whole: false, number: false, truth: false },
            Some(t) => if t.len() == 0 {
                self
            } else {
                let yes = chars_of("true");
                let no = chars_of("false");
                let truth = equal_ignoring_case(t.as_slice(), yes.as_slice())
                    || equal_ignoring_case(t.as_slice(), no.as_slice());
                TypeFit {
                    any: true,
                    whole: self.whole && is_integer(t.as_slice()),
                    number: self.number && is_number(t.as_slice()),
                    truth: self.truth && truth,
                }
            },
        };
        proof {
            if any_value(texts) {
                let i = choose|i: int|
                    0 <= i < texts.len() && (#[trigger] texts[i] matches Some(t) && t.len() > 0);
                assert(after[i] == texts[i]);
            }
            if any_value(after) {
                let i = choose|i: int|
                    0 <= i < after.len() && (#[trigger] after[i] matches Some(t) && t.len() > 0);
                if i < texts.len() {
                    assert(texts[i] == after[i]);
                }
            }
            assert(r.whole == forall|i: int|
                0 <= i < after.len() ==> whole_or_empty(#[trigger] after[i]));
            assert(r.number == forall|i: int|
                0 <= i < after.len() ==> number_or_empty(#[trigger] after[i]));
            assert(r.truth == forall|i: int|
                0 <= i < after.len() ==> truth_or_empty(#[trigger] after[i]));
        }
        r
    }

    fn resolve(&self, Ghost(texts): Ghost<Seq<Option<Seq<char>>>>) -> (r: InferredType)
        requires
            self.describes(texts),
        ensures
            r == type_of(texts),
    {
        if !self.any {
            InferredType::Text
        } else if self.whole {
            InferredType::Integer
        } else if self.number {
            InferredType::Float
        } else if self.truth {
            InferredType::Boolean
        } else {
            InferredType::Text
        }
    }
}

/// The records that are looked at for the types of columns.
pub const TYPE_SAMPLE_ROWS: usize = 200;

/// The texts of a column in the first `n` rows.
pub open spec fn texts_of(grid: Seq<Seq<Seq<u8>>>, column: u32, n: int) -> Seq<Option<Seq<char>>> {
    Seq::new(
        n as nat,
        |i: int| crate::text::field_text(crate::view::cell_of(grid[i], ColumnId(column))),
    )
}

/// How many rows are looked at for the types of columns.
pub open spec fn sample_len(grid: Seq<Seq<Seq<u8>>>) -> int {
    if grid.len() < TYPE_SAMPLE_ROWS {
        grid.len() as int
    } else {
        TYPE_SAMPLE_ROWS as int
    }
}

/// What a column looks like, from the rows at the head of a source.
pub open spec fn column_type(bytes: Seq<u8>, dialect: Dialect, column: u32) -> InferredType {
    let grid = grid_of(head_of(bytes), dialect);
    type_of(texts_of(grid, column, sample_len(grid)))
}

/// What the columns of a source look like.
pub fn infer_column_types(bytes: &[u8], dialect: &Dialect, column_count: u32) -> (types: Vec<
    InferredType,
>)
    ensures
        types@ == Seq::new(
            column_count as nat,
            |c: int| column_type(bytes@, *dialect, c as u32),
        ),
{
    let head = bounded(bytes);
    let ghost rows = rows_of(head@, *dialect);
    let ghost grid = grid_of(head@, *dialect);
    let mut reader = start_reading(head, dialect.delimiter, dialect.quote);
    let mut record = csv::ByteRecord::new();
    let mut fits: Vec<TypeFit> = Vec::new();
    for c in 0..column_count
        invariant
            fits@.len() == c,
            forall|k: int| 0 <= k < c ==> (#[trigger] fits@[k]).describes(Seq::empty()),
    {
        fits.push(TypeFit::new());
    }
    let skip: usize = if dialect.has_header {
        1
    } else {
        0
    };
    let mut physical: usize = 0;
    let mut sampled: usize = 0;
    let mut more = true;
    proof {
        assert forall|k: int| 0 <= k < column_count implies (#[trigger] fits@[k]).describes(
            texts_of(grid, k as u32, 0),
        ) by {
            assert(texts_of(grid, k as u32, 0) =~= Seq::empty());
        }
    }
    while more && sampled < TYPE_SAMPLE_ROWS
        invariant
            rows == rows_of(head@, *dialect),
            grid == grid_of(head@, *dialect),
            skip == header_rows(*dialect),
            sampled <= TYPE_SAMPLE_ROWS,
            physical <= rows.len(),
            sampled == if physical <= skip {
                0
            } else {
                physical - skip
            },
            !more ==> physical == rows.len(),
            more ==> crate::records::has_read(
                reader,
                head@,
                dialect.delimiter,
                dialect.quote,
                physical as int,
            ),
            fits@.len() == column_count,
            forall|k: int|
                0 <= k < column_count ==> (#[trigger] fits@[k]).describes(
                    texts_of(grid, k as u32, sampled as int),
                ),
        decreases
            TYPE_SAMPLE_ROWS + skip - physical + if more {
                1int
            } else {
                0
            },
    {
        more = read_row(
            &mut reader,
            &mut record,
            Ghost(head@),
            Ghost(dialect.delimiter),
            Ghost(dialect.quote),
            Ghost(physical as int),
        );
        if more {
            if physical < skip {
                physical += 1;
            } else {
                let ghost before = fits@;
                let mut next: Vec<TypeFit> = Vec::new();
                for c in 0..column_count
                    invariant
                        before == fits@,
                        fits@.len() == column_count,
                        next@.len() == c,
                        sampled < grid.len(),
                        crate::records::record_fields(record) == grid[sampled as int],
                        forall|k: int|
                            0 <= k < column_count ==> (#[trigger] fits@[k]).describes(
                                texts_of(grid, k as u32, sampled as int),
                            ),
                        forall|k: int|
                            0 <= k < c ==> (#[trigger] next@[k]).describes(
                                texts_of(grid, k as u32, sampled + 1),
                            ),
                {
                    let field = field_bytes(&record, c);
                    let fit = TypeFit {
                        any: fits[c as usize].any,
                        whole: fits[c as usize].whole,
                        number: fits[c as usize].number,
                        truth: fits[c as usize].truth,
                    };
                    assert(fits@[c as int].describes(texts_of(grid, c, sampled as int)));
                    let seen = fit.observe(
                        field.as_slice(),
                        Ghost(texts_of(grid, c, sampled as int)),
                    );
                    assert(texts_of(grid, c, sampled as int).push(
                        crate::text::field_text(field@),
                    ) =~= texts_of(grid, c, sampled + 1));
                    next.push(seen);
                }
                fits = next;
                physical += 1;
                sampled += 1;
            }
        }
    }
    assert(sampled == sample_len(grid));
    let mut types: Vec<InferredType> = Vec::new();
    for c in 0..column_count
        invariant
            grid == grid_of(head_of(bytes@), *dialect),
            sampled == sample_len(grid),
            fits@.len() == column_count,
            forall|k: int|
                0 <= k < column_count ==> (#[trigger] fits@[k]).describes(
                    texts_of(grid, k as u32, sampled as int),
                ),
            types@.len() == c,
            forall|k: int|
                0 <= k < c ==> #[trigger] types@[k] == column_type(bytes@, *dialect, k as u32),
    {
        let t = fits[c as usize].resolve(Ghost(texts_of(grid, c, sampled as int)));
        types.push(t);
    }
    assert(types@ =~= Seq::new(
        column_count as nat,
        |c: int| column_type(bytes@, *dialect, c as u32),
    ));
    types
}

/// A column, as plain data.
pub struct ColumnView {
    pub id: u32,
    pub name: Seq<u8>,
    pub inferred: InferredType,
}

/// The plain data of columns.
pub open spec fn column_views(columns: Seq<Column>) -> Seq<ColumnView> {
    columns.map_values(
        |c: Column| ColumnView { id: c.id.0, name: c.name@, inferred: c.inferred },
    )
}

/// The name of a column without a header.
pub open spec fn made_up_name(column: int) -> Seq<char> {
    "col"@ + crate::text::decimal_text(column)
}

/// The columns of a source: one for each field of the first record (of no more than the 32-bit
/// range), named by the header if there is one.
pub open spec fn columns_of(bytes: Seq<u8>, dialect: Dialect) -> Seq<ColumnView> {
    match first_of(bytes, dialect) {
        None => Seq::empty(),
        Some(fields) => Seq::new(
            if fields.len() <= u32::MAX {
                fields.len()
            } else {
                u32::MAX as nat
            },
            |i: int|
                ColumnView {
                    id: i as u32,
                    name: if dialect.has_header {
                        fields[i]
                    } else {
                        vstd::utf8::encode_utf8(made_up_name(i))
                    },
                    inferred: column_type(bytes, dialect, i as u32),
                },
        ),
    }
}

/// The name of a column without a header.
pub fn column_label(column: u32) -> (name: String)
    ensures
        name@ == made_up_name(column as int),
{
    let mut name = String::new();
    append(&mut name, "col");
    push_decimal(&mut name, column as u64);
    assert(name@ =~= made_up_name(column as int));
    name
}

/// The columns of a source.
pub fn derive_schema(bytes: &[u8], dialect: &Dialect) -> (schema: Schema)
    ensures
        column_views(schema.columns@) == columns_of(bytes@, *dialect),
{
    let record = match parse_one_record(bytes, dialect) {
        Some(record) => record,
        None => {
            let schema = Schema { columns: Vec::new() };
            assert(column_views(schema.columns@) =~= columns_of(bytes@, *dialect));
            return schema;
        },
    };
    let ghost fields = crate::records::record_fields(record);
    let n: usize = record.len();
    let column_count: u32 = if n <= u32::MAX as usize {
        n as u32
    } else {
        u32::MAX
    };
    let types = infer_column_types(bytes, dialect, column_count);
    let mut columns: Vec<Column> = Vec::new();
    for i in 0..column_count
        invariant
            column_count <= n == fields.len(),
            column_count == columns_of(bytes@, *dialect).len(),
            first_of(bytes@, *dialect) == Some(fields),
            fields == crate::records::record_fields(record),
            types@ == Seq::new(
                column_count as nat,
                |c: int| column_type(bytes@, *dialect, c as u32),
            ),
            columns@.len() == i,
            forall|k: int|
                0 <= k < i ==> #[trigger] column_views(columns@)[k] == columns_of(
                    bytes@,
                    *dialect,
                )[k],
    {
        let name: Vec<u8> = if dialect.has_header {
            field_bytes(&record, i)
        } else {
            let label = column_label(i);
            vstd::slice::slice_to_vec(label.as_str().as_bytes())
        };
        let ghost before = columns@;
        columns.push(Column { id: ColumnId(i), name, inferred: types[i as usize] });
        assert forall|k: int| 0 <= k < i + 1 implies #[trigger] column_views(columns@)[k]
            == columns_of(bytes@, *dialect)[k] by {
            if k < i {
                assert(column_views(columns@)[k] == column_views(before)[k]);
            }
        }
    }
    let schema = Schema { columns };
    assert(column_views(schema.columns@) =~= columns_of(bytes@, *dialect));
    schema
}

/// The rows that a view shows, unless it is cancelled meanwhile. Without a token it is not
/// cancelled.
pub fn build_view(
    bytes: &[u8],
    dialect: &Dialect,
    matcher: &Option<Matcher>,
    sort: Option<SortKey>,
    cancel: Option<&CancellationToken>,
) -> (r: Result<Vec<u64>, Error>)
    ensures
        match r {
            Ok(shown) => crate::view::is_view(
                grid_of(bytes@, *dialect),
                crate::view::search_of(*matcher),
                sort,
                shown@,
            ),
            Err(e) => e is Cancelled && cancel is Some && grid_of(bytes@, *dialect).len() > 0,
        },
{
    let ghost rows = rows_of(bytes@, *dialect);
    let ghost grid = grid_of(bytes@, *dialect);
    let ghost search = crate::view::search_of(*matcher);
    let h: u64 = if dialect.has_header {
        1
    } else {
        0
    };
    let total: usize = bytes.len();
    proof {
        crate::records::lemma_rows_from(
            bytes@,
            0,
            crate::records::mark_len(bytes@),
            dialect.delimiter,
            dialect.quote,
        );
    }
    let mut builder = ViewBuilder::new(sort);
    assert(builder.covers(grid, search, 0));
    let mut reader = start_reading(bytes, dialect.delimiter, dialect.quote);
    let mut record = csv::ByteRecord::new();
    let mut i: u64 = 0;
    let mut more = true;
    while more
        invariant
            rows == rows_of(bytes@, *dialect),
            grid == grid_of(bytes@, *dialect),
            search == crate::view::search_of(*matcher),
            h == header_rows(*dialect),
            rows.len() <= total,
            i <= rows.len(),
            !more ==> i == rows.len(),
            more ==> crate::records::has_read(
                reader,
                bytes@,
                dialect.delimiter,
                dialect.quote,
                i as int,
            ),
            builder.order() == sort,
            builder.covers(
                grid,
                search,
                if i <= h {
                    0
                } else {
                    i - h
                },
            ),
        decreases rows.len() - i + if more {
            1int
        } else {
            0
        },
    {
        more = read_row(
            &mut reader,
            &mut record,
            Ghost(bytes@),
            Ghost(dialect.delimiter),
            Ghost(dialect.quote),
            Ghost(i as int),
        );
        if more {
            if i >= h {
                if i % 4096 == 0 {
                    if let Some(token) = cancel {
                        if token.is_cancelled() {
                            return Err(Error::Cancelled);
                        }
                    }
                }
                let row: u64 = i - h;
                assert(grid[row as int] == crate::records::record_fields(record));
                let keep = match matcher {
                    Some(m) => m.matches(&record),
                    None => true,
                };
                assert(keep == crate::view::passes(search, grid[row as int]));
                if keep {
                    let key: Vec<u8> = match sort {
                        Some(k) => field_bytes(&record, k.column.0),
                        None => Vec::new(),
                    };
                    let ghost before = builder;
                    builder.take(row, key);
                    proof {
                        if sort is Some {
                            let column = (sort->0).column;
                            assert(key@ == crate::view::cell_of(grid[row as int], column));
                            assert(crate::view::keys_of(grid, builder.taken(), column)
                                =~= crate::view::keys_of(grid, before.taken(), column).push(
                                key@,
                            ));
                        }
                        assert(crate::view::kept(grid, search, row + 1) =~= before.taken().push(
                            row,
                        ));
                    }
                } else {
                    assert(crate::view::kept(grid, search, row + 1) == builder.taken());
                }
            }
            i += 1;
        }
    }
    Ok(builder.finish())
}

/// The state of a table over delimited text, apart from the bytes of the source.
pub struct CsvState {
    schema: Schema,
    dialect: Dialect,
    index: Option<OffsetIndex>,
    frontier: u64,
    view: ViewSlot,
}

impl CsvState {
    /// The columns.
    pub closed spec fn columns(&self) -> Seq<Column> {
        self.schema.columns@
    }

    /// The dialect.
    pub closed spec fn split(&self) -> Dialect {
        self.dialect
    }

    /// The index, once it is there.
    pub closed spec fn indexed(&self) -> Option<IndexView> {
        match self.index {
            Some(i) => Some(i@),
            None => None,
        }
    }

    /// The records counted so far.
    pub closed spec fn counted(&self) -> u64 {
        self.frontier
    }

    /// The active view.
    pub closed spec fn slot(&self) -> ViewSlot {
        self.view
    }

    /// The number of rows of the source.
    pub open spec fn source_rows(&self) -> RowCount {
        let h = header_rows(self.split());
        match self.indexed() {
            Some(index) => RowCount::Exact(
                if index.row_count >= h {
                    (index.row_count - h) as u64
                } else {
                    0
                },
            ),
            None => RowCount::AtLeast(
                if self.counted() >= h {
                    (self.counted() - h) as u64
                } else {
                    0
                },
            ),
        }
    }

    /// The number of rows of the active view.
    pub open spec fn rows(&self) -> RowCount {
        match self.slot().shown() {
            Some(shown) => RowCount::Exact(shown.len() as u64),
            None => self.source_rows(),
        }
    }

    /// What is known of the quality of the data.
    pub open spec fn quality(&self) -> DataQuality {
        match self.indexed() {
            Some(index) => DataQuality { ragged_rows: index.ragged_rows, complete: true },
            None => DataQuality { ragged_rows: 0, complete: false },
        }
    }

    /// The cells of rows of the table.
    pub open spec fn cells(
        &self,
        bytes: Seq<u8>,
        rows: Seq<u64>,
        columns: Seq<ColumnId>,
    ) -> Seq<Seq<Seq<u8>>> {
        cells_of(self.indexed(), bytes, self.split(), rows, columns)
    }

    /// A table whose source has just been opened: the columns are known, nothing is counted.
    pub fn new(bytes: &[u8], dialect: Dialect) -> (r: CsvState)
        ensures
            column_views(r.columns()) == columns_of(bytes@, dialect),
            r.split() == dialect,
            r.indexed() is None,
            r.counted() == 0,
            r.slot().shown() is None,
            !r.slot().is_building(),
            r.slot().current() == 0,
    {
        CsvState {
            schema: derive_schema(bytes, &dialect),
            dialect,
            index: None,
            frontier: 0,
            view: ViewSlot::new(),
        }
    }

    /// Takes note of how far the building of the index has come.
    pub fn note_progress(&mut self, progress: Progress)
        ensures
            final(self).counted() == progress.rows_indexed,
            final(self).indexed() == old(self).indexed(),
            final(self).columns() == old(self).columns(),
            final(self).split() == old(self).split(),
            final(self).slot() == old(self).slot(),
    {
        self.frontier = progress.rows_indexed;
    }

    /// Installs the index.
    pub fn set_index(&mut self, index: OffsetIndex)
        ensures
            final(self).indexed() == Some(index@),
            final(self).counted() == index@.row_count,
            final(self).columns() == old(self).columns(),
            final(self).split() == old(self).split(),
            final(self).slot() == old(self).slot(),
    {
        self.frontier = index.row_count();
        self.index = Some(index);
    }

    /// The columns.
    pub fn schema(&self) -> (schema: &Schema)
        ensures
            schema.columns@ == self.columns(),
    {
        &self.schema
    }

    /// The dialect.
    pub fn dialect(&self) -> (dialect: Dialect)
        ensures
            dialect == self.split(),
    {
        self.dialect
    }

    /// The number of rows of the active view.
    pub fn row_count(&self) -> (count: RowCount)
        ensures
            count == self.rows(),
    {
        match self.view.len() {
            Some(n) => RowCount::Exact(n),
            None => self.source_count(),
        }
    }

    /// The number of rows of the source, whatever view is active.
    pub fn source_count(&self) -> (count: RowCount)
        ensures
            count == self.source_rows(),
    {
        let h: u64 = if self.dialect.has_header {
            1
        } else {
            0
        };
        match &self.index {
            Some(index) => RowCount::Exact(index.row_count().saturating_sub(h)),
            None => RowCount::AtLeast(self.frontier.saturating_sub(h)),
        }
    }

    /// What is known of the quality of the data.
    pub fn data_quality(&self) -> (quality: DataQuality)
        ensures
            quality == self.quality(),
    {
        match &self.index {
            Some(index) => DataQuality { ragged_rows: index.ragged_rows(), complete: true },
            None => DataQuality { ragged_rows: 0, complete: false },
        }
    }

    /// Fetches rows in the order that they are given in, unless it is cancelled meanwhile. Without a
    /// token it is not cancelled.
    pub fn fetch_data_rows(
        &self,
        bytes: &[u8],
        data_rows: &[u64],
        columns: &[ColumnId],
        cancel: Option<&CancellationToken>,
    ) -> (r: Result<Viewport, Error>)
        ensures
            match r {
                Ok(viewport) => viewport@ == self.cells(bytes@, data_rows@, columns@),
                Err(e) => e is Cancelled && cancel is Some && data_rows@.len() > 0,
            },
    {
        match &self.index {
            Some(index) => fetch_indexed(index, bytes, &self.dialect, data_rows, columns, cancel),
            None => fetch_from_head(bytes, &self.dialect, data_rows, columns, cancel),
        }
    }

    /// Fetches rows of the active view, unless it is cancelled meanwhile.
    pub fn fetch(&self, bytes: &[u8], request: &ViewportRequest, cancel: &CancellationToken) -> (r:
        Result<Viewport, Error>)
        ensures
            match r {
                Ok(viewport) => viewport@ == self.cells(
                    bytes@,
                    crate::view::resolved(self.slot().shown(), request.rows),
                    request.columns@,
                ),
                Err(e) => e is Cancelled && crate::view::resolved(
                    self.slot().shown(),
                    request.rows,
                ).len() > 0,
            },
    {
        let data_rows = self.view.resolve(request.rows);
        self.fetch_data_rows(bytes, data_rows.as_slice(), request.columns.as_slice(), Some(cancel))
    }

    /// Fetches rows in the order of the source, unless it is cancelled meanwhile.
    pub fn fetch_source(
        &self,
        bytes: &[u8],
        request: &ViewportRequest,
        cancel: &CancellationToken,
    ) -> (r: Result<Viewport, Error>)
        ensures
            match r {
                Ok(viewport) => viewport@ == self.cells(
                    bytes@,
                    crate::view::contiguous(request.rows),
                    request.columns@,
                ),
                Err(e) => e is Cancelled && crate::view::contiguous(request.rows).len() > 0,
            },
    {
        let data_rows = contiguous_rows(request.rows);
        self.fetch_data_rows(bytes, data_rows.as_slice(), request.columns.as_slice(), Some(cancel))
    }

    /// Asks for a view. A search that does not compile is refused, and nothing changes. To show
    /// everything in the order of the source, nothing is to be built. Otherwise there is a job to
    /// do, and the view that was active stays so until it is done.
    pub fn begin_view(&mut self, spec: &ViewSpec) -> (r: Result<Option<ViewJob>, Error>)
        ensures
            final(self).columns() == old(self).columns(),
            final(self).split() == old(self).split(),
            final(self).indexed() == old(self).indexed(),
            final(self).counted() == old(self).counted(),
            crate::view::planned(old(self).slot(), final(self).slot(), *spec, r),
    {
        self.view.plan(spec)
    }

    /// Ends a job, with the rows that it built or without any. A job that is not the last one
    /// changes nothing.
    pub fn finish_view(&mut self, id: u64, rows: Option<Vec<u64>>)
        ensures
            final(self).columns() == old(self).columns(),
            final(self).split() == old(self).split(),
            final(self).indexed() == old(self).indexed(),
            final(self).counted() == old(self).counted(),
            final(self).slot().current() == old(self).slot().current(),
            id != old(self).slot().current() ==> final(self).slot() == old(self).slot(),
            id == old(self).slot().current() ==> !final(self).slot().is_building(),
            id == old(self).slot().current() ==> final(self).slot().shown() == match rows {
                Some(r) => Some(r@),
                None => old(self).slot().shown(),
            },
    {
        self.view.finish(id, rows);
    }

    /// Returns to the order of the source.
    pub fn clear_view(&mut self)
        ensures
            final(self).columns() == old(self).columns(),
            final(self).split() == old(self).split(),
            final(self).indexed() == old(self).indexed(),
            final(self).counted() == old(self).counted(),
            final(self).slot().shown() is None,
            !final(self).slot().is_building(),
            final(self).slot().current() == crate::view::next_job(old(self).slot().current()),
    {
        self.view.clear();
    }

    /// How the work on a view stands.
    pub fn view_status(&self) -> (status: ViewStatus)
        ensures
            status.building == self.slot().is_building(),
    {
        ViewStatus { building: self.view.building() }
    }
}

/// A table over delimited text in memory.
pub struct CsvTable {
    bytes: Vec<u8>,
    state: CsvState,
}

impl CsvTable {
    /// The bytes of the source.
    pub closed spec fn source(&self) -> Seq<u8> {
        self.bytes@
    }

    /// The state of the table.
    pub closed spec fn state(&self) -> CsvState {
        self.state
    }

    /// A table over bytes, with its index.
    pub fn from_bytes(bytes: Vec<u8>, dialect: Dialect) -> (r: Result<CsvTable, Error>)
        ensures
            r matches Ok(table) && {
                &&& table.source() == bytes@
                &&& table.state().split() == dialect
                &&& column_views(table.state().columns()) == columns_of(bytes@, dialect)
                &&& table.state().indexed() == Some(
                    crate::index::index_over(bytes@, dialect.delimiter, dialect.quote),
                )
                &&& table.state().slot().shown() is None
                &&& !table.state().slot().is_building()
            },
            crate::records::all_settled(bytes@, dialect.delimiter, dialect.quote),
    {
        let mut state = CsvState::new(bytes.as_slice(), dialect);
        match OffsetIndex::build(bytes.as_slice(), &dialect) {
            Ok(index) => {
                state.set_index(index);
                Ok(CsvTable { bytes, state })
            },
            Err(e) => Err(e),
        }
    }

    /// Shows a view. A search that does not compile is refused, and nothing changes.
    pub fn set_view(&mut self, spec: &ViewSpec) -> (r: Result<(), Error>)
        ensures
            final(self).source() == old(self).source(),
            final(self).state().columns() == old(self).state().columns(),
            final(self).state().split() == old(self).state().split(),
            final(self).state().indexed() == old(self).state().indexed(),
            final(self).state().counted() == old(self).state().counted(),
            r is Ok <==> crate::view::compiles(*spec),
            r is Ok ==> final(self).state().slot().current() == crate::view::next_job(
                old(self).state().slot().current(),
            ),
            r is Ok ==> crate::view::shows(
                final(self).state().slot(),
                grid_of(old(self).source(), old(self).state().split()),
                *spec,
            ),
            r matches Err(e) ==> {
                &&& final(self).state().slot() == old(self).state().slot()
                &&& e matches Error::InvalidPattern(text)
                &&& (spec.filter->0).texts() == Err::<Set<Seq<u8>>, Seq<char>>(text@)
            },
    {
        match self.state.begin_view(spec) {
            Err(e) => Err(e),
            Ok(None) => Ok(()),
            Ok(Some(job)) => {
                let dialect = self.state.dialect();
                match build_view(self.bytes.as_slice(), &dialect, &job.matcher, job.sort, None) {
                    Ok(rows) => {
                        self.state.finish_view(job.id, Some(rows));
                        Ok(())
                    },
                    Err(e) => Err(e),
                }
            },
        }
    }

    /// Returns to the order of the source.
    pub fn clear_view(&mut self)
        ensures
            final(self).source() == old(self).source(),
            final(self).state().columns() == old(self).state().columns(),
            final(self).state().split() == old(self).state().split(),
            final(self).state().indexed() == old(self).state().indexed(),
            final(self).state().counted() == old(self).state().counted(),
            final(self).state().slot().shown() is None,
            !final(self).state().slot().is_building(),
            final(self).state().slot().current() == crate::view::next_job(
                old(self).state().slot().current(),
            ),
    {
        self.state.clear_view();
    }

    /// How the work on a view stands.
    pub fn view_status(&self) -> (status: ViewStatus)
        ensures
            status.building == self.state().slot().is_building(),
    {
        self.state.view_status()
    }
}

impl ViewportSource for CsvTable {
    open spec fn reliable(&self) -> bool {
        true
    }

    open spec fn wf(&self) -> bool {
        true
    }

    open spec fn columns(&self) -> Seq<Column> {
        self.state().columns()
    }

    open spec fn rows(&self) -> RowCount {
        self.state().rows()
    }

    open spec fn source_rows(&self) -> RowCount {
        self.state().source_rows()
    }

    open spec fn shown(&self, range: RowRange, columns: Seq<ColumnId>) -> Seq<Seq<Seq<u8>>> {
        self.state().cells(
            self.source(),
            crate::view::resolved(self.state().slot().shown(), range),
            columns,
        )
    }

    open spec fn stored(&self, range: RowRange, columns: Seq<ColumnId>) -> Seq<Seq<Seq<u8>>> {
        self.state().cells(self.source(), crate::view::contiguous(range), columns)
    }

    open spec fn quality(&self) -> DataQuality {
        self.state().quality()
    }

    fn schema(&self) -> (schema: &Schema) {
        self.state.schema()
    }

    fn row_count(&self) -> (count: RowCount) {
        self.state.row_count()
    }

    fn source_count(&self) -> (count: RowCount) {
        self.state.source_count()
    }

    fn fetch(&self, request: &ViewportRequest, cancel: &CancellationToken) -> (r: Result<
        Viewport,
        Error,
    >) {
        self.state.fetch(self.bytes.as_slice(), request, cancel)
    }

    fn fetch_source(&self, request: &ViewportRequest, cancel: &CancellationToken) -> (r: Result<
        Viewport,
        Error,
    >) {
        self.state.fetch_source(self.bytes.as_slice(), request, cancel)
    }

    fn data_quality(&self) -> (quality: DataQuality) {
        self.state.data_quality()
    }
}

/// Without a view, a table shows its rows in the order of the source.
pub proof fn cleared_table_shows_the_source(
    table: CsvTable,
    range: RowRange,
    columns: Seq<ColumnId>,
)
    requires
        table.state().slot().shown() is None,
    ensures
        table.shown(range, columns) == table.stored(range, columns),
{
}

/// The cell of a source at a row and a column: the field of the record that stands there, where a
/// header is no row. There is none behind the last record or the last field.
pub open spec fn field_at(bytes: Seq<u8>, dialect: Dialect, row: int, column: u32) -> Option<Seq<u8>> {
    let rows = crate::records::csv_rows(bytes, dialect.delimiter, dialect.quote);
    let at = if dialect.has_header {
        row + 1
    } else {
        row
    };
    if 0 <= row && at < rows.len() && column < rows[at].fields.len() {
        Some(rows[at].fields[column as int])
    } else {
        None
    }
}

/// What is read from the head on are the bytes of the fields, row by row and in the order of the
/// columns that are asked for, one cell for each; a missing field is an empty cell.
pub proof fn cells_are_fields_of_the_source(
    bytes: Seq<u8>,
    dialect: Dialect,
    rows: Seq<u64>,
    columns: Seq<ColumnId>,
    k: int,
    c: int,
)
    requires
        0 <= k < rows.len(),
        0 <= c < columns.len(),
    ensures
        ({
            let cells = cells_of(None, bytes, dialect, rows, columns);
            &&& cells.len() == rows.len()
            &&& cells[k].len() == columns.len()
            &&& match field_at(bytes, dialect, rows[k] as int, columns[c].0) {
                Some(field) => cells[k][c] == field,
                None => cells[k][c].len() == 0,
            }
        }),
{
}

/// A table with its index shows the bytes of the fields of its source: in a view the rows that the
/// view has there, without one those of the source, and always the columns that are asked for.
pub proof fn tables_show_fields_of_the_source(
    table: CsvTable,
    range: RowRange,
    columns: Seq<ColumnId>,
    k: int,
    c: int,
)
    requires
        table.source().len() <= u64::MAX,
        table.state().indexed() == Some(
            crate::index::index_over(
                table.source(),
                table.state().split().delimiter,
                table.state().split().quote,
            ),
        ),
        crate::records::all_settled(
            table.source(),
            table.state().split().delimiter,
            table.state().split().quote,
        ),
        range.start + range.len <= u64::MAX,
        0 <= k < range.len,
        0 <= c < columns.len(),
        forall|r: int|
            0 <= r < crate::records::csv_rows(
                table.source(),
                table.state().split().delimiter,
                table.state().split().quote,
            ).len() ==> #[trigger] readable(table.source(), table.state().split(), r),
    ensures
        table.state().slot().shown() is None ==> k < table.shown(range, columns).len() && ({
            let cells = table.shown(range, columns)[k];
            &&& cells.len() == columns.len()
            &&& match field_at(
                table.source(),
                table.state().split(),
                range.start + k,
                columns[c].0,
            ) {
                Some(field) => cells[c] == field,
                None => cells[c].len() == 0,
            }
        }),
        table.state().slot().shown() matches Some(view) ==> {
            &&& k < table.shown(range, columns).len() <==> range.start + k < view.len()
            &&& range.start + k < view.len() ==> {
                let cells = table.shown(range, columns)[k];
                &&& cells.len() == columns.len()
                &&& match field_at(
                    table.source(),
                    table.state().split(),
                    view[range.start + k] as int,
                    columns[c].0,
                ) {
                    Some(field) => cells[c] == field,
                    None => cells[c].len() == 0,
                }
            }
        },
{
    let bytes = table.source();
    let dialect = table.state().split();
    let view = table.state().slot().shown();
    crate::view::ranges_show_the_rows_in_their_places(view, range, k);
    let rows = crate::view::resolved(view, range);
    if k < rows.len() {
        let r = rows[k] as int;
        if r < grid_of(bytes, dialect).len() {
            assert(readable(bytes, dialect, r + header_rows(dialect)));
        }
        indexed_rows_match_streamed_rows(bytes, dialect, r, columns);
        cells_are_fields_of_the_source(bytes, dialect, rows, columns, k, c);
        assert(table.shown(range, columns)[k] == streamed_cells(bytes, dialect, r, columns));
        assert(cells_of(None, bytes, dialect, rows, columns)[k] == streamed_cells(
            bytes,
            dialect,
            r,
            columns,
        ));
    }
}

/// A table with its index has as many rows as its source has records, without the header; a view has
/// as many as it shows; and as many rows are ragged as records differ from the first one in their
/// number of fields.
pub proof fn tables_count_their_rows(table: CsvTable)
    requires
        table.source().len() <= u64::MAX,
        table.state().indexed() == Some(
            crate::index::index_over(
                table.source(),
                table.state().split().delimiter,
                table.state().split().quote,
            ),
        ),
    ensures
        ({
            let dialect = table.state().split();
            let rows = crate::records::csv_rows(table.source(), dialect.delimiter, dialect.quote);
            &&& table.source_rows() matches RowCount::Exact(n) && n == if !dialect.has_header {
                rows.len() as int
            } else if rows.len() == 0 {
                0
            } else {
                rows.len() - 1
            }
            &&& table.state().slot().shown() is None ==> table.rows() == table.source_rows()
            &&& table.state().slot().shown() matches Some(view) ==> view.len() <= u64::MAX
                ==> (table.rows() matches RowCount::Exact(n) && n == view.len())
            &&& table.quality().complete
            &&& table.quality().ragged_rows == Set::new(
                |i: int| 0 <= i < rows.len() && rows[i].fields.len() != rows[0].fields.len(),
            ).len()
        }),
{
    let dialect = table.state().split();
    let rows = crate::records::csv_rows(table.source(), dialect.delimiter, dialect.quote);
    crate::index::index_counts_the_records(table.source(), dialect.delimiter, dialect.quote, 0);
    assert(crate::index::ragged(rows) =~= Set::new(
        |i: int| 0 <= i < rows.len() && rows[i].fields.len() != rows[0].fields.len(),
    ));
}

/// A source has one column for each field of its first record, in their order; a column is named by
/// the header or else by `col` and its number, counted from zero. Sixteen mebibytes of the source
/// are looked at for it.
pub proof fn columns_are_those_of_the_first_record(bytes: Seq<u8>, dialect: Dialect, i: int)
    ensures
        ({
            let head = if bytes.len() <= 16_777_216 {
                bytes
            } else {
                bytes.take(16_777_216)
            };
            let rows = crate::records::csv_rows(head, dialect.delimiter, dialect.quote);
            let columns = columns_of(bytes, dialect);
            &&& rows.len() == 0 ==> columns.len() == 0
            &&& rows.len() > 0 && rows[0].fields.len() <= u32::MAX ==> {
                &&& columns.len() == rows[0].fields.len()
                &&& 0 <= i < columns.len() ==> {
                    &&& columns[i].id == i
                    &&& dialect.has_header ==> columns[i].name == rows[0].fields[i]
                    &&& !dialect.has_header ==> columns[i].name == seq![0x63u8, 0x6f, 0x6c]
                        + vstd::utf8::encode_utf8(crate::text::decimal_text(i))
                }
            }
        }),
{
    reveal_strlit("col");
    let digits = crate::text::decimal_text(i);
    if i >= 0 {
        crate::text::decimal_text_reads_back(i);
        vstd::utf8::is_ascii_chars_encode_utf8(digits);
        vstd::utf8::is_ascii_chars_encode_utf8("col"@ + digits);
        assert(vstd::utf8::encode_utf8("col"@ + digits) =~= seq![0x63u8, 0x6f, 0x6c]
            + vstd::utf8::encode_utf8(digits));
    }
}

/// Whether the cell at a row and a column is filled: it is not UTF-8, or more than white space.
pub open spec fn is_filled(bytes: Seq<u8>, dialect: Dialect, row: int, column: u32) -> bool {
    field_at(bytes, dialect, row, column) matches Some(field) && (crate::text::field_text(field) matches Some(
        text,
    ) ==> text.len() > 0)
}

/// What a column looks like is what all filled cells of its first 200 rows look like: whole numbers
/// where every one is one, else numbers, else truth values, else text; and text where none is
/// filled. Sixteen mebibytes of the source are looked at for it.
pub proof fn column_types_fit_every_cell(
    source: Seq<u8>,
    bytes: Seq<u8>,
    dialect: Dialect,
    column: u32,
)
    requires
        bytes == if source.len() <= 16_777_216 {
            source
        } else {
            source.take(16_777_216)
        },
    ensures
        ({
            let found = column_type(source, dialect, column);
            let any = exists|r: int|
                0 <= r < 200 && #[trigger] is_filled(bytes, dialect, r, column)
                    && crate::text::field_text(
                    field_at(bytes, dialect, r, column)->0,
                ) is Some;
            let whole = forall|r: int|
                0 <= r < 200 && #[trigger] is_filled(bytes, dialect, r, column) ==> (
                crate::text::field_text(field_at(bytes, dialect, r, column)->0) matches Some(text)
                    && crate::number::is_whole(text));
            let number = forall|r: int|
                0 <= r < 200 && #[trigger] is_filled(bytes, dialect, r, column) ==> (
                crate::text::field_text(field_at(bytes, dialect, r, column)->0) matches Some(text)
                    && crate::number::numeral(text) is Some);
            let truth = forall|r: int|
                0 <= r < 200 && #[trigger] is_filled(bytes, dialect, r, column) ==> (
                crate::text::field_text(field_at(bytes, dialect, r, column)->0) matches Some(text)
                    && (crate::text::same_letters(text, seq!['t', 'r', 'u', 'e'])
                    || crate::text::same_letters(text, seq!['f', 'a', 'l', 's', 'e'])));
            &&& found is Integer <==> any && whole
            &&& found is Float <==> any && number && !whole
            &&& found is Boolean <==> any && truth && !number && !whole
            &&& found is Text <==> !any || (!truth && !number && !whole)
        }),
{
    reveal_strlit("true");
    reveal_strlit("false");
    assert("true"@ =~= seq!['t', 'r', 'u', 'e']);
    assert("false"@ =~= seq!['f', 'a', 'l', 's', 'e']);
    let grid = grid_of(bytes, dialect);
    let n = sample_len(grid);
    let texts = texts_of(grid, column, n);
    assert(head_of(source) == bytes);
    lemma_empty_text();
    assert forall|r: int| 0 <= r < n implies #[trigger] texts[r] == match field_at(
        bytes,
        dialect,
        r,
        column,
    ) {
        Some(field) => crate::text::field_text(field),
        None => Some(Seq::empty()),
    } by {
        assert(texts[r] == crate::text::field_text(
            crate::view::cell_of(grid[r], ColumnId(column)),
        ));
        if field_at(bytes, dialect, r, column) is None {
            assert(crate::view::cell_of(grid[r], ColumnId(column)) =~= Seq::empty());
        }
    }
    assert forall|r: int| 0 <= r < 200 && #[trigger] is_filled(bytes, dialect, r, column) implies r
        < n by {}
    if any_value(texts) {
        let i = choose|i: int|
            0 <= i < texts.len() && (#[trigger] texts[i] matches Some(t) && t.len() > 0);
        assert(is_filled(bytes, dialect, i, column));
    }
    if exists|r: int|
        0 <= r < 200 && #[trigger] is_filled(bytes, dialect, r, column) && crate::text::field_text(
            field_at(bytes, dialect, r, column)->0,
        ) is Some {
        let r = choose|r: int|
            0 <= r < 200 && #[trigger] is_filled(bytes, dialect, r, column)
                && crate::text::field_text(field_at(bytes, dialect, r, column)->0) is Some;
        assert(texts[r] is Some);
    }
    assert((forall|i: int| 0 <= i < texts.len() ==> whole_or_empty(#[trigger] texts[i])) <==> (
    forall|r: int|
        0 <= r < 200 && #[trigger] is_filled(bytes, dialect, r, column) ==> (
        crate::text::field_text(field_at(bytes, dialect, r, column)->0) matches Some(text)
            && crate::number::is_whole(text)))) by {
        lemma_fits(bytes, dialect, column, texts, |t: Seq<char>| crate::number::is_whole(t));
    }
    assert((forall|i: int| 0 <= i < texts.len() ==> number_or_empty(#[trigger] texts[i])) <==> (
    forall|r: int|
        0 <= r < 200 && #[trigger] is_filled(bytes, dialect, r, column) ==> (
        crate::text::field_text(field_at(bytes, dialect, r, column)->0) matches Some(text)
            && crate::number::numeral(text) is Some))) by {
        lemma_fits(bytes, dialect, column, texts, |t: Seq<char>| crate::number::numeral(t) is Some);
    }
    assert((forall|i: int| 0 <= i < texts.len() ==> truth_or_empty(#[trigger] texts[i])) <==> (
    forall|r: int|
        0 <= r < 200 && #[trigger] is_filled(bytes, dialect, r, column) ==> (
        crate::text::field_text(field_at(bytes, dialect, r, column)->0) matches Some(text) && (
        crate::text::same_letters(text, seq!['t', 'r', 'u', 'e']) || crate::text::same_letters(
            text,
            seq!['f', 'a', 'l', 's', 'e'],
        ))))) by {
        lemma_fits(
            bytes,
            dialect,
            column,
            texts,
            |t: Seq<char>|
                crate::text::same_letters(t, seq!['t', 'r', 'u', 'e'])
                    || crate::text::same_letters(t, seq!['f', 'a', 'l', 's', 'e']),
        );
    }
}

proof fn lemma_empty_text()
    ensures
        crate::text::field_text(Seq::empty()) == Some(Seq::<char>::empty()),
{
    let none = Seq::<char>::empty();
    crate::text::white_space_around_is_taken_off(none, none, none);
    assert(none + none + none =~= none);
    vstd::utf8::is_ascii_chars_encode_utf8(none);
    assert(vstd::utf8::encode_utf8(none) =~= Seq::<u8>::empty());
}

proof fn lemma_fits(
    bytes: Seq<u8>,
    dialect: Dialect,
    column: u32,
    texts: Seq<Option<Seq<char>>>,
    fits: spec_fn(Seq<char>) -> bool,
)
    requires
        texts.len() <= 200,
        forall|r: int|
            0 <= r < texts.len() ==> #[trigger] texts[r] == match field_at(bytes, dialect, r, column) {
                Some(field) => crate::text::field_text(field),
                None => Some(Seq::empty()),
            },
        forall|r: int|
            0 <= r < 200 && #[trigger] is_filled(bytes, dialect, r, column) ==> r < texts.len(),
    ensures
        (forall|i: int|
            0 <= i < texts.len() ==> (#[trigger] texts[i] matches Some(t) && (t.len() == 0 || fits(
                t,
            )))) <==> (forall|r: int|
            0 <= r < 200 && #[trigger] is_filled(bytes, dialect, r, column) ==> (
            crate::text::field_text(field_at(bytes, dialect, r, column)->0) matches Some(text) && fits(
                text,
            ))),
{
    if forall|i: int|
        0 <= i < texts.len() ==> (#[trigger] texts[i] matches Some(t) && (t.len() == 0 || fits(t))) {
        assert forall|r: int|
            0 <= r < 200 && #[trigger] is_filled(bytes, dialect, r, column) implies (
        crate::text::field_text(field_at(bytes, dialect, r, column)->0) matches Some(text) && fits(
            text,
        )) by {
            assert(texts[r] matches Some(t) && (t.len() == 0 || fits(t)));
        }
    }
    if forall|r: int|
        0 <= r < 200 && #[trigger] is_filled(bytes, dialect, r, column) ==> (
        crate::text::field_text(field_at(bytes, dialect, r, column)->0) matches Some(text) && fits(
            text,
        )) {
        assert forall|i: int| 0 <= i < texts.len() implies (#[trigger] texts[i] matches Some(t) && (
        t.len() == 0 || fits(t))) by {
            assert(is_filled(bytes, dialect, i, column) || (texts[i] matches Some(t) && t.len()
                == 0));
        }
    }
}

/// Until the index is there, the records counted so far, without the header, are a lower bound of the
/// rows, nothing is said of ragged rows, and rows are read from the head on.
pub proof fn unindexed_tables_count_a_lower_bound(table: CsvTable)
    requires
        table.state().indexed() is None,
    ensures
        table.source_rows() matches RowCount::AtLeast(n) && n == if table.state().counted() == 0 {
            0int
        } else if table.state().split().has_header {
            table.state().counted() - 1
        } else {
            table.state().counted() as int
        },
        !table.quality().complete,
        table.quality().ragged_rows == 0,
{
}

/// A table that is sorted by a column of whole numbers shows them by their values: ascending from the
/// smallest to the largest, those below zero first, descending the other way round; equal ones stay in
/// the order of the source.
pub proof fn sorted_tables_show_numbers_by_value(
    table: CsvTable,
    spec: ViewSpec,
    sort: SortKey,
    values: Seq<int>,
    i: int,
    j: int,
)
    requires
        crate::view::shows(
            table.state().slot(),
            grid_of(table.source(), table.state().split()),
            spec,
        ),
        spec.sort == Some(sort),
        grid_of(table.source(), table.state().split()).len() <= usize::MAX,
        values.len() == grid_of(table.source(), table.state().split()).len(),
        forall|r: int|
            0 <= r < values.len() ==> -0x20_0000_0000_0000 <= #[trigger] values[r]
                <= 0x20_0000_0000_0000 && (field_at(
                table.source(),
                table.state().split(),
                r,
                sort.column.0,
            ) matches Some(field) && crate::sort::writes(field, values[r], 1)),
    ensures
        table.state().slot().shown() matches Some(shown) && (0 <= i < j < shown.len() ==> {
            let a = values[shown[i] as int];
            let b = values[shown[j] as int];
            &&& sort.direction is Ascending ==> a <= b
            &&& sort.direction is Descending ==> a >= b
            &&& a == b ==> shown[i] < shown[j]
        }),
{
    let grid = grid_of(table.source(), table.state().split());
    let shown = table.state().slot().shown()->0;
    if 0 <= i < j < shown.len() {
        assert forall|r: int| 0 <= r < grid.len() implies -0x20_0000_0000_0000
            <= #[trigger] values[r] <= 0x20_0000_0000_0000 && sort.column.0 < grid[r].len()
            && crate::sort::writes(grid[r][sort.column.0 as int], values[r], 1) by {
            let field = field_at(table.source(), table.state().split(), r, sort.column.0);
            let value = values[r];
            assert(field is Some);
            assert(field == Some(grid[r][sort.column.0 as int]));
        }
        crate::view::whole_numbers_are_sorted_by_value(
            grid,
            crate::view::wanted(spec),
            sort,
            shown,
            values,
            i,
            j,
        );
    }
}

/// The plain data of columns are those of each column, in their order.
pub proof fn column_data_are_those_of_each_column(columns: Seq<Column>, i: int)
    ensures
        column_views(columns).len() == columns.len(),
        0 <= i < columns.len() ==> {
            let column = column_views(columns)[i];
            &&& column.id == columns[i].id.0
            &&& column.name == columns[i].name@
            &&& column.inferred == columns[i].inferred
        },
{
}

} // verus!
