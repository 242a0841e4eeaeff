//! What the grid decides: where the keys move the selection, how clicks on headers cycle the sort,
//! which rows a drag selects, what is copied, and where the next match is.
use vstd::prelude::*;
use crate::cancel::CancellationToken;
use crate::encoding::{decode_field, TextEncoding};
use crate::error::Error;
use crate::model::{position, RowSpan, ViewControls};
use crate::search::Matcher;
use crate::sort::Direction;
use crate::text::append;
use crate::viewport::{
    Cell, ColumnId, InferredType, RowCount, RowRange, Schema, SortKey, ViewportRequest, ViewportSource,
};

verus! {

/// How far a page reaches.
pub const PAGE: u64 = 20;

/// A key that moves the selection.
#[derive(Clone, Copy, PartialEq, Eq, Debug, Structural)]
pub enum NavKey {
    Down,
    Up,
    PageDown,
    PageUp,
    Home,
    End,
}

/// The smaller of two numbers.
pub open spec fn smaller(a: int, b: int) -> int {
    if a <= b {
        a
    } else {
        b
    }
}

/// The larger of two numbers.
pub open spec fn larger(a: int, b: int) -> int {
    if a <= b {
        b
    } else {
        a
    }
}

/// The row that a key leads to from a row; from no row it leads to the first one, but for the key
/// to the end.
pub open spec fn next_row(current: Option<u64>, key: NavKey, last: int) -> int {
    match (key, current) {
        (NavKey::Home, _) => 0,
        (NavKey::End, _) => last,
        (_, None) => 0,
        (NavKey::Down, Some(row)) => smaller(row + 1, last),
        (NavKey::Up, Some(row)) => larger(row - 1, 0),
        (NavKey::PageDown, Some(row)) => smaller(row + PAGE, last),
        (NavKey::PageUp, Some(row)) => larger(row - PAGE, 0),
    }
}

/// The selection after a key: the row that it leads to, or with `extend` the rows from where the
/// selection began.
pub open spec fn moved(selected: Option<RowSpan>, key: NavKey, extend: bool, total: int) -> RowSpan {
    let current = match selected {
        Some(span) => Some(span.lead),
        None => None,
    };
    let next = next_row(current, key, total - 1) as u64;
    match selected {
        Some(span) if extend => RowSpan { anchor: span.anchor, lead: next },
        _ => RowSpan { anchor: next, lead: next },
    }
}

/// Moves the selection of a table with the given number of rows. The row to scroll to is the lead of
/// the new selection.
pub fn move_selection(selected: Option<RowSpan>, key: NavKey, extend: bool, total: u64) -> (span:
    RowSpan)
    requires
        total > 0,
        selected matches Some(s) ==> s.lead <= u64::MAX - PAGE,
    ensures
        span == moved(selected, key, extend, total as int),
        selected is None || selected->Some_0.lead < total ==> span.lead < total,
{
    let last: u64 = total - 1;
    let next: u64 = match (key, selected) {
        (NavKey::Home, _) => 0,
        (NavKey::End, _) => last,
        (_, None) => 0,
        (NavKey::Down, Some(s)) => if s.lead + 1 <= last {
            s.lead + 1
        } else {
            last
        },
        (NavKey::Up, Some(s)) => if s.lead >= 1 {
            s.lead - 1
        } else {
            0
        },
        (NavKey::PageDown, Some(s)) => if s.lead + PAGE <= last {
            s.lead + PAGE
        } else {
            last
        },
        (NavKey::PageUp, Some(s)) => if s.lead >= PAGE {
            s.lead - PAGE
        } else {
            0
        },
    };
    match selected {
        Some(s) => if extend {
            RowSpan { anchor: s.anchor, lead: next }
        } else {
            RowSpan::single(next)
        },
        None => RowSpan::single(next),
    }
}

/// The sort after a click on a header.
pub open spec fn cycled(sort: Option<SortKey>, column: ColumnId) -> Option<SortKey> {
    match sort {
        Some(key) if key.column == column => match key.direction {
            Direction::Ascending => Some(SortKey { column, direction: Direction::Descending }),
            Direction::Descending => None,
        },
        _ => Some(SortKey { column, direction: Direction::Ascending }),
    }
}

/// Cycles the sort of a column: none, ascending, descending, none.
pub fn cycle_sort(sort: Option<SortKey>, column: ColumnId) -> (next: Option<SortKey>)
    ensures
        next == cycled(sort, column),
{
    match sort {
        Some(key) => if key.column == column {
            match key.direction {
                Direction::Ascending => Some(
                    SortKey { column, direction: Direction::Descending },
                ),
                Direction::Descending => None,
            }
        } else {
            Some(SortKey { column, direction: Direction::Ascending })
        },
        None => Some(SortKey { column, direction: Direction::Ascending }),
    }
}

/// Three clicks on one header lead from no sort through both directions back to none.
pub proof fn sort_cycles_in_three(column: ColumnId)
    ensures
        cycled(None, column) == Some(SortKey { column, direction: Direction::Ascending }),
        cycled(cycled(None, column), column) == Some(
            SortKey { column, direction: Direction::Descending },
        ),
        cycled(cycled(cycled(None, column), column), column) is None,
{
}

/// What the pointer did in a frame.
#[derive(Clone, Copy, Debug)]
pub struct PointerEvents {
    /// The row where a drag began.
    pub drag_started: Option<u64>,
    /// The row under the pointer during a drag.
    pub drag_lead: Option<u64>,
    /// The row that was clicked.
    pub clicked: Option<u64>,
    /// The row that the pointer hovers over.
    pub hovered: Option<u64>,
    /// Whether the button is down.
    pub button_down: bool,
}

/// The selection after what the pointer did: a click selects one row; a drag selects from where it
/// began to where it is.
pub open spec fn pointed(selected: Option<RowSpan>, selecting: bool, events: PointerEvents) -> Option<
    RowSpan,
> {
    let dragged = match (events.drag_started, events.drag_lead, selected) {
        (Some(start), _, _) => Some(RowSpan { anchor: start, lead: start }),
        (None, Some(lead), Some(span)) if selecting => Some(RowSpan { anchor: span.anchor, lead }),
        _ => selected,
    };
    match events.clicked {
        Some(row) => Some(RowSpan { anchor: row, lead: row }),
        None => dragged,
    }
}

/// Applies what the pointer did to the selection. A drag ends when the button is released.
pub fn apply_pointer(view: &mut ViewControls, events: &PointerEvents)
    ensures
        final(view).selected == pointed(old(view).selected, old(view).selecting, *events),
        final(view).selecting == ((events.drag_started is Some || old(view).selecting)
            && events.button_down),
        final(view).hovered_row == events.hovered,
        final(view).search == old(view).search,
        final(view).regex == old(view).regex,
        final(view).case_sensitive == old(view).case_sensitive,
        final(view).invert == old(view).invert,
        final(view).filter_mode == old(view).filter_mode,
        final(view).sort == old(view).sort,
        final(view).applied == old(view).applied,
        final(view).error == old(view).error,
        final(view).find_request == old(view).find_request,
        final(view).pending_scroll == old(view).pending_scroll,
{
    match events.drag_started {
        Some(start) => {
            view.selected = Some(RowSpan::single(start));
            view.selecting = true;
        },
        None => if view.selecting {
            match (events.drag_lead, view.selected) {
                (Some(lead), Some(span)) => {
                    view.selected = Some(RowSpan { anchor: span.anchor, lead });
                },
                _ => {},
            }
        },
    }
    match events.clicked {
        Some(row) => {
            view.selected = Some(RowSpan::single(row));
        },
        None => {},
    }
    if view.selecting && !events.button_down {
        view.selecting = false;
    }
    view.hovered_row = events.hovered;
}

/// Whether a header that is dropped onto the one at `target` goes behind it: it does where it came
/// from the left.
pub fn drops_after(columns: &Vec<ColumnId>, dragged: ColumnId, target: usize) -> (after: bool)
    ensures
        after <==> (crate::model::place_of(columns@, dragged) is Some && crate::model::place_of(
            columns@,
            dragged,
        )->Some_0 < target),
{
    match position(columns, dragged) {
        Some(from) => from < target,
        None => false,
    }
}

/// The rows to copy: one row that was asked for, or else the selection, if it was asked for.
pub fn copy_span(row: Option<u64>, selection_wanted: bool, selected: Option<RowSpan>) -> (span:
    Option<RowSpan>)
    ensures
        span == (match row {
            Some(r) => Some(RowSpan { anchor: r, lead: r }),
            None => if selection_wanted {
                selected
            } else {
                None
            },
        }),
{
    match row {
        Some(r) => Some(RowSpan::single(r)),
        None => if selection_wanted {
            selected
        } else {
            None
        },
    }
}

/// A copy of columns.
fn copy_columns(columns: &Vec<ColumnId>) -> (copy: Vec<ColumnId>)
    ensures
        copy@ == columns@,
{
    vstd::slice::slice_to_vec(columns.as_slice())
}

/// The request for the rows of a selection.
pub fn span_request(span: RowSpan, columns: &Vec<ColumnId>) -> (request: ViewportRequest)
    requires
        span.last() - span.first() < u64::MAX,
    ensures
        request.rows.start == span.first(),
        request.rows.len == smaller(span.last() - span.first() + 1, u32::MAX as int),
        request.columns@ == columns@,
{
    let n: u64 = span.len();
    let len: u32 = if n <= u32::MAX as u64 {
        n as u32
    } else {
        u32::MAX
    };
    ViewportRequest { rows: RowRange { start: span.lo(), len }, columns: copy_columns(columns) }
}

/// The request for the rows from `start` up to `end`, which are visible.
pub fn visible_request(start: u64, end: u64, columns: &Vec<ColumnId>) -> (request: ViewportRequest)
    ensures
        request.rows.start == start,
        request.rows.len == smaller(larger(end - start, 0), u32::MAX as int),
        request.columns@ == columns@,
{
    let n: u64 = if end >= start {
        end - start
    } else {
        0
    };
    let len: u32 = if n <= u32::MAX as u64 {
        n as u32
    } else {
        u32::MAX
    };
    ViewportRequest { rows: RowRange { start, len }, columns: copy_columns(columns) }
}

/// A cell of the rows that were fetched from `start` on.
pub fn cached_cell<'a>(start: u64, rows: &'a Vec<Vec<Cell>>, row: u64, column: usize) -> (cell:
    Option<&'a Cell>)
    ensures
        match cell {
            Some(c) => start <= row && row - start < rows@.len() && column < rows@[row - start]@.len()
                && *c == rows@[row - start]@[column as int],
            None => row < start || row - start >= rows@.len() || column >= rows@[row - start]@.len(),
        },
{
    if row < start {
        return None;
    }
    let at: u64 = row - start;
    if at < rows.len() as u64 {
        let cells = &rows[at as usize];
        if column < cells.len() {
            return Some(&cells[column]);
        }
    }
    None
}

/// Whether the cells of a column are numbers, which stand to the right.
pub fn is_numeric(schema: &Schema, column: ColumnId) -> (r: bool)
    ensures
        r <==> (column.0 < schema.columns@.len() && (schema.columns@[column.0 as int].inferred
            is Integer || schema.columns@[column.0 as int].inferred is Float)),
{
    let at: usize = column.0 as usize;
    if at < schema.columns.len() {
        match schema.columns[at].inferred {
            InferredType::Integer => true,
            InferredType::Float => true,
            _ => false,
        }
    } else {
        false
    }
}

/// The texts of a row, with a tab between them.
pub open spec fn line_text(row: Seq<Seq<u8>>, encoding: TextEncoding) -> Seq<char>
    decreases row.len(),
{
    if row.len() == 0 {
        Seq::empty()
    } else if row.len() == 1 {
        crate::encoding::field_display(encoding, row[0])
    } else {
        line_text(row.drop_last(), encoding) + "\t"@ + crate::encoding::field_display(
            encoding,
            row.last(),
        )
    }
}

/// The texts of rows, with a line end between them.
pub open spec fn rows_text(rows: Seq<Seq<Seq<u8>>>, encoding: TextEncoding) -> Seq<char>
    decreases rows.len(),
{
    if rows.len() == 0 {
        Seq::empty()
    } else if rows.len() == 1 {
        line_text(rows[0], encoding)
    } else {
        rows_text(rows.drop_last(), encoding) + "\n"@ + line_text(rows.last(), encoding)
    }
}

/// Appends the texts of a row, with a tab between them.
fn push_line(out: &mut String, row: &Vec<Cell>, encoding: TextEncoding)
    requires
        forall|i: int| 0 <= i < row@.len() ==> crate::encoding::decodable(#[trigger] row@[i].0@),
    ensures
        final(out)@ == old(out)@ + line_text(crate::viewport::row_bytes(row@), encoding),
{
    let ghost cells = crate::viewport::row_bytes(row@);
    assert(cells.take(0) =~= Seq::empty());
    assert(out@ + Seq::<char>::empty() =~= out@);
    for i in 0..row.len()
        invariant
            forall|i: int| 0 <= i < row@.len() ==> crate::encoding::decodable(#[trigger] row@[i].0@),
            cells == crate::viewport::row_bytes(row@),
            out@ == old(out)@ + line_text(cells.take(i as int), encoding),
    {
        let ghost before = out@;
        if i > 0 {
            append(out, "\t");
        }
        assert(crate::encoding::decodable(row@[i as int].0@));
        let text = decode_field(row[i].0.as_slice(), encoding);
        append(out, text.as_str());
        proof {
            let now = cells.take(i + 1);
            assert(now.drop_last() =~= cells.take(i as int));
            assert(now.last() == row@[i as int].0@);
            if i == 0 {
                assert(cells.take(0) =~= Seq::empty());
                assert(out@ =~= old(out)@ + text@);
            } else {
                assert(out@ =~= old(out)@ + (line_text(cells.take(i as int), encoding) + "\t"@
                    + text@));
            }
        }
    }
    assert(cells.take(cells.len() as int) =~= cells);
}

/// The text that goes to the clipboard for rows: a line for each, with tabs between the cells.
pub fn copied_text(rows: &Vec<Vec<Cell>>, encoding: TextEncoding) -> (text: String)
    requires
        forall|i: int, j: int|
            0 <= i < rows@.len() && 0 <= j < rows@[i]@.len() ==> crate::encoding::decodable(
                #[trigger] rows@[i]@[j].0@,
            ),
    ensures
        text@ == rows_text(crate::viewport::grid_bytes(rows@), encoding),
{
    let mut out = String::new();
    let ghost grid = crate::viewport::grid_bytes(rows@);
    assert(grid.take(0) =~= Seq::empty());
    for i in 0..rows.len()
        invariant
            forall|i: int, j: int|
                0 <= i < rows@.len() && 0 <= j < rows@[i]@.len() ==> crate::encoding::decodable(
                    #[trigger] rows@[i]@[j].0@,
                ),
            grid == crate::viewport::grid_bytes(rows@),
            out@ == rows_text(grid.take(i as int), encoding),
    {
        if i > 0 {
            append(&mut out, "\n");
        }
        push_line(&mut out, &rows[i], encoding);
        proof {
            let now = grid.take(i + 1);
            assert(now.drop_last() =~= grid.take(i as int));
            assert(now.last() == crate::viewport::row_bytes(rows@[i as int]@));
            if i == 0 {
                assert(grid.take(0) =~= Seq::empty());
                assert(Seq::<char>::empty() + line_text(now[0], encoding) =~= line_text(
                    now[0],
                    encoding,
                ));
            }
        }
    }
    assert(grid.take(grid.len() as int) =~= grid);
    out
}

/// The row at which a search for the next match, or for the previous one, begins: next to the
/// selection, or at the end that is nearer in that direction. Nothing where there is no such row.
pub open spec fn find_from(selected: Option<u64>, forward: bool, total: int) -> Option<int> {
    if total == 0 {
        None
    } else {
        match (selected, forward) {
            (Some(row), true) => Some(smaller(row + 1, u64::MAX as int)),
            (Some(row), false) => if row == 0 {
                None
            } else {
                Some(row - 1)
            },
            (None, true) => Some(0),
            (None, false) => Some(total - 1),
        }
    }
}

/// The row at which a search for the next or the previous match begins.
pub fn find_start(selected: Option<u64>, forward: bool, total: u64) -> (first: Option<u64>)
    ensures
        match first {
            Some(row) => find_from(selected, forward, total as int) == Some(row as int),
            None => find_from(selected, forward, total as int) is None,
        },
{
    if total == 0 {
        return None;
    }
    match (selected, forward) {
        (Some(row), true) => if row < u64::MAX {
            Some(row + 1)
        } else {
            Some(row)
        },
        (Some(row), false) => if row == 0 {
            None
        } else {
            Some(row - 1)
        },
        (None, true) => Some(0),
        (None, false) => Some(total - 1),
    }
}

/// How many rows a search fetches at a time.
pub const FIND_BATCH: u32 = 256;

/// Whether a cell of a row matches.
pub open spec fn row_hits(texts: Set<Seq<u8>>, row: Seq<Seq<u8>>) -> bool {
    crate::search::keeps(texts, false, row)
}

/// Rows of which at most the first `n` count.
pub open spec fn at_most(grid: Seq<Seq<Seq<u8>>>, n: int) -> Seq<Seq<Seq<u8>>> {
    grid.take(smaller(grid.len() as int, n))
}

/// The first row that matches.
pub open spec fn first_hit(texts: Set<Seq<u8>>, grid: Seq<Seq<Seq<u8>>>) -> Option<int>
    decreases grid.len(),
{
    if grid.len() == 0 {
        None
    } else if row_hits(texts, grid[0]) {
        Some(0)
    } else {
        match first_hit(texts, grid.drop_first()) {
            Some(i) => Some(i + 1),
            None => None,
        }
    }
}

/// The last row that matches.
pub open spec fn last_hit(texts: Set<Seq<u8>>, grid: Seq<Seq<Seq<u8>>>) -> Option<int>
    decreases grid.len(),
{
    if grid.len() == 0 {
        None
    } else if row_hits(texts, grid.last()) {
        Some(grid.len() - 1)
    } else {
        last_hit(texts, grid.drop_last())
    }
}

/// The first row at or behind `start` that matches, as the table shows its rows batch by batch.
pub open spec fn hit_from<T: ViewportSource>(
    table: &T,
    columns: Seq<ColumnId>,
    texts: Set<Seq<u8>>,
    start: int,
    total: int,
) -> Option<int>
    decreases total - start,
{
    if start >= total {
        None
    } else {
        let n = smaller(total - start, FIND_BATCH as int);
        let grid = table.shown(RowRange { start: start as u64, len: n as u32 }, columns);
        match first_hit(texts, at_most(grid, n)) {
            Some(i) => Some(start + i),
            None => hit_from(table, columns, texts, start + n, total),
        }
    }
}

/// The last row before `end` that matches, as the table shows its rows batch by batch.
pub open spec fn hit_before<T: ViewportSource>(
    table: &T,
    columns: Seq<ColumnId>,
    texts: Set<Seq<u8>>,
    end: int,
) -> Option<int>
    decreases end,
{
    if end <= 0 {
        None
    } else {
        let n = smaller(end, FIND_BATCH as int);
        let grid = table.shown(RowRange { start: (end - n) as u64, len: n as u32 }, columns);
        match last_hit(texts, at_most(grid, n)) {
            Some(i) => Some(end - n + i),
            None => hit_before(table, columns, texts, end - n),
        }
    }
}

/// Whether a cell of a row matches.
fn hits_row(matcher: &Matcher, row: &Vec<Cell>) -> (r: bool)
    ensures
        r == row_hits(matcher.texts(), crate::viewport::row_bytes(row@)),
{
    let ghost cells = crate::viewport::row_bytes(row@);
    for i in 0..row.len()
        invariant
            cells == crate::viewport::row_bytes(row@),
            forall|k: int| 0 <= k < i ==> !matcher.texts().contains(#[trigger] cells[k]),
    {
        if matcher.hits(row[i].0.as_slice()) {
            assert(matcher.texts().contains(cells[i as int]));
            return true;
        }
        assert(cells[i as int] == row@[i as int].0@);
    }
    false
}

/// The first row that matches, of at most `limit` rows.
fn find_first(matcher: &Matcher, rows: &Vec<Vec<Cell>>, limit: usize) -> (hit: Option<usize>)
    ensures
        match hit {
            Some(i) => first_hit(
                matcher.texts(),
                at_most(crate::viewport::grid_bytes(rows@), limit as int),
            ) == Some(i as int) && i < limit,
            None => first_hit(
                matcher.texts(),
                at_most(crate::viewport::grid_bytes(rows@), limit as int),
            ) is None,
        },
{
    let ghost grid = at_most(crate::viewport::grid_bytes(rows@), limit as int);
    let ghost texts = matcher.texts();
    let n: usize = if rows.len() <= limit {
        rows.len()
    } else {
        limit
    };
    assert(grid.skip(0) =~= grid);
    for i in 0..n
        invariant
            n <= rows.len(),
            n <= limit,
            n == grid.len(),
            texts == matcher.texts(),
            grid == at_most(crate::viewport::grid_bytes(rows@), limit as int),
            match first_hit(texts, grid.skip(i as int)) {
                Some(k) => first_hit(texts, grid) == Some(k + i),
                None => first_hit(texts, grid) is None,
            },
    {
        assert(grid.skip(i as int)[0] == crate::viewport::row_bytes(rows@[i as int]@));
        assert(grid.skip(i as int).drop_first() =~= grid.skip(i + 1));
        if hits_row(matcher, &rows[i]) {
            return Some(i);
        }
    }
    assert(grid.skip(grid.len() as int) =~= Seq::empty());
    None
}

/// The last row that matches, of at most `limit` rows.
fn find_last_hit(matcher: &Matcher, rows: &Vec<Vec<Cell>>, limit: usize) -> (hit: Option<usize>)
    ensures
        match hit {
            Some(i) => last_hit(
                matcher.texts(),
                at_most(crate::viewport::grid_bytes(rows@), limit as int),
            ) == Some(i as int) && i < limit,
            None => last_hit(
                matcher.texts(),
                at_most(crate::viewport::grid_bytes(rows@), limit as int),
            ) is None,
        },
{
    let ghost grid = at_most(crate::viewport::grid_bytes(rows@), limit as int);
    let ghost texts = matcher.texts();
    let mut end: usize = if rows.len() <= limit {
        rows.len()
    } else {
        limit
    };
    assert(grid.take(end as int) =~= grid);
    while end > 0
        invariant
            end <= rows.len(),
            end <= limit,
            end <= grid.len(),
            texts == matcher.texts(),
            grid == at_most(crate::viewport::grid_bytes(rows@), limit as int),
            last_hit(texts, grid) == last_hit(texts, grid.take(end as int)),
        decreases end,
    {
        assert(grid.take(end as int).last() == crate::viewport::row_bytes(rows@[end - 1]@));
        assert(grid.take(end as int).drop_last() =~= grid.take(end - 1));
        if hits_row(matcher, &rows[end - 1]) {
            return Some(end - 1);
        }
        end -= 1;
    }
    None
}

/// The match among rows that were fetched: the first one, or with `forward` unset the last one.
pub open spec fn hit_in(texts: Set<Seq<u8>>, grid: Seq<Seq<Seq<u8>>>, forward: bool) -> Option<int> {
    if forward {
        first_hit(texts, grid)
    } else {
        last_hit(texts, grid)
    }
}

/// How far a search for a match has come.
pub struct FindCursor {
    forward: bool,
    edge: u64,
    total: u64,
}

impl FindCursor {
    /// Whether it goes towards the end.
    pub closed spec fn onward(&self) -> bool {
        self.forward
    }

    /// The first row that is not looked at yet, or going backward the one behind the last such row.
    pub closed spec fn position(&self) -> int {
        self.edge as int
    }

    /// The rows in all.
    pub closed spec fn size(&self) -> int {
        self.total as int
    }

    /// Whether every row is looked at.
    pub open spec fn exhausted(&self) -> bool {
        if self.onward() {
            self.position() >= self.size()
        } else {
            self.position() <= 0
        }
    }

    /// The rows that are looked at next.
    pub open spec fn window(&self) -> RowRange {
        if self.onward() {
            RowRange {
                start: self.position() as u64,
                len: smaller(self.size() - self.position(), FIND_BATCH as int) as u32,
            }
        } else {
            let n = smaller(self.position(), FIND_BATCH as int);
            RowRange { start: (self.position() - n) as u64, len: n as u32 }
        }
    }

    /// The match in what is not looked at yet.
    pub open spec fn hit<T: ViewportSource>(
        &self,
        table: &T,
        columns: Seq<ColumnId>,
        texts: Set<Seq<u8>>,
    ) -> Option<int> {
        if self.onward() {
            hit_from(table, columns, texts, self.position(), self.size())
        } else {
            hit_before(table, columns, texts, self.position())
        }
    }

    /// At the start of a search from `first` on. Rows from `total` on do not count.
    pub fn new(first: u64, forward: bool, total: u64) -> (r: FindCursor)
        ensures
            r.onward() == forward,
            r.size() == total,
            r.position() == (if forward {
                first as int
            } else {
                smaller(first + 1, total as int)
            }),
    {
        let edge: u64 = if forward {
            first
        } else if first < total {
            first + 1
        } else {
            total
        };
        FindCursor { forward, edge, total }
    }

    /// The request for the next rows; none where every row is looked at.
    pub fn request(&self, columns: &Vec<ColumnId>) -> (r: Option<ViewportRequest>)
        ensures
            r is None <==> self.exhausted(),
            r matches Some(request) ==> request.rows == self.window() && request.columns@ == columns@,
    {
        let left: u64 = if !self.forward {
            self.edge
        } else if self.edge < self.total {
            self.total - self.edge
        } else {
            0
        };
        if left == 0 {
            return None;
        }
        let len: u32 = if left <= FIND_BATCH as u64 {
            left as u32
        } else {
            FIND_BATCH
        };
        let start: u64 = if self.forward {
            self.edge
        } else {
            self.edge - len as u64
        };
        Some(ViewportRequest { rows: RowRange { start, len }, columns: copy_columns(columns) })
    }

    /// Looks at the rows that were requested: the match among them, or else it goes past them.
    pub fn look(&mut self, matcher: &Matcher, rows: &Vec<Vec<Cell>>) -> (found: Option<u64>)
        requires
            !old(self).exhausted(),
        ensures
            final(self).onward() == old(self).onward(),
            final(self).size() == old(self).size(),
            match found {
                Some(row) => hit_in(
                    matcher.texts(),
                    at_most(crate::viewport::grid_bytes(rows@), old(self).window().len as int),
                    old(self).onward(),
                ) == Some(row - old(self).window().start) && final(self).position() == old(
                    self,
                ).position(),
                None => hit_in(
                    matcher.texts(),
                    at_most(crate::viewport::grid_bytes(rows@), old(self).window().len as int),
                    old(self).onward(),
                ) is None && final(self).position() == (if old(self).onward() {
                    old(self).position() + old(self).window().len
                } else {
                    old(self).position() - old(self).window().len
                }),
            },
    {
        if self.forward {
            let left: u64 = self.total - self.edge;
            let n: u64 = if left <= FIND_BATCH as u64 {
                left
            } else {
                FIND_BATCH as u64
            };
            match find_first(matcher, rows, n as usize) {
                Some(i) => Some(self.edge + i as u64),
                None => {
                    self.edge = self.edge + n;
                    None
                },
            }
        } else {
            let n: u64 = if self.edge <= FIND_BATCH as u64 {
                self.edge
            } else {
                FIND_BATCH as u64
            };
            match find_last_hit(matcher, rows, n as usize) {
                Some(i) => Some(self.edge - n + i as u64),
                None => {
                    self.edge = self.edge - n;
                    None
                },
            }
        }
    }
}

/// Looks for the match nearest to `first`: at or behind it, or with `forward` unset at or before it.
/// Rows from `total` on do not count. Fails only where there is a row to look at, and `cancel` was
/// raised or the table cannot be read.
pub fn next_match<T: ViewportSource>(
    table: &T,
    columns: &Vec<ColumnId>,
    matcher: &Matcher,
    first: u64,
    forward: bool,
    total: u64,
    cancel: &CancellationToken,
) -> (found: Result<Option<u64>, Error>)
    requires
        table.wf(),
    ensures
        match found {
            Ok(Some(row)) => (if forward {
                hit_from(table, columns@, matcher.texts(), first as int, total as int)
            } else {
                hit_before(
                    table,
                    columns@,
                    matcher.texts(),
                    smaller(first + 1, total as int),
                )
            }) == Some(row as int),
            Ok(None) => (if forward {
                hit_from(table, columns@, matcher.texts(), first as int, total as int)
            } else {
                hit_before(
                    table,
                    columns@,
                    matcher.texts(),
                    smaller(first + 1, total as int),
                )
            }) is None,
            Err(e) => crate::viewport::failed(table.reliable(), e) && (if forward {
                first < total
            } else {
                total > 0
            }),
        },
{
    let mut cursor = FindCursor::new(first, forward, total);
    let ghost hit = cursor.hit(table, columns@, matcher.texts());
    loop
        invariant
            table.wf(),
            hit == cursor.hit(table, columns@, matcher.texts()),
            cursor.onward() == forward,
            cursor.size() == total,
            forward ==> first <= cursor.position(),
            !forward ==> cursor.position() <= total,
            hit == (if forward {
                hit_from(table, columns@, matcher.texts(), first as int, total as int)
            } else {
                hit_before(
                    table,
                    columns@,
                    matcher.texts(),
                    smaller(first + 1, total as int),
                )
            }),
        decreases (if cursor.onward() {
            cursor.size() - cursor.position()
        } else {
            cursor.position()
        }),
    {
        let request = match cursor.request(columns) {
            Some(request) => request,
            None => return Ok(None),
        };
        let viewport = table.fetch(&request, cancel)?;
        match cursor.look(matcher, &viewport.rows) {
            Some(row) => return Ok(Some(row)),
            None => {},
        }
    }
}

/// Whether a table shows a row the same in every slice that holds it.
pub open spec fn steady<T: ViewportSource>(table: &T, columns: Seq<ColumnId>, total: int) -> bool {
    forall|start: u64, len: u32|
        start + len <= total ==> {
            let grid = #[trigger] table.shown(RowRange { start, len }, columns);
            &&& grid.len() == len
            &&& forall|i: int|
                0 <= i < len ==> #[trigger] grid[i] == shown_row(table, columns, start + i)
        }
}

/// One row as a table shows it.
pub open spec fn shown_row<T: ViewportSource>(
    table: &T,
    columns: Seq<ColumnId>,
    row: int,
) -> Seq<Seq<u8>> {
    table.shown(RowRange { start: row as u64, len: 1 }, columns)[0]
}

/// A table over delimited text shows a row the same in every slice that holds it.
pub proof fn csv_tables_are_steady(table: &crate::table::CsvTable, columns: Seq<ColumnId>)
    requires
        table.state().slot().shown() matches Some(rows) ==> rows.len() <= u64::MAX,
    ensures
        steady(table, columns, crate::export::count_of(table.rows()) as int),
{
    let total = crate::export::count_of(table.rows()) as int;
    let view = table.state().slot().shown();
    assert forall|start: u64, len: u32| start + len <= total implies {
        let grid = #[trigger] table.shown(RowRange { start, len }, columns);
        &&& grid.len() == len
        &&& forall|i: int|
            0 <= i < len ==> #[trigger] grid[i] == shown_row(table, columns, start + i)
    } by {
        let range = RowRange { start, len };
        let grid = table.shown(range, columns);
        lemma_resolved(view, range, total);
        assert forall|i: int| 0 <= i < len implies #[trigger] grid[i] == shown_row(
            table,
            columns,
            start + i,
        ) by {
            lemma_resolved(view, RowRange { start: (start + i) as u64, len: 1 }, total);
        }
    }
}

/// A table over JSON shows a row the same in every slice that holds it.
pub proof fn json_tables_are_steady(table: &crate::json::JsonTable, columns: Seq<ColumnId>)
    requires
        table.source().len() <= u64::MAX,
        crate::json::is_indexed(table),
        crate::json::has_own_rows(table),
    ensures
        steady(table, columns, crate::export::count_of(table.rows()) as int),
{
    let total = crate::export::count_of(table.rows()) as int;
    let view = table.state().slot().shown();
    assert forall|start: u64, len: u32| start + len <= total implies {
        let grid = #[trigger] table.shown(RowRange { start, len }, columns);
        &&& grid.len() == len
        &&& forall|i: int|
            0 <= i < len ==> #[trigger] grid[i] == shown_row(table, columns, start + i)
    } by {
        let range = RowRange { start, len };
        let grid = table.shown(range, columns);
        lemma_resolved(view, range, total);
        crate::json::lemma_own_rows(table, crate::view::resolved(view, range), columns);
        assert forall|i: int| 0 <= i < len implies #[trigger] grid[i] == shown_row(
            table,
            columns,
            start + i,
        ) by {
            let one = RowRange { start: (start + i) as u64, len: 1 };
            lemma_resolved(view, one, total);
            crate::json::lemma_own_rows(table, crate::view::resolved(view, one), columns);
        }
    }
}

/// The rows of a range that lies within a view.
proof fn lemma_resolved(view: Option<Seq<u64>>, range: RowRange, total: int)
    requires
        range.start + range.len <= total <= u64::MAX,
        view matches Some(rows) ==> total == rows.len(),
    ensures
        crate::view::resolved(view, range) == Seq::new(
            range.len as nat,
            |i: int|
                match view {
                    Some(rows) => rows[range.start + i],
                    None => (range.start + i) as u64,
                },
        ),
{
    assert(crate::view::resolved(view, range) =~= Seq::new(
        range.len as nat,
        |i: int|
            match view {
                Some(rows) => rows[range.start + i],
                None => (range.start + i) as u64,
            },
    ));
}

proof fn lemma_first_hit(texts: Set<Seq<u8>>, grid: Seq<Seq<Seq<u8>>>)
    ensures
        match first_hit(texts, grid) {
            Some(i) => 0 <= i < grid.len() && row_hits(texts, grid[i]) && forall|j: int|
                0 <= j < i ==> !row_hits(texts, #[trigger] grid[j]),
            None => forall|j: int| 0 <= j < grid.len() ==> !row_hits(texts, #[trigger] grid[j]),
        },
    decreases grid.len(),
{
    if grid.len() > 0 && !row_hits(texts, grid[0]) {
        let rest = grid.drop_first();
        lemma_first_hit(texts, rest);
        assert forall|j: int|
            0 <= j < (match first_hit(texts, grid) {
                Some(i) => i,
                None => grid.len() as int,
            }) implies !row_hits(texts, #[trigger] grid[j]) by {
            if j > 0 {
                assert(rest[j - 1] == grid[j]);
            }
        }
    }
}

proof fn lemma_last_hit(texts: Set<Seq<u8>>, grid: Seq<Seq<Seq<u8>>>)
    ensures
        match last_hit(texts, grid) {
            Some(i) => 0 <= i < grid.len() && row_hits(texts, grid[i]) && forall|j: int|
                i < j < grid.len() ==> !row_hits(texts, #[trigger] grid[j]),
            None => forall|j: int| 0 <= j < grid.len() ==> !row_hits(texts, #[trigger] grid[j]),
        },
    decreases grid.len(),
{
    if grid.len() > 0 && !row_hits(texts, grid.last()) {
        let rest = grid.drop_last();
        lemma_last_hit(texts, rest);
        assert forall|j: int|
            (match last_hit(texts, grid) {
                Some(i) => i + 1,
                None => 0,
            }) <= j < grid.len() implies !row_hits(texts, #[trigger] grid[j]) by {
            if j < grid.len() - 1 {
                assert(rest[j] == grid[j]);
            }
        }
    }
}

/// The next match is the nearest one: the row matches, and no row between does. Where there is none,
/// no row up to the end matches.
pub proof fn next_match_is_nearest<T: ViewportSource>(
    table: &T,
    columns: Seq<ColumnId>,
    texts: Set<Seq<u8>>,
    start: int,
    total: int,
)
    requires
        0 <= start,
        total <= u64::MAX,
        steady(table, columns, total),
    ensures
        match hit_from(table, columns, texts, start, total) {
            Some(row) => start <= row < total && row_hits(texts, shown_row(table, columns, row))
                && forall|k: int|
                start <= k < row ==> !row_hits(texts, #[trigger] shown_row(table, columns, k)),
            None => forall|k: int|
                start <= k < total ==> !row_hits(texts, #[trigger] shown_row(table, columns, k)),
        },
    decreases total - start,
{
    if start < total {
        let n = smaller(total - start, FIND_BATCH as int);
        let grid = table.shown(RowRange { start: start as u64, len: n as u32 }, columns);
        assert(at_most(grid, n) =~= grid);
        lemma_first_hit(texts, grid);
        match first_hit(texts, grid) {
            Some(i) => {
                assert forall|k: int| start <= k < start + i implies !row_hits(
                    texts,
                    #[trigger] shown_row(table, columns, k),
                ) by {
                    assert(grid[k - start] == shown_row(table, columns, k));
                }
                assert(grid[i] == shown_row(table, columns, start + i));
            },
            None => {
                next_match_is_nearest(table, columns, texts, start + n, total);
                assert forall|k: int| start <= k < start + n implies !row_hits(
                    texts,
                    #[trigger] shown_row(table, columns, k),
                ) by {
                    assert(grid[k - start] == shown_row(table, columns, k));
                }
            },
        }
    }
}

/// The previous match is the nearest one: the row matches, and no row between does. Where there is
/// none, no row down to the first one matches.
pub proof fn previous_match_is_nearest<T: ViewportSource>(
    table: &T,
    columns: Seq<ColumnId>,
    texts: Set<Seq<u8>>,
    end: int,
    total: int,
)
    requires
        end <= total <= u64::MAX,
        steady(table, columns, total),
    ensures
        match hit_before(table, columns, texts, end) {
            Some(row) => 0 <= row < end && row_hits(texts, shown_row(table, columns, row))
                && forall|k: int|
                row < k < end ==> !row_hits(texts, #[trigger] shown_row(table, columns, k)),
            None => forall|k: int|
                0 <= k < end ==> !row_hits(texts, #[trigger] shown_row(table, columns, k)),
        },
    decreases end,
{
    if end > 0 {
        let n = smaller(end, FIND_BATCH as int);
        let start = end - n;
        let grid = table.shown(RowRange { start: start as u64, len: n as u32 }, columns);
        assert(at_most(grid, n) =~= grid);
        lemma_last_hit(texts, grid);
        match last_hit(texts, grid) {
            Some(i) => {
                assert forall|k: int| start + i < k < end implies !row_hits(
                    texts,
                    #[trigger] shown_row(table, columns, k),
                ) by {
                    assert(grid[k - start] == shown_row(table, columns, k));
                }
                assert(grid[i] == shown_row(table, columns, start + i));
            },
            None => {
                previous_match_is_nearest(table, columns, texts, start, total);
                assert forall|k: int| start <= k < end implies !row_hits(
                    texts,
                    #[trigger] shown_row(table, columns, k),
                ) by {
                    assert(grid[k - start] == shown_row(table, columns, k));
                }
            },
        }
    }
}

/// Whether a table can be exported: only once all its rows are counted, or else the export would
/// silently lack the others.
pub fn exportable(rows: RowCount) -> (r: bool)
    ensures
        r == (rows is Exact),
{
    match rows {
        RowCount::Exact(_) => true,
        RowCount::AtLeast(_) => false,
    }
}

/// What is copied of a row are its cells with a tab between each two of them, and of rows the lines
/// with a line feed between each two of them: a further cell or row is added behind a separator.
pub proof fn copied_cells_are_kept_apart(
    row: Seq<Seq<u8>>,
    cell: Seq<u8>,
    rows: Seq<Seq<Seq<u8>>>,
    encoding: TextEncoding,
)
    ensures
        line_text(Seq::empty(), encoding).len() == 0,
        line_text(seq![cell], encoding) == crate::encoding::field_display(encoding, cell),
        row.len() > 0 ==> line_text(row.push(cell), encoding) == line_text(row, encoding).push('\t')
            + crate::encoding::field_display(encoding, cell),
        rows_text(Seq::empty(), encoding).len() == 0,
        rows_text(seq![row], encoding) == line_text(row, encoding),
        rows.len() > 0 ==> rows_text(rows.push(row), encoding) == rows_text(rows, encoding).push(
            '\n',
        ) + line_text(row, encoding),
{
    reveal_strlit("\t");
    reveal_strlit("\n");
    assert("\t"@ =~= seq!['\t']);
    assert("\n"@ =~= seq!['\n']);
    assert(row.push(cell).drop_last() =~= row);
    assert(rows.push(row).drop_last() =~= rows);
    if row.len() > 0 {
        assert(line_text(row, encoding) + seq!['\t'] =~= line_text(row, encoding).push('\t'));
    }
    if rows.len() > 0 {
        assert(rows_text(rows, encoding) + seq!['\n'] =~= rows_text(rows, encoding).push('\n'));
    }
}

/// A key moves by one row or by twenty, towards the end or the beginning, or to either of them, and
/// never leaves the rows; from no row it leads to the first one, or with the key to the end to the
/// last one.
pub proof fn keys_move_within_the_rows(row: u64, key: NavKey, last: int)
    requires
        0 <= row <= last,
    ensures
        0 <= next_row(Some(row), key, last) <= last,
        0 <= next_row(None, key, last) <= last,
        key is Down ==> next_row(Some(row), key, last) == (if row < last {
            row + 1
        } else {
            last
        }),
        key is Up ==> next_row(Some(row), key, last) == (if row > 0 {
            row - 1
        } else {
            0
        }),
        key is PageDown ==> next_row(Some(row), key, last) == (if row + 20 < last {
            row + 20
        } else {
            last
        }),
        key is PageUp ==> next_row(Some(row), key, last) == (if row > 20 {
            row - 20
        } else {
            0
        }),
        key is Home ==> next_row(Some(row), key, last) == 0 && next_row(None, key, last) == 0,
        key is End ==> next_row(Some(row), key, last) == last && next_row(None, key, last) == last,
        !(key is End) ==> next_row(None, key, last) == 0,
{
}

/// Up and down undo each other within the rows.
pub proof fn up_undoes_down(row: u64, last: int)
    requires
        0 <= row < last <= u64::MAX,
    ensures
        next_row(Some(next_row(Some(row), NavKey::Down, last) as u64), NavKey::Up, last) == row,
{
}

/// A key selects the row that it leads to, or with `extend` the rows between that one and where the
/// selection began, which stays where it is.
pub proof fn keys_select_rows(selected: Option<RowSpan>, key: NavKey, extend: bool, total: int, r: u64)
    requires
        0 < total <= u64::MAX,
        selected matches Some(span) ==> span.anchor < total && span.lead < total,
    ensures
        ({
            let from = match selected {
                Some(span) => Some(span.lead),
                None => None,
            };
            let to = next_row(from, key, total - 1);
            let span = moved(selected, key, extend, total);
            &&& span.lead == to
            &&& !extend || selected is None ==> (span.rows().contains(r) <==> r == to)
            &&& extend && selected is Some ==> span.anchor == (selected->0).anchor && (
            span.rows().contains(r) <==> ((selected->0).anchor <= r <= to || to <= r <= (
            selected->0).anchor))
        }),
{
    if let Some(span) = selected {
        keys_move_within_the_rows(span.lead, key, total - 1);
    } else {
        keys_move_within_the_rows(0, key, total - 1);
    }
}

/// A click on the header of another column sorts by that column, smallest first, whatever the sort
/// was; a click on the header of the sorted column never sorts by another one.
pub proof fn clicks_sort_by_the_clicked_column(sort: Option<SortKey>, column: ColumnId)
    ensures
        !(sort matches Some(key) && key.column == column) ==> cycled(sort, column) == Some(
            SortKey { column, direction: Direction::Ascending },
        ),
        cycled(sort, column) matches Some(key) ==> key.column == column,
        cycled(sort, column) is None <==> sort == Some(
            SortKey { column, direction: Direction::Descending },
        ),
{
}

/// A click selects just the row that it hits. A drag selects from the row where it began, and leads to
/// the row where it is; without a drag or a click the selection stays.
pub proof fn the_pointer_selects_rows(
    selected: Option<RowSpan>,
    selecting: bool,
    events: PointerEvents,
)
    ensures
        events.clicked matches Some(row) ==> pointed(selected, selecting, events) == Some(
            RowSpan { anchor: row, lead: row },
        ),
        events.clicked is None && (events.drag_started is Some) ==> pointed(
            selected,
            selecting,
            events,
        ) == Some(RowSpan { anchor: events.drag_started->0, lead: events.drag_started->0 }),
        events.clicked is None && events.drag_started is None && selecting && selected is Some && (
        events.drag_lead is Some) ==> pointed(selected, selecting, events) == Some(
            RowSpan { anchor: (selected->0).anchor, lead: events.drag_lead->0 },
        ),
        events.clicked is None && events.drag_started is None && (!selecting || events.drag_lead is None
            || selected is None) ==> pointed(selected, selecting, events) == selected,
{
}

/// A search for the next match begins behind the selected row and one for the previous match before
/// it; without a selection the one begins with the first row and the other with the last one.
pub proof fn searches_begin_next_to_the_selection(selected: Option<u64>, forward: bool, total: int)
    requires
        0 <= total <= u64::MAX,
        selected matches Some(row) ==> row < total,
    ensures
        total == 0 ==> find_from(selected, forward, total) is None,
        total > 0 && selected is None && forward ==> find_from(selected, forward, total) == Some(0int),
        total > 0 && selected is None && !forward ==> find_from(selected, forward, total) == Some(
            total - 1,
        ),
        selected matches Some(row) ==> forward ==> find_from(selected, forward, total) == Some(row + 1),
        selected matches Some(row) ==> !forward ==> (find_from(selected, forward, total) matches Some(
            start,
        ) ==> start == row - 1),
        selected matches Some(row) ==> !forward ==> (find_from(selected, forward, total) is None <==> row
            == 0),
{
}

/// A row matches where one of its cells does, whatever its column.
pub proof fn any_cell_is_a_hit(texts: Set<Seq<u8>>, row: Seq<Seq<u8>>, c: int)
    ensures
        0 <= c < row.len() && texts.contains(row[c]) ==> row_hits(texts, row),
        (forall|i: int| 0 <= i < row.len() ==> !texts.contains(#[trigger] row[i])) ==> !row_hits(
            texts,
            row,
        ),
{
}

} // verus!
