//! What tables over Parquet files decide: which rows and columns to read, and what to make of what
//! was read.
use vstd::prelude::*;
#[allow(unused_imports)]
use vstd::string::StringSliceAdditionalSpecFns;
use crate::error::Error;
use crate::search::Matcher;
use crate::table::{empty_row, ColumnView};
use crate::view::{ViewBuilder, ViewJob, ViewSlot};
use crate::viewport::{
    Cell, Column, ColumnId, DataQuality, InferredType, RowCount, RowRange, Schema, SortKey, ViewSpec,
    ViewStatus, Viewport,
};

verus! {

/// What the type of a column of the file is.
#[derive(Clone, Copy, Debug, PartialEq, Eq, Structural)]
pub struct FieldKind {
    /// Whether it is the type of truth values.
    pub boolean: bool,
    /// Whether it is one of integers, with or without a sign.
    pub integer: bool,
    /// Whether it is one of floating-point numbers.
    pub floating: bool,
    /// Whether it is one of decimal numbers.
    pub decimal: bool,
    /// How many bytes a value takes, where all take as many.
    pub width: Option<usize>,
}

/// A column of the file.
pub struct FieldInfo {
    /// The name.
    pub name: String,
    /// The type.
    pub kind: FieldKind,
}

/// The type of texts.
pub open spec fn text_kind() -> FieldKind {
    FieldKind { boolean: false, integer: false, floating: false, decimal: false, width: None }
}

/// What a column of a type looks like. Decimal numbers of less than 16 bytes are shown as text.
pub open spec fn kind_type(kind: FieldKind) -> InferredType {
    if kind.boolean {
        InferredType::Boolean
    } else if kind.integer {
        InferredType::Integer
    } else if kind.floating {
        InferredType::Float
    } else if kind.decimal && (kind.width == Some(16usize) || kind.width == Some(32usize)) {
        InferredType::Float
    } else {
        InferredType::Text
    }
}

/// What a column of a type looks like.
pub fn inferred_type(kind: FieldKind) -> (r: InferredType)
    ensures
        r == kind_type(kind),
{
    if kind.boolean {
        InferredType::Boolean
    } else if kind.integer {
        InferredType::Integer
    } else if kind.floating {
        InferredType::Float
    } else if kind.decimal && matches!(kind.width, Some(16) | Some(32)) {
        InferredType::Float
    } else {
        InferredType::Text
    }
}

/// The columns of a file.
pub open spec fn field_columns(fields: Seq<FieldInfo>) -> Seq<ColumnView> {
    Seq::new(
        fields.len(),
        |i: int|
            ColumnView {
                id: i as u32,
                name: vstd::utf8::encode_utf8(fields[i].name@),
                inferred: kind_type(fields[i].kind),
            },
    )
}

/// The columns of a file.
pub fn build_schema(fields: &[FieldInfo]) -> (schema: Schema)
    ensures
        crate::table::column_views(schema.columns@) == field_columns(fields@),
{
    let mut columns: Vec<Column> = Vec::new();
    for i in 0..fields.len()
        invariant
            columns@.len() == i,
            forall|j: int|
                0 <= j < i ==> {
                    &&& (#[trigger] columns@[j]).id.0 == j as u32
                    &&& columns@[j].name@ == vstd::utf8::encode_utf8(fields@[j].name@)
                    &&& columns@[j].inferred == kind_type(fields@[j].kind)
                },
    {
        let name = vstd::slice::slice_to_vec(fields[i].name.as_str().as_bytes());
        columns.push(
            Column { id: ColumnId(i as u32), name, inferred: inferred_type(fields[i].kind) },
        );
    }
    let schema = Schema { columns };
    assert(crate::table::column_views(schema.columns@) =~= field_columns(fields@));
    schema
}

/// Whether numbers ascend, none of them twice.
pub open spec fn ascends(list: Seq<u64>) -> bool {
    forall|i: int, j: int| 0 <= i < j < list.len() ==> #[trigger] list[i] < #[trigger] list[j]
}

/// Some rows that follow one another, passed over or read.
#[derive(Clone, Copy, Debug, PartialEq, Eq, Structural)]
pub enum Selector {
    Skip(u64),
    Select(u64),
}

/// How many rows a list of selectors goes over.
pub open spec fn covered(selectors: Seq<Selector>) -> int
    decreases selectors.len(),
{
    if selectors.len() == 0 {
        0
    } else {
        covered(selectors.drop_last()) + match selectors.last() {
            Selector::Skip(n) => n as int,
            Selector::Select(n) => n as int,
        }
    }
}

/// The rows that a list of selectors reads.
pub open spec fn selected(selectors: Seq<Selector>) -> Seq<u64>
    decreases selectors.len(),
{
    if selectors.len() == 0 {
        Seq::empty()
    } else {
        let before = selectors.drop_last();
        match selectors.last() {
            Selector::Skip(_) => selected(before),
            Selector::Select(n) => selected(before) + Seq::new(
                n as nat,
                |i: int| (covered(before) + i) as u64,
            ),
        }
    }
}

/// Whether a list of selectors does not end in rows that are passed over.
pub open spec fn ends_reading(selectors: Seq<Selector>) -> bool {
    selectors.len() > 0 ==> selectors.last() is Select
}

/// The selectors that read exactly the given rows.
pub fn row_selection(sorted: &[u64]) -> (selectors: Vec<Selector>)
    requires
        ascends(sorted@),
        forall|i: int| 0 <= i < sorted@.len() ==> #[trigger] sorted@[i] < u64::MAX,
    ensures
        selected(selectors@) == sorted@,
        covered(selectors@) == (if sorted@.len() == 0 {
            0
        } else {
            sorted@.last() + 1
        }),
        ends_reading(selectors@),
{
    let mut selectors: Vec<Selector> = Vec::new();
    let mut cursor: u64 = 0;
    let mut i: usize = 0;
    proof {
        assert(selected(selectors@) =~= sorted@.take(0));
    }
    while i < sorted.len()
        invariant
            i <= sorted@.len(),
            ascends(sorted@),
            forall|i: int| 0 <= i < sorted@.len() ==> #[trigger] sorted@[i] < u64::MAX,
            covered(selectors@) == cursor,
            selected(selectors@) == sorted@.take(i as int),
            i < sorted@.len() ==> cursor <= sorted@[i as int],
            cursor == (if i == 0 {
                0
            } else {
                sorted@[i - 1] + 1
            }),
            ends_reading(selectors@),
        decreases sorted@.len() - i,
    {
        let start: u64 = sorted[i];
        if start > cursor {
            let ghost before = selectors@;
            selectors.push(Selector::Skip(start - cursor));
            assert(selectors@.drop_last() =~= before);
        }
        assert(covered(selectors@) == start);
        assert(selected(selectors@) == sorted@.take(i as int));
        let mut j: usize = i;
        while j < sorted.len() - 1 && sorted[j + 1] == sorted[j] + 1
            invariant
                i <= j < sorted@.len(),
                ascends(sorted@),
                forall|i: int| 0 <= i < sorted@.len() ==> #[trigger] sorted@[i] < u64::MAX,
                forall|k: int| i <= k <= j ==> #[trigger] sorted@[k] == sorted@[i as int] + (k - i),
            decreases sorted@.len() - j,
        {
            j += 1;
        }
        let run: u64 = sorted[j] - start + 1;
        let ghost before = selectors@;
        selectors.push(Selector::Select(run));
        proof {
            assert(selectors@.drop_last() =~= before);
            assert(selected(selectors@) =~= sorted@.take(j + 1));
        }
        cursor = sorted[j] + 1;
        i = j + 1;
    }
    assert(sorted@.take(sorted@.len() as int) =~= sorted@);
    selectors
}

/// Whether a list holds the given numbers under a limit, each once, in ascending order.
pub open spec fn is_ascending_set(list: Seq<u64>, numbers: Seq<u64>, limit: int) -> bool {
    &&& ascends(list)
    &&& forall|i: int|
        0 <= i < list.len() ==> numbers.contains(#[trigger] list[i]) && list[i] < limit
    &&& forall|i: int|
        0 <= i < numbers.len() && (#[trigger] numbers[i]) < limit ==> list.contains(numbers[i])
}

/// Puts a number into an ascending list, unless it is there.
fn insert_ascending(list: &mut Vec<u64>, x: u64)
    requires
        ascends(old(list)@),
    ensures
        ascends(final(list)@),
        forall|y: u64|
            #![trigger final(list)@.contains(y)]
            final(list)@.contains(y) <==> (old(list)@.contains(y) || y == x),
{
    let ghost before = list@;
    let mut at: usize = list.len();
    while at > 0 && list[at - 1] > x
        invariant
            list@ == before,
            ascends(before),
            at <= before.len(),
            forall|k: int| at <= k < before.len() ==> #[trigger] before[k] > x,
        decreases at,
    {
        at -= 1;
    }
    if at > 0 && list[at - 1] == x {
        assert(before[at - 1] == x);
        return ;
    }
    list.insert(at, x);
    proof {
        let after = list@;
        assert(after =~= before.insert(at as int, x));
        assert forall|y: u64| #![trigger after.contains(y)]
            after.contains(y) <==> (before.contains(y) || y == x) by {
            if before.contains(y) {
                let k = before.index_of(y);
                if k < at {
                    assert(after[k] == y);
                } else {
                    assert(after[k + 1] == y);
                }
            }
            if y == x {
                assert(after[at as int] == y);
            }
            if after.contains(y) {
                let k = after.index_of(y);
                if k < at {
                    assert(before[k] == y);
                } else if k > at {
                    assert(before[k - 1] == y);
                }
            }
        }
    }
}

/// The given numbers under a limit, each once, in ascending order.
pub fn ascending_set(numbers: &[u64], limit: u64) -> (list: Vec<u64>)
    ensures
        is_ascending_set(list@, numbers@, limit as int),
{
    let mut list: Vec<u64> = Vec::new();
    for k in 0..numbers.len()
        invariant
            ascends(list@),
            forall|y: u64|
                #![trigger list@.contains(y)]
                list@.contains(y) <==> y < limit && exists|i: int|
                    0 <= i < k && #[trigger] numbers@[i] == y,
    {
        let x: u64 = numbers[k];
        let ghost before = list@;
        if x < limit {
            insert_ascending(&mut list, x);
        }
        proof {
            assert forall|y: u64| #![trigger list@.contains(y)]
                list@.contains(y) <==> y < limit && exists|i: int|
                    0 <= i < k + 1 && #[trigger] numbers@[i] == y by {
                let _ = before.contains(y);
                if y == x {
                    assert(numbers@[k as int] == y);
                }
                if before.contains(y) {
                    let i = choose|i: int| 0 <= i < k && #[trigger] numbers@[i] == y;
                    assert(numbers@[i] == y);
                }
            }
        }
    }
    proof {
        assert forall|i: int| 0 <= i < list@.len() implies numbers@.contains(#[trigger] list@[i])
            && list@[i] < limit by {
            assert(list@.contains(list@[i]));
        }
        assert forall|i: int|
            0 <= i < numbers@.len() && (#[trigger] numbers@[i]) < limit implies list@.contains(
            numbers@[i],
        ) by {
            let y = numbers@[i];
            assert(exists|k: int| 0 <= k < numbers@.len() && #[trigger] numbers@[k] == y);
        }
    }
    list
}

/// The given numbers under a limit, each once, in ascending order.
pub open spec fn ascending(numbers: Seq<u64>, limit: int) -> Seq<u64> {
    choose|list: Seq<u64>| is_ascending_set(list, numbers, limit)
}

proof fn lemma_same_ascent(a: Seq<u64>, b: Seq<u64>)
    requires
        ascends(a),
        ascends(b),
        forall|i: int| 0 <= i < a.len() ==> b.contains(#[trigger] a[i]),
        forall|i: int| 0 <= i < b.len() ==> a.contains(#[trigger] b[i]),
    ensures
        a == b,
    decreases a.len(),
{
    if a.len() == 0 {
        if b.len() > 0 {
            assert(a.contains(b[0]));
        }
        assert(a =~= b);
    } else {
        assert(b.contains(a.last()));
        assert(a.contains(b.last()));
        assert(a.last() == b.last());
        let (x, y) = (a.drop_last(), b.drop_last());
        assert forall|i: int| 0 <= i < x.len() implies y.contains(#[trigger] x[i]) by {
            assert(b.contains(a[i]));
            let k = b.index_of(a[i]);
            assert(y[k] == a[i]);
        }
        assert forall|i: int| 0 <= i < y.len() implies x.contains(#[trigger] y[i]) by {
            assert(a.contains(b[i]));
            let k = a.index_of(b[i]);
            assert(x[k] == b[i]);
        }
        lemma_same_ascent(x, y);
        assert(a =~= x.push(a.last()));
        assert(b =~= y.push(b.last()));
    }
}

/// An ascending list with one more number.
spec fn with_number(list: Seq<u64>, x: u64) -> Seq<u64>
    decreases list.len(),
{
    if list.len() == 0 || list.last() < x {
        list.push(x)
    } else if list.last() == x {
        list
    } else {
        with_number(list.drop_last(), x).push(list.last())
    }
}

proof fn lemma_with_number(list: Seq<u64>, x: u64)
    requires
        ascends(list),
    ensures
        ascends(with_number(list, x)),
        forall|y: u64| #[trigger]
            with_number(list, x).contains(y) <==> list.contains(y) || y == x,
    decreases list.len(),
{
    let r = with_number(list, x);
    if list.len() == 0 || list.last() < x {
        assert forall|y: u64| #[trigger] r.contains(y) <==> list.contains(y) || y == x by {
            if list.contains(y) {
                let k = list.index_of(y);
                assert(r[k] == y);
            }
            if y == x {
                assert(r[list.len() as int] == y);
            }
        }
    } else if list.last() == x {
        assert(list.contains(x));
    } else {
        let front = list.drop_last();
        let before = with_number(front, x);
        lemma_with_number(front, x);
        assert forall|k: int| 0 <= k < before.len() implies #[trigger] before[k] < list.last() by {
            assert(before.contains(before[k]));
            if before[k] != x {
                let i = front.index_of(before[k]);
                assert(list[i] == before[k]);
            }
        }
        assert forall|y: u64| #[trigger] r.contains(y) <==> list.contains(y) || y == x by {
            assert(before.contains(y) <==> front.contains(y) || y == x);
            if r.contains(y) {
                let k = r.index_of(y);
                if k < before.len() {
                    assert(before[k] == y);
                    if front.contains(y) {
                        let i = front.index_of(y);
                        assert(list[i] == y);
                    }
                } else {
                    assert(list[list.len() - 1] == y);
                }
            }
            if list.contains(y) {
                let i = list.index_of(y);
                if i < front.len() {
                    assert(front[i] == y);
                } else {
                    assert(r[before.len() as int] == y);
                }
            }
            if before.contains(y) {
                let k = before.index_of(y);
                assert(r[k] == y);
            }
        }
    }
}

/// There is always such a list.
pub(crate) proof fn lemma_ascending_exists(numbers: Seq<u64>, limit: int)
    ensures
        is_ascending_set(ascending(numbers, limit), numbers, limit),
    decreases numbers.len(),
{
    if numbers.len() == 0 {
        assert(is_ascending_set(Seq::empty(), numbers, limit));
    } else {
        let (front, x) = (numbers.drop_last(), numbers.last());
        let before = ascending(front, limit);
        lemma_ascending_exists(front, limit);
        lemma_with_number(before, x);
        let list = if x < limit {
            with_number(before, x)
        } else {
            before
        };
        assert forall|i: int| 0 <= i < list.len() implies numbers.contains(#[trigger] list[i])
            && list[i] < limit by {
            assert(list.contains(list[i]));
            if list[i] == x && x < limit {
                assert(numbers[numbers.len() - 1] == x);
            } else {
                let k = before.index_of(list[i]);
                assert(front.contains(before[k]));
                let m = front.index_of(before[k]);
                assert(numbers[m] == list[i]);
            }
        }
        assert forall|i: int|
            0 <= i < numbers.len() && (#[trigger] numbers[i]) < limit implies list.contains(
            numbers[i],
        ) by {
            if i < front.len() {
                assert(front[i] == numbers[i]);
                assert(before.contains(front[i]));
            }
        }
        assert(is_ascending_set(list, numbers, limit));
    }
}

/// There is only one such list.
pub(crate) proof fn lemma_ascending(list: Seq<u64>, numbers: Seq<u64>, limit: int)
    requires
        is_ascending_set(list, numbers, limit),
    ensures
        ascending(numbers, limit) == list,
{
    let other = ascending(numbers, limit);
    assert(is_ascending_set(other, numbers, limit));
    assert forall|i: int| 0 <= i < list.len() implies other.contains(#[trigger] list[i]) by {
        let k = numbers.index_of(list[i]);
        assert(numbers[k] == list[i]);
    }
    assert forall|i: int| 0 <= i < other.len() implies list.contains(#[trigger] other[i]) by {
        let k = numbers.index_of(other[i]);
        assert(numbers[k] == other[i]);
    }
    lemma_same_ascent(list, other);
}

/// What to read of a file.
pub struct ReadPlan {
    /// The columns, in ascending order.
    pub roots: Vec<u64>,
    /// The rows, in ascending order.
    pub rows: Vec<u64>,
}

/// The numbers of columns.
pub open spec fn column_numbers(columns: Seq<ColumnId>) -> Seq<u64> {
    columns.map_values(|c: ColumnId| c.0 as u64)
}

/// What is to be done for a request.
pub enum FetchPlan {
    /// Nothing is to be read.
    Done(Viewport),
    /// Some rows and columns are to be read.
    Read(ReadPlan),
}

/// Rows of empty cells.
pub open spec fn empty_grid(rows: Seq<u64>, columns: Seq<ColumnId>) -> Seq<Seq<Seq<u8>>> {
    rows.map_values(|r: u64| crate::table::empty_cells(columns))
}

/// The place of a number in a list, or the length of the list.
pub open spec fn place_of(list: Seq<u64>, x: u64) -> int {
    if list.contains(x) {
        list.index_of(x)
    } else {
        list.len() as int
    }
}

/// The cell of a row and a column, from what was read: empty where it was not read.
pub open spec fn read_cell(
    plan_rows: Seq<u64>,
    plan_roots: Seq<u64>,
    read: Seq<Seq<Seq<u8>>>,
    row: u64,
    column: ColumnId,
) -> Seq<u8> {
    let r = place_of(plan_rows, row);
    let c = place_of(plan_roots, column.0 as u64);
    if r < plan_rows.len() && c < plan_roots.len() && r < read.len() && c < read[r].len() {
        read[r][c]
    } else {
        Seq::empty()
    }
}

/// The cells that a request asks for, from what was read.
pub open spec fn assembled(
    plan_rows: Seq<u64>,
    plan_roots: Seq<u64>,
    read: Seq<Seq<Seq<u8>>>,
    rows: Seq<u64>,
    columns: Seq<ColumnId>,
) -> Seq<Seq<Seq<u8>>> {
    rows.map_values(
        |r: u64|
            columns.map_values(|c: ColumnId| read_cell(plan_rows, plan_roots, read, r, c)),
    )
}

/// What was read, with the rows and columns of the plan in their order, is put together to the cells
/// of the file: each cell that the file has stands where it was asked for, and every other one is
/// empty.
pub proof fn assembled_cells_are_those_of_the_file(
    file: spec_fn(u64, u64) -> Seq<u8>,
    row_count: int,
    field_count: int,
    plan_rows: Seq<u64>,
    plan_roots: Seq<u64>,
    rows: Seq<u64>,
    columns: Seq<ColumnId>,
    i: int,
    j: int,
)
    requires
        is_ascending_set(plan_rows, rows, row_count),
        is_ascending_set(plan_roots, column_numbers(columns), field_count),
        0 <= i < rows.len(),
        0 <= j < columns.len(),
    ensures
        ({
            let read = Seq::new(
                plan_rows.len(),
                |r: int| Seq::new(plan_roots.len(), |c: int| file(plan_rows[r], plan_roots[c])),
            );
            assembled(plan_rows, plan_roots, read, rows, columns)[i][j] == if rows[i] < row_count
                && columns[j].0 < field_count {
                file(rows[i], columns[j].0 as u64)
            } else {
                Seq::empty()
            }
        }),
{
    let c = columns[j].0 as u64;
    assert(column_numbers(columns)[j] == c);
    if rows[i] < row_count {
        assert(plan_rows.contains(rows[i]));
    }
    if c < field_count {
        assert(plan_roots.contains(c));
    }
}

/// Whether two lists of numbers are equal.
fn same_rows(a: &[u64], b: &[u64]) -> (r: bool)
    ensures
        r == (a@ == b@),
{
    if a.len() != b.len() {
        return false;
    }
    for i in 0..a.len()
        invariant
            a@.len() == b@.len(),
            forall|j: int| 0 <= j < i ==> a@[j] == b@[j],
    {
        if a[i] != b[i] {
            return false;
        }
    }
    assert(a@ =~= b@);
    true
}

/// Whether two lists of columns are equal.
fn same_columns(a: &[ColumnId], b: &[ColumnId]) -> (r: bool)
    ensures
        r == (a@ == b@),
{
    if a.len() != b.len() {
        return false;
    }
    for i in 0..a.len()
        invariant
            a@.len() == b@.len(),
            forall|j: int| 0 <= j < i ==> a@[j] == b@[j],
    {
        if a[i].0 != b[i].0 {
            return false;
        }
    }
    assert(a@ =~= b@);
    true
}

/// A copy of a row of cells.
fn copy_row(row: &Vec<Cell>) -> (r: Vec<Cell>)
    ensures
        crate::viewport::row_bytes(r@) == crate::viewport::row_bytes(row@),
{
    let mut r: Vec<Cell> = Vec::new();
    for i in 0..row.len()
        invariant
            r@.len() == i,
            forall|j: int| 0 <= j < i ==> (#[trigger] r@[j]).0@ == row@[j].0@,
    {
        r.push(Cell(vstd::slice::slice_to_vec(row[i].0.as_slice())));
    }
    assert(crate::viewport::row_bytes(r@) =~= crate::viewport::row_bytes(row@));
    r
}

/// A copy of a slice of a table.
fn copy_viewport(viewport: &Viewport) -> (r: Viewport)
    ensures
        r@ == viewport@,
{
    let mut rows: Vec<Vec<Cell>> = Vec::new();
    for i in 0..viewport.rows.len()
        invariant
            rows@.len() == i,
            forall|j: int|
                0 <= j < i ==> crate::viewport::row_bytes((#[trigger] rows@[j])@)
                    == crate::viewport::row_bytes(viewport.rows@[j]@),
    {
        rows.push(copy_row(&viewport.rows[i]));
    }
    let r = Viewport { rows };
    assert(r@ =~= viewport@);
    r
}

/// Rows of empty cells.
fn empty_rows(data_rows: &[u64], columns: &[ColumnId]) -> (r: Viewport)
    ensures
        r@ == empty_grid(data_rows@, columns@),
{
    let mut rows: Vec<Vec<Cell>> = Vec::new();
    for i in 0..data_rows.len()
        invariant
            rows@.len() == i,
            forall|j: int|
                0 <= j < i ==> crate::viewport::row_bytes((#[trigger] rows@[j])@)
                    == crate::table::empty_cells(columns@),
    {
        rows.push(empty_row(columns));
    }
    let r = Viewport { rows };
    assert(r@ =~= empty_grid(data_rows@, columns@));
    r
}

/// The place of a number in an ascending list, or the length of the list.
fn find(list: &[u64], x: u64) -> (r: usize)
    requires
        ascends(list@),
    ensures
        r == place_of(list@, x),
{
    for i in 0..list.len()
        invariant
            ascends(list@),
            forall|j: int| 0 <= j < i ==> #[trigger] list@[j] != x,
    {
        if list[i] == x {
            proof {
                assert(list@.contains(x));
                let k = list@.index_of(x);
                assert(0 <= k < list@.len() && list@[k] == x);
                assert(k == i);
            }
            return i;
        }
    }
    assert(!list@.contains(x));
    list.len()
}

/// What was read, row by row and column by column.
pub open spec fn read_bytes(read: Seq<Vec<Vec<u8>>>) -> Seq<Seq<Seq<u8>>> {
    read.map_values(|r: Vec<Vec<u8>>| crate::search::contents(r@))
}

/// Puts together the cells that a request asks for.
pub fn assemble(
    plan: &ReadPlan,
    read: &Vec<Vec<Vec<u8>>>,
    data_rows: &[u64],
    columns: &[ColumnId],
) -> (viewport: Viewport)
    requires
        ascends(plan.rows@),
        ascends(plan.roots@),
    ensures
        viewport@ == assembled(
            plan.rows@,
            plan.roots@,
            read_bytes(read@),
            data_rows@,
            columns@,
        ),
{
    let ghost all = read_bytes(read@);
    let mut rows: Vec<Vec<Cell>> = Vec::new();
    for i in 0..data_rows.len()
        invariant
            ascends(plan.rows@),
            ascends(plan.roots@),
            all == read_bytes(read@),
            rows@.len() == i,
            forall|j: int|
                0 <= j < i ==> crate::viewport::row_bytes((#[trigger] rows@[j])@)
                    == columns@.map_values(
                    |c: ColumnId| read_cell(plan.rows@, plan.roots@, all, data_rows@[j], c),
                ),
    {
        let r: usize = find(plan.rows.as_slice(), data_rows[i]);
        let mut cells: Vec<Cell> = Vec::new();
        for k in 0..columns.len()
            invariant
                ascends(plan.rows@),
                ascends(plan.roots@),
                all == read_bytes(read@),
                0 <= i < data_rows@.len(),
                r == place_of(plan.rows@, data_rows@[i as int]),
                cells@.len() == k,
                forall|j: int|
                    0 <= j < k ==> (#[trigger] cells@[j]).0@ == read_cell(
                        plan.rows@,
                        plan.roots@,
                        all,
                        data_rows@[i as int],
                        columns@[j],
                    ),
        {
            let c: usize = find(plan.roots.as_slice(), columns[k].0 as u64);
            let bytes: Vec<u8> = if r < plan.rows.len() && c < plan.roots.len() && r < read.len()
                && c < read[r].len() {
                vstd::slice::slice_to_vec(read[r][c].as_slice())
            } else {
                Vec::new()
            };
            proof {
                if r < read@.len() {
                    assert(all[r as int] == crate::search::contents(read@[r as int]@));
                }
                assert(bytes@ =~= read_cell(
                    plan.rows@,
                    plan.roots@,
                    all,
                    data_rows@[i as int],
                    columns@[k as int],
                ));
            }
            cells.push(Cell(bytes));
        }
        assert(crate::viewport::row_bytes(cells@) =~= columns@.map_values(
            |c: ColumnId| read_cell(plan.rows@, plan.roots@, all, data_rows@[i as int], c),
        ));
        rows.push(cells);
    }
    let viewport = Viewport { rows };
    assert(viewport@ =~= assembled(plan.rows@, plan.roots@, all, data_rows@, columns@));
    viewport
}

/// The last slice that was read.
struct CachedFetch {
    rows: Vec<u64>,
    columns: Vec<ColumnId>,
    viewport: Viewport,
}

/// A table over a Parquet file, apart from the file.
pub struct ParquetState {
    schema: Schema,
    field_count: usize,
    row_count: u64,
    view: ViewSlot,
    last: Option<CachedFetch>,
}

/// The last slice that was read: its rows, its columns and its cells.
pub struct CacheView {
    pub rows: Seq<u64>,
    pub columns: Seq<ColumnId>,
    pub cells: Seq<Seq<Seq<u8>>>,
}

impl ParquetState {
    /// The columns.
    pub closed spec fn columns(&self) -> Seq<Column> {
        self.schema.columns@
    }

    /// The number of columns of the file.
    pub closed spec fn fields(&self) -> usize {
        self.field_count
    }

    /// The number of rows of the file.
    pub closed spec fn total(&self) -> u64 {
        self.row_count
    }

    /// The active view.
    pub closed spec fn slot(&self) -> ViewSlot {
        self.view
    }

    /// The last slice that was read.
    pub closed spec fn cached(&self) -> Option<CacheView> {
        match self.last {
            Some(c) => Some(
                CacheView { rows: c.rows@, columns: c.columns@, cells: c.viewport@ },
            ),
            None => None,
        }
    }

    /// The number of rows of the active view.
    pub open spec fn rows(&self) -> RowCount {
        match self.slot().shown() {
            Some(shown) => RowCount::Exact(shown.len() as u64),
            None => RowCount::Exact(self.total()),
        }
    }

    /// A table over a file with the given columns and number of rows.
    pub fn new(fields: &[FieldInfo], row_count: u64) -> (r: ParquetState)
        ensures
            crate::table::column_views(r.columns()) == field_columns(fields@),
            r.fields() == fields@.len(),
            r.total() == row_count,
            r.slot().shown() is None,
            !r.slot().is_building(),
            r.slot().current() == 0,
            r.cached() is None,
    {
        ParquetState {
            schema: build_schema(fields),
            field_count: fields.len(),
            row_count,
            view: ViewSlot::new(),
            last: None,
        }
    }

    /// The columns.
    pub fn schema(&self) -> (schema: &Schema)
        ensures
            schema.columns@ == self.columns(),
    {
        &self.schema
    }

    /// The number of rows of the active view.
    pub fn row_count(&self) -> (count: RowCount)
        ensures
            count == self.rows(),
    {
        match self.view.len() {
            Some(n) => RowCount::Exact(n),
            None => RowCount::Exact(self.row_count),
        }
    }

    /// The number of rows of the file, whatever view is active.
    pub fn source_count(&self) -> (count: RowCount)
        ensures
            count == RowCount::Exact(self.total()),
    {
        RowCount::Exact(self.row_count)
    }

    /// What is known of the quality of the data: the rows of a file are never ragged.
    pub fn data_quality(&self) -> (quality: DataQuality)
        ensures
            quality == (DataQuality { ragged_rows: 0, complete: true }),
    {
        DataQuality { ragged_rows: 0, complete: true }
    }

    /// The rows of the file that a range of the active view shows.
    pub fn resolve(&self, range: RowRange) -> (r: Vec<u64>)
        ensures
            r@ == crate::view::resolved(self.slot().shown(), range),
    {
        self.view.resolve(range)
    }

    /// What is to be done for a request: nothing for no rows, for the slice that was read last, and
    /// where no row or no column is in the file; otherwise the rows and columns that are in the file
    /// are to be read, each once, in ascending order.
    pub fn plan(&self, data_rows: &[u64], columns: &[ColumnId]) -> (r: FetchPlan)
        ensures
            match r {
                FetchPlan::Done(viewport) => {
                    ||| data_rows@.len() == 0 && viewport@ == Seq::<Seq<Seq<u8>>>::empty()
                    ||| self.cached() == Some(
                        CacheView { rows: data_rows@, columns: columns@, cells: viewport@ },
                    )
                    ||| viewport@ == empty_grid(data_rows@, columns@) && (forall|i: int|
                        0 <= i < data_rows@.len() ==> #[trigger] data_rows@[i] >= self.total())
                    ||| viewport@ == empty_grid(data_rows@, columns@) && (forall|i: int|
                        0 <= i < columns@.len() ==> (#[trigger] columns@[i]).0 >= self.fields())
                },
                FetchPlan::Read(plan) => {
                    &&& plan.rows@.len() > 0
                    &&& plan.roots@.len() > 0
                    &&& is_ascending_set(plan.rows@, data_rows@, self.total() as int)
                    &&& is_ascending_set(
                        plan.roots@,
                        column_numbers(columns@),
                        self.fields() as int,
                    )
                    &&& self.cached() matches Some(c) ==> c.rows != data_rows@ || c.columns
                        != columns@
                },
            },
    {
        if data_rows.len() == 0 {
            let viewport = Viewport { rows: Vec::new() };
            assert(viewport@ =~= Seq::<Seq<Seq<u8>>>::empty());
            return FetchPlan::Done(viewport);
        }
        if let Some(cached) = &self.last {
            if same_rows(cached.rows.as_slice(), data_rows) && same_columns(
                cached.columns.as_slice(),
                columns,
            ) {
                return FetchPlan::Done(copy_viewport(&cached.viewport));
            }
        }
        let mut numbers: Vec<u64> = Vec::new();
        for i in 0..columns.len()
            invariant
                numbers@.len() == i,
                forall|j: int| 0 <= j < i ==> #[trigger] numbers@[j] == columns@[j].0 as u64,
        {
            numbers.push(columns[i].0 as u64);
        }
        assert(numbers@ =~= column_numbers(columns@));
        let roots = ascending_set(numbers.as_slice(), self.field_count as u64);
        if roots.len() == 0 {
            proof {
                assert forall|i: int| 0 <= i < columns@.len() implies (#[trigger] columns@[i]).0
                    >= self.fields() by {
                    assert(numbers@[i] == columns@[i].0 as u64);
                }
            }
            return FetchPlan::Done(empty_rows(data_rows, columns));
        }
        let rows = ascending_set(data_rows, self.row_count);
        if rows.len() == 0 {
            return FetchPlan::Done(empty_rows(data_rows, columns));
        }
        FetchPlan::Read(ReadPlan { roots, rows })
    }

    /// Keeps a slice, for the next request of the same rows and columns.
    pub fn keep(&mut self, data_rows: &[u64], columns: &[ColumnId], viewport: &Viewport)
        ensures
            final(self).cached() == Some(
                CacheView { rows: data_rows@, columns: columns@, cells: viewport@ },
            ),
            final(self).columns() == old(self).columns(),
            final(self).fields() == old(self).fields(),
            final(self).total() == old(self).total(),
            final(self).slot() == old(self).slot(),
    {
        self.last = Some(
            CachedFetch {
                rows: vstd::slice::slice_to_vec(data_rows),
                columns: vstd::slice::slice_to_vec(columns),
                viewport: copy_viewport(viewport),
            },
        );
    }

    /// Takes what was read for a request, puts it together, and keeps it for the same request.
    pub fn finish(
        &mut self,
        plan: &ReadPlan,
        read: &Vec<Vec<Vec<u8>>>,
        data_rows: &[u64],
        columns: &[ColumnId],
    ) -> (viewport: Viewport)
        requires
            ascends(plan.rows@),
            ascends(plan.roots@),
        ensures
            viewport@ == assembled(
                plan.rows@,
                plan.roots@,
                read_bytes(read@),
                data_rows@,
                columns@,
            ),
            final(self).cached() == Some(
                CacheView { rows: data_rows@, columns: columns@, cells: viewport@ },
            ),
            final(self).columns() == old(self).columns(),
            final(self).fields() == old(self).fields(),
            final(self).total() == old(self).total(),
            final(self).slot() == old(self).slot(),
    {
        let viewport = assemble(plan, read, data_rows, columns);
        self.keep(data_rows, columns, &viewport);
        viewport
    }

    /// Asks for a view.
    pub fn begin_view(&mut self, spec: &ViewSpec) -> (r: Result<Option<ViewJob>, Error>)
        ensures
            final(self).columns() == old(self).columns(),
            final(self).fields() == old(self).fields(),
            final(self).total() == old(self).total(),
            final(self).cached() == old(self).cached(),
            crate::view::planned(old(self).slot(), final(self).slot(), *spec, r),
    {
        self.view.plan(spec)
    }

    /// Ends a job, with the rows that it built or without any. A job that is not the last one
    /// changes nothing.
    pub fn finish_view(&mut self, id: u64, rows: Option<Vec<u64>>)
        ensures
            final(self).columns() == old(self).columns(),
            final(self).fields() == old(self).fields(),
            final(self).total() == old(self).total(),
            final(self).cached() == old(self).cached(),
            final(self).slot().current() == old(self).slot().current(),
            id != old(self).slot().current() ==> final(self).slot() == old(self).slot(),
            id == old(self).slot().current() ==> !final(self).slot().is_building(),
            id == old(self).slot().current() ==> final(self).slot().shown() == match rows {
                Some(r) => Some(r@),
                None => old(self).slot().shown(),
            },
    {
        self.view.finish(id, rows);
    }

    /// Returns to the order of the file.
    pub fn clear_view(&mut self)
        ensures
            final(self).columns() == old(self).columns(),
            final(self).fields() == old(self).fields(),
            final(self).total() == old(self).total(),
            final(self).cached() == old(self).cached(),
            final(self).slot().shown() is None,
            !final(self).slot().is_building(),
            final(self).slot().current() == crate::view::next_job(old(self).slot().current()),
    {
        self.view.clear();
    }

    /// How the work on a view stands.
    pub fn view_status(&self) -> (status: ViewStatus)
        ensures
            status.building == self.slot().is_building(),
    {
        ViewStatus { building: self.view.building() }
    }
}

/// The column whose fields are the keys, in what a scan reads.
pub open spec fn key_column(search: crate::view::Search, sort: SortKey) -> SortKey {
    if search is None {
        SortKey { column: ColumnId(0), direction: sort.direction }
    } else {
        sort
    }
}

/// A scan of a file for a view. Without a search, only the column by which rows are sorted is read.
pub struct ViewScan {
    matcher: Option<Matcher>,
    sort: Option<SortKey>,
    builder: ViewBuilder,
    count: u64,
    seen: Ghost<Seq<Seq<Seq<u8>>>>,
}

impl ViewScan {
    /// The search.
    pub closed spec fn search(&self) -> crate::view::Search {
        crate::view::search_of(self.matcher)
    }

    /// The sort.
    pub closed spec fn order(&self) -> Option<SortKey> {
        self.sort
    }

    /// What was read so far, row by row.
    pub closed spec fn read(&self) -> Seq<Seq<Seq<u8>>> {
        self.seen@
    }

    /// The sort by the column whose fields are the keys, in what is read.
    pub open spec fn key(&self) -> Option<SortKey> {
        match self.order() {
            Some(sort) => Some(key_column(self.search(), sort)),
            None => None,
        }
    }

    /// The invariant of the scan.
    pub closed spec fn wf(&self) -> bool {
        &&& self.count == self.seen@.len()
        &&& self.builder.order() == self.key()
        &&& self.builder.covers(self.seen@, self.search(), self.count as int)
    }

    /// Starts a scan.
    pub fn new(matcher: Option<Matcher>, sort: Option<SortKey>) -> (r: ViewScan)
        ensures
            r.wf(),
            r.search() == crate::view::search_of(matcher),
            r.order() == sort,
            r.read() == Seq::<Seq<Seq<u8>>>::empty(),
    {
        let key = match sort {
            Some(s) => if matcher.is_none() {
                Some(SortKey { column: ColumnId(0), direction: s.direction })
            } else {
                Some(s)
            },
            None => None,
        };
        let r = ViewScan {
            matcher,
            sort,
            builder: ViewBuilder::new(key),
            count: 0,
            seen: Ghost(Seq::empty()),
        };
        assert(r.builder.covers(r.seen@, r.search(), 0));
        r
    }

    /// How many rows were read so far.
    pub fn count(&self) -> (n: u64)
        requires
            self.wf(),
        ensures
            n == self.read().len(),
    {
        self.count
    }

    /// The one column that is to be read, or none where all of them are.
    pub fn only_column(&self) -> (r: Option<ColumnId>)
        ensures
            r is Some <==> self.search() is None && self.order() is Some,
            r matches Some(c) ==> c == (self.order()->0).column,
    {
        match self.sort {
            Some(s) => if self.matcher.is_none() {
                Some(s.column)
            } else {
                None
            },
            None => None,
        }
    }

    /// Takes the next row that was read.
    pub fn add_row(&mut self, fields: &Vec<Vec<u8>>)
        requires
            old(self).wf(),
            old(self).read().len() < u64::MAX,
        ensures
            final(self).wf(),
            final(self).search() == old(self).search(),
            final(self).order() == old(self).order(),
            final(self).read() == old(self).read().push(crate::search::contents(fields@)),
    {
        let ghost row = crate::search::contents(fields@);
        let ghost before = self.seen@;
        let ghost after = before.push(row);
        let ghost search = self.search();
        let ghost n = before.len() as int;
        let keep = match &self.matcher {
            Some(m) => m.matches_any(fields.as_slice()),
            None => true,
        };
        proof {
            lemma_kept_prefix(before, after, search, n);
            assert(after[n] == row);
        }
        let ghost taken = self.builder.taken();
        let ghost keys = self.builder.taken_keys();
        if keep {
            let at: usize = match self.sort {
                Some(s) => if self.matcher.is_none() {
                    0
                } else {
                    s.column.0 as usize
                },
                None => 0,
            };
            let key: Vec<u8> = if at < fields.len() {
                vstd::slice::slice_to_vec(fields[at].as_slice())
            } else {
                Vec::new()
            };
            self.builder.take(self.count, key);
            proof {
                if self.key() is Some {
                    let column = (self.key()->0).column;
                    assert(key@ =~= crate::view::cell_of(row, column));
                    assert(crate::view::keys_of(after, taken.push(n as u64), column)
                        =~= crate::view::keys_of(before, taken, column).push(key@)) by {
                        crate::view::lemma_kept(before, search, n);
                    }
                }
            }
        } else {
            proof {
                if self.key() is Some {
                    let column = (self.key()->0).column;
                    assert(crate::view::keys_of(after, taken, column) =~= crate::view::keys_of(
                        before,
                        taken,
                        column,
                    )) by {
                        crate::view::lemma_kept(before, search, n);
                    }
                }
            }
        }
        self.count = self.count + 1;
        self.seen = Ghost(after);
    }

    /// The rows that the view shows.
    pub fn finish(self) -> (shown: Vec<u64>)
        requires
            self.wf(),
        ensures
            crate::view::is_view(self.read(), self.search(), self.key(), shown@),
    {
        self.builder.finish()
    }
}

/// What is kept of the first rows does not depend on the rows behind them.
proof fn lemma_kept_prefix(
    a: Seq<Seq<Seq<u8>>>,
    b: Seq<Seq<Seq<u8>>>,
    search: crate::view::Search,
    n: int,
)
    requires
        n <= a.len(),
        n <= b.len(),
        forall|i: int| 0 <= i < n ==> a[i] == b[i],
    ensures
        crate::view::kept(a, search, n) == crate::view::kept(b, search, n),
    decreases n,
{
    if n > 0 {
        lemma_kept_prefix(a, b, search, n - 1);
    }
}

/// A scan that reads only the column by which rows are sorted finds the view of the whole table.
pub proof fn narrow_scan_finds_the_same_view(
    grid: Seq<Seq<Seq<u8>>>,
    sort: SortKey,
    shown: Seq<u64>,
)
    requires
        grid.len() <= u64::MAX,
        crate::view::is_view(
            grid.map_values(|row: Seq<Seq<u8>>| seq![crate::view::cell_of(row, sort.column)]),
            None,
            Some(key_column(None, sort)),
            shown,
        ),
    ensures
        crate::view::is_view(grid, None, Some(sort), shown),
{
    let narrow = grid.map_values(|row: Seq<Seq<u8>>| seq![crate::view::cell_of(row, sort.column)]);
    let n = grid.len() as int;
    lemma_keep_all(narrow, grid, n);
    let rows = crate::view::kept(grid, None, n);
    crate::view::lemma_kept(grid, None, n);
    assert(crate::view::keys_of(narrow, rows, ColumnId(0)) =~= crate::view::keys_of(
        grid,
        rows,
        sort.column,
    ));
}

/// Without a search, every row is kept.
proof fn lemma_keep_all(a: Seq<Seq<Seq<u8>>>, b: Seq<Seq<Seq<u8>>>, n: int)
    ensures
        crate::view::kept(a, None, n) == crate::view::kept(b, None, n),
    decreases n,
{
    if n > 0 {
        lemma_keep_all(a, b, n - 1);
    }
}

/// A column of a file looks like what its type is: truth values, whole numbers, numbers, where decimal
/// ones count from sixteen bytes on, or text.
pub proof fn types_are_shown_as_they_are(kind: FieldKind)
    ensures
        kind_type(kind) is Boolean <==> kind.boolean,
        kind_type(kind) is Integer <==> !kind.boolean && kind.integer,
        kind_type(kind) is Float <==> !kind.boolean && !kind.integer && (kind.floating || (
        kind.decimal && (kind.width == Some(16usize) || kind.width == Some(32usize)))),
        kind_type(kind) is Text <==> !kind.boolean && !kind.integer && !kind.floating && !(
        kind.decimal && (kind.width == Some(16usize) || kind.width == Some(32usize))),
{
}

/// A file has one column for each of its fields, in their order and under their names.
pub proof fn columns_are_the_fields(fields: Seq<FieldInfo>, i: int)
    ensures
        field_columns(fields).len() == fields.len(),
        0 <= i < fields.len() ==> field_columns(fields)[i].name == vstd::utf8::encode_utf8(
            fields[i].name@,
        ) && field_columns(fields)[i].inferred == kind_type(fields[i].kind),
        0 <= i < fields.len() <= u32::MAX ==> field_columns(fields)[i].id == i,
{
}

/// A list of selectors goes over the rows of a file from the first one on: those of a selection are
/// read, in order, and those that are passed over are not.
pub proof fn selectors_go_over_the_rows(selectors: Seq<Selector>, n: u64, i: int)
    ensures
        covered(Seq::empty()) == 0,
        selected(Seq::empty()).len() == 0,
        covered(selectors.push(Selector::Skip(n))) == covered(selectors) + n,
        covered(selectors.push(Selector::Select(n))) == covered(selectors) + n,
        selected(selectors.push(Selector::Skip(n))) == selected(selectors),
        ({
            let more = selected(selectors.push(Selector::Select(n)));
            &&& more.len() == selected(selectors).len() + n
            &&& more.take(selected(selectors).len() as int) == selected(selectors)
            &&& 0 <= i < n && 0 <= covered(selectors) + i <= u64::MAX ==> more[selected(
                selectors,
            ).len() + i] == covered(selectors) + i
        }),
{
    assert(selectors.push(Selector::Skip(n)).drop_last() =~= selectors);
    assert(selectors.push(Selector::Select(n)).drop_last() =~= selectors);
    let more = selected(selectors.push(Selector::Select(n)));
    assert(more.take(selected(selectors).len() as int) =~= selected(selectors));
}

/// The rows and columns that are read of a file are those that are asked for and that it has, each
/// once and in its order.
pub proof fn what_is_asked_for_is_read_once(numbers: Seq<u64>, limit: int, x: u64)
    ensures
        ascending(numbers, limit).contains(x) <==> numbers.contains(x) && x < limit,
        forall|i: int, j: int|
            0 <= i < j < ascending(numbers, limit).len() ==> #[trigger] ascending(numbers, limit)[i]
                < #[trigger] ascending(numbers, limit)[j],
{
    lemma_ascending_exists(numbers, limit);
    let list = ascending(numbers, limit);
    if list.contains(x) {
        let k = list.index_of(x);
        assert(list[k] == x);
    }
    if numbers.contains(x) && x < limit {
        let k = numbers.index_of(x);
        assert(numbers[k] == x);
    }
}

} // verus!
