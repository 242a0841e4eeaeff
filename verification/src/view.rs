//! Views: which rows of a table are shown, and in which order.
use vstd::prelude::*;
use crate::error::Error;
use crate::search::Matcher;
use crate::sort::{sorted_positions, Key};
use crate::viewport::{ColumnId, RowRange, SortKey, ViewSpec};

verus! {

/// A search, as far as a view depends on it: the texts, and whether to keep what does not match.
pub type Search = Option<(Set<Seq<u8>>, bool)>;

/// The search of a matcher.
pub open spec fn search_of(matcher: Option<Matcher>) -> Search {
    match matcher {
        Some(m) => Some((m.texts(), m.inverted())),
        None => None,
    }
}

/// Whether a search keeps a row.
pub open spec fn passes(search: Search, fields: Seq<Seq<u8>>) -> bool {
    match search {
        Some((texts, invert)) => crate::search::keeps(texts, invert, fields),
        None => true,
    }
}

/// The first `n` rows of a table that a search keeps.
pub open spec fn kept(grid: Seq<Seq<Seq<u8>>>, search: Search, n: int) -> Seq<u64>
    decreases n,
{
    if n <= 0 {
        Seq::empty()
    } else if passes(search, grid[n - 1]) {
        kept(grid, search, n - 1).push((n - 1) as u64)
    } else {
        kept(grid, search, n - 1)
    }
}

/// A cell of a row; a missing one is empty.
pub open spec fn cell_of(fields: Seq<Seq<u8>>, column: ColumnId) -> Seq<u8> {
    if column.0 < fields.len() {
        fields[column.0 as int]
    } else {
        Seq::empty()
    }
}

/// The keys by which rows are sorted.
pub open spec fn keys_of(grid: Seq<Seq<Seq<u8>>>, rows: Seq<u64>, column: ColumnId) -> Seq<Seq<u8>> {
    rows.map_values(|r: u64| cell_of(grid[r as int], column))
}

/// Whether rows are the given ones in the order of their keys: every one of them once, and in
/// order where the comparison orders the keys.
pub open spec fn is_sorted_view(
    rows: Seq<u64>,
    keys: Seq<Seq<u8>>,
    direction: crate::sort::Direction,
    shown: Seq<u64>,
) -> bool {
    exists|list: Seq<usize>| #[trigger]
        sorts(rows, keys, direction, shown, list)
}

/// Whether a list of positions turns rows into the shown ones.
pub open spec fn sorts(
    rows: Seq<u64>,
    keys: Seq<Seq<u8>>,
    direction: crate::sort::Direction,
    shown: Seq<u64>,
    list: Seq<usize>,
) -> bool {
    &&& list.to_multiset() == crate::sort::positions(0, rows.len() as int).to_multiset()
    &&& list.len() == rows.len()
    &&& forall|i: int| 0 <= i < list.len() ==> #[trigger] list[i] < rows.len()
    &&& shown == list.map_values(|p: usize| rows[p as int])
    &&& crate::sort::ordered(keys, direction) ==> crate::sort::is_sorted(keys, direction, list)
}

/// Whether rows are those that a search keeps of a table, in the order that a sort asks for.
pub open spec fn is_view(
    grid: Seq<Seq<Seq<u8>>>,
    search: Search,
    sort: Option<SortKey>,
    shown: Seq<u64>,
) -> bool {
    let rows = kept(grid, search, grid.len() as int);
    match sort {
        None => shown == rows,
        Some(key) => is_sorted_view(rows, keys_of(grid, rows, key.column), key.direction, shown),
    }
}

/// What is kept lies in the order of the table, within it, and passes the search; and whatever
/// passes the search is kept.
pub proof fn lemma_kept(grid: Seq<Seq<Seq<u8>>>, search: Search, n: int)
    requires
        0 <= n <= grid.len() <= u64::MAX,
    ensures
        forall|i: int|
            0 <= i < kept(grid, search, n).len() ==> (#[trigger] kept(grid, search, n)[i]) < n
                && passes(search, grid[kept(grid, search, n)[i] as int]),
        forall|i: int, j: int|
            0 <= i < j < kept(grid, search, n).len() ==> #[trigger] kept(grid, search, n)[i]
                < #[trigger] kept(grid, search, n)[j],
        forall|r: int|
            0 <= r < n && passes(search, #[trigger] grid[r]) ==> kept(grid, search, n).contains(
                r as u64,
            ),
        kept(grid, search, n).len() <= n,
    decreases n,
{
    if n > 0 {
        lemma_kept(grid, search, n - 1);
        let before = kept(grid, search, n - 1);
        let all = kept(grid, search, n);
        assert forall|r: int| 0 <= r < n && passes(search, #[trigger] grid[r]) implies all.contains(
            r as u64,
        ) by {
            if r == n - 1 {
                assert(all[all.len() - 1] == r as u64);
            } else {
                let k = before.index_of(r as u64);
                assert(before.contains(r as u64));
                assert(all[k] == r as u64);
            }
        }
    }
}

/// A view without a sort shows the rows that pass the search, in the order of the source.
pub proof fn unsorted_view_keeps_source_order(
    grid: Seq<Seq<Seq<u8>>>,
    search: Search,
    shown: Seq<u64>,
)
    requires
        grid.len() <= u64::MAX,
        is_view(grid, search, None, shown),
    ensures
        forall|i: int, j: int| 0 <= i < j < shown.len() ==> #[trigger] shown[i] < #[trigger] shown[j],
        forall|r: int|
            0 <= r < grid.len() ==> (shown.contains(r as u64) <==> passes(
                search,
                #[trigger] grid[r],
            )),
{
    lemma_kept(grid, search, grid.len() as int);
    assert forall|r: int| 0 <= r < grid.len() && shown.contains(r as u64) implies passes(
        search,
        #[trigger] grid[r],
    ) by {
        let k = shown.index_of(r as u64);
        assert(shown[k] == r as u64);
    }
}

/// A sorted view shows each row that passes the search exactly once, and no other.
pub proof fn sorted_view_is_a_permutation(
    grid: Seq<Seq<Seq<u8>>>,
    search: Search,
    sort: SortKey,
    shown: Seq<u64>,
)
    requires
        grid.len() <= usize::MAX,
        is_view(grid, search, Some(sort), shown),
    ensures
        shown.to_multiset() == kept(grid, search, grid.len() as int).to_multiset(),
        shown.no_duplicates(),
{
    let rows = kept(grid, search, grid.len() as int);
    lemma_kept(grid, search, grid.len() as int);
    let keys = keys_of(grid, rows, sort.column);
    let list = choose|list: Seq<usize>| #[trigger]
        sorts(rows, keys, sort.direction, shown, list);
    let all = crate::sort::positions(0, rows.len() as int);
    let pick = |p: usize| rows[p as int];
    lemma_map_multiset(list, all, pick);
    assert(all.map_values(pick) =~= rows);
    assert(rows.no_duplicates());
    rows.lemma_multiset_has_no_duplicates();
    shown.lemma_multiset_has_no_duplicates_conv();
}

/// Two lists with the same elements have the same images.
proof fn lemma_map_multiset(a: Seq<usize>, b: Seq<usize>, f: spec_fn(usize) -> u64)
    requires
        a.to_multiset() == b.to_multiset(),
    ensures
        a.map_values(f).to_multiset() == b.map_values(f).to_multiset(),
    decreases a.len(),
{
    broadcast use vstd::seq_lib::group_to_multiset_ensures;

    assert(a.len() == a.to_multiset().len());
    assert(b.len() == b.to_multiset().len());
    if a.len() == 0 {
        assert(a.map_values(f) =~= b.map_values(f));
    } else {
        let x = a.last();
        assert(a.contains(x));
        assert(b.to_multiset().count(x) > 0);
        assert(b.contains(x));
        let k = b.index_of(x);
        let rest = b.remove(k);
        assert(a =~= a.drop_last().push(x));
        assert(a.to_multiset() =~= a.drop_last().to_multiset().insert(x));
        vstd::seq_lib::to_multiset_remove(b, k);
        assert(a.drop_last().to_multiset() =~= rest.to_multiset());
        lemma_map_multiset(a.drop_last(), rest, f);
        assert(a.map_values(f) =~= a.drop_last().map_values(f).push(f(x)));
        let mb = b.map_values(f);
        vstd::seq_lib::to_multiset_remove(mb, k);
        assert(mb.remove(k) =~= rest.map_values(f));
        assert(mb[k] == f(x));
        assert(mb.contains(f(x)));
        assert(a.map_values(f).to_multiset() =~= mb.to_multiset());
    }
}

/// A view shows rows of the table, and no more of them than the table has.
pub proof fn views_show_rows_of_the_table(
    grid: Seq<Seq<Seq<u8>>>,
    search: Search,
    sort: Option<SortKey>,
    shown: Seq<u64>,
)
    requires
        grid.len() <= usize::MAX,
        is_view(grid, search, sort, shown),
    ensures
        shown.len() <= grid.len(),
        forall|i: int| 0 <= i < shown.len() ==> #[trigger] shown[i] < grid.len(),
{
    broadcast use vstd::seq_lib::group_to_multiset_ensures;

    let rows = kept(grid, search, grid.len() as int);
    lemma_kept(grid, search, grid.len() as int);
    if let Some(key) = sort {
        sorted_view_is_a_permutation(grid, search, key, shown);
        assert(shown.len() == shown.to_multiset().len());
        assert(rows.len() == rows.to_multiset().len());
        assert forall|i: int| 0 <= i < shown.len() implies #[trigger] shown[i] < grid.len() by {
            assert(shown.contains(shown[i]));
            assert(rows.to_multiset().count(shown[i]) > 0);
            assert(rows.contains(shown[i]));
        }
    }
}

/// In a sorted view, where the comparison orders the keys, no row comes before one whose key comes
/// first, and rows with equal keys stay in the order of the source.
pub proof fn sorted_view_is_in_order(
    grid: Seq<Seq<Seq<u8>>>,
    search: Search,
    sort: SortKey,
    shown: Seq<u64>,
    i: int,
    j: int,
)
    requires
        grid.len() <= usize::MAX,
        is_view(grid, search, Some(sort), shown),
        crate::sort::ordered(
            keys_of(grid, kept(grid, search, grid.len() as int), sort.column),
            sort.direction,
        ),
        0 <= i < j < shown.len(),
    ensures
        ({
            let a = cell_of(grid[shown[i] as int], sort.column);
            let b = cell_of(grid[shown[j] as int], sort.column);
            &&& !crate::sort::comes_before(b, a, sort.direction)
            &&& crate::sort::comes_before(a, b, sort.direction) || shown[i] < shown[j]
        }),
{
    let rows = kept(grid, search, grid.len() as int);
    lemma_kept(grid, search, grid.len() as int);
    let keys = keys_of(grid, rows, sort.column);
    let list = choose|list: Seq<usize>| #[trigger]
        sorts(rows, keys, sort.direction, shown, list);
    assert(crate::sort::in_order(keys, sort.direction, list[i], list[j]));
    assert(shown[i] == rows[list[i] as int] && shown[j] == rows[list[j] as int]);
}

/// The rows of a view while it is built.
pub struct ViewBuilder {
    sort: Option<SortKey>,
    rows: Vec<u64>,
    keys: Vec<Key>,
}

impl ViewBuilder {
    /// The rows so far.
    pub closed spec fn taken(&self) -> Seq<u64> {
        self.rows@
    }

    /// Their keys.
    pub closed spec fn taken_keys(&self) -> Seq<Seq<u8>> {
        crate::sort::key_bytes(self.keys@)
    }

    /// The sort that is asked for.
    pub closed spec fn order(&self) -> Option<SortKey> {
        self.sort
    }

    /// Whether the rows so far are those that the search keeps of the first `n` rows.
    pub open spec fn covers(&self, grid: Seq<Seq<Seq<u8>>>, search: Search, n: int) -> bool {
        &&& self.wf()
        &&& self.taken() == kept(grid, search, n)
        &&& self.order() matches Some(key) ==> self.taken_keys() == keys_of(
            grid,
            self.taken(),
            key.column,
        )
    }

    /// The invariant of the builder.
    pub closed spec fn wf(&self) -> bool {
        &&& self.sort is Some ==> self.keys@.len() == self.rows@.len()
        &&& forall|i: int| 0 <= i < self.keys@.len() ==> (#[trigger] self.keys@[i]).wf()
    }

    /// A view without rows.
    pub fn new(sort: Option<SortKey>) -> (r: ViewBuilder)
        ensures
            r.wf(),
            r.order() == sort,
            r.taken() == Seq::<u64>::empty(),
            forall|grid: Seq<Seq<Seq<u8>>>, search: Search| #[trigger] r.covers(grid, search, 0),
    {
        let r = ViewBuilder { sort, rows: Vec::new(), keys: Vec::new() };
        assert forall|grid: Seq<Seq<Seq<u8>>>, search: Search| #[trigger]
            r.covers(grid, search, 0) by {
            assert(r.taken() =~= kept(grid, search, 0));
            assert(sort is Some ==> r.taken_keys() =~= keys_of(
                grid,
                r.taken(),
                (sort->0).column,
            ));
        }
        r
    }

    /// Takes a row, with its key where rows are sorted.
    pub fn take(&mut self, row: u64, key: Vec<u8>)
        requires
            old(self).wf(),
        ensures
            final(self).wf(),
            final(self).order() == old(self).order(),
            final(self).taken() == old(self).taken().push(row),
            old(self).order() is Some ==> final(self).taken_keys() == old(self).taken_keys().push(
                key@,
            ),
    {
        self.rows.push(row);
        if self.sort.is_some() {
            let k = Key::new(key);
            self.keys.push(k);
            assert(self.taken_keys() =~= old(self).taken_keys().push(key@));
        }
    }

    /// The rows in the order that is asked for.
    pub fn finish(self) -> (shown: Vec<u64>)
        requires
            self.wf(),
        ensures
            match self.order() {
                None => shown@ == self.taken(),
                Some(key) => is_sorted_view(
                    self.taken(),
                    self.taken_keys(),
                    key.direction,
                    shown@,
                ),
            },
    {
        match self.sort {
            None => self.rows,
            Some(key) => {
                let list = sorted_positions(&self.keys, key.direction);
                let mut shown: Vec<u64> = Vec::new();
                for i in 0..list.len()
                    invariant
                        list@.len() == self.rows@.len(),
                        forall|k: int|
                            0 <= k < list@.len() ==> #[trigger] list@[k] < self.rows@.len(),
                        shown@ == list@.take(i as int).map_values(|p: usize| self.rows@[p as int]),
                {
                    shown.push(self.rows[list[i]]);
                    assert(shown@ =~= list@.take(i + 1).map_values(
                        |p: usize| self.rows@[p as int],
                    ));
                }
                proof {
                    assert(list@.take(list@.len() as int) =~= list@);
                    assert(sorts(
                        self.taken(),
                        self.taken_keys(),
                        key.direction,
                        shown@,
                        list@,
                    ));
                }
                shown
            },
        }
    }
}

/// A view to be built.
pub struct ViewJob {
    /// The number of the job.
    pub id: u64,
    /// Which rows to keep.
    pub matcher: Option<Matcher>,
    /// In which order.
    pub sort: Option<SortKey>,
}

/// The search that a view asks for, if it compiles.
pub open spec fn wanted(spec: ViewSpec) -> Search {
    match spec.filter {
        Some(filter) => match filter.texts() {
            Ok(texts) => Some((texts, filter.invert)),
            Err(_) => None,
        },
        None => None,
    }
}

/// Whether a view can be had: its search compiles.
pub open spec fn compiles(spec: ViewSpec) -> bool {
    spec.filter matches Some(filter) ==> filter.texts() is Ok
}

/// Whether a slot shows a view of a table.
pub open spec fn shows(slot: ViewSlot, grid: Seq<Seq<Seq<u8>>>, spec: ViewSpec) -> bool {
    &&& !slot.is_building()
    &&& if spec.filter is None && spec.sort is None {
        slot.shown() is None
    } else {
        slot.shown() matches Some(rows) && is_view(grid, wanted(spec), spec.sort, rows)
    }
}

/// What becomes of a request for a view: a search that does not compile is refused, and nothing
/// changes; everything in the order of the source is shown at once; otherwise there is a job to do,
/// earlier jobs are not wanted any more, and what was shown stays so until it is done.
pub open spec fn planned(
    before: ViewSlot,
    after: ViewSlot,
    spec: ViewSpec,
    r: Result<Option<ViewJob>, Error>,
) -> bool {
    match r {
        Err(e) => {
            &&& after == before
            &&& spec.filter matches Some(filter)
            &&& filter.texts() matches Err(message)
            &&& e matches Error::InvalidPattern(text)
            &&& text@ == message
        },
        Ok(None) => {
            &&& spec.filter is None
            &&& spec.sort is None
            &&& after.shown() is None
            &&& !after.is_building()
            &&& after.current() == next_job(before.current())
        },
        Ok(Some(job)) => {
            &&& compiles(spec)
            &&& spec.filter is Some || spec.sort is Some
            &&& search_of(job.matcher) == wanted(spec)
            &&& job.sort == spec.sort
            &&& after.shown() == before.shown()
            &&& after.is_building()
            &&& after.current() == job.id
            &&& job.id == next_job(before.current())
        },
    }
}

/// The number of the job after one: they are counted up, and start over after the last.
pub open spec fn next_job(job: u64) -> u64 {
    if job == u64::MAX {
        0
    } else {
        (job + 1) as u64
    }
}

/// The number that so many jobs and returns to the order of the source after one have led to.
pub open spec fn job_after(job: u64, steps: nat) -> u64
    decreases steps,
{
    if steps == 0 {
        job
    } else {
        next_job(job_after(job, (steps - 1) as nat))
    }
}

/// Whether slots are the states of one slot over time: from each to the next there was a new job or a
/// return to the order of the source, or the last job stayed the same.
pub open spec fn is_history(slots: Seq<ViewSlot>) -> bool {
    forall|i: int|
        0 < i < slots.len() ==> (#[trigger] slots[i]).current() == slots[i - 1].current()
            || slots[i].current() == next_job(slots[i - 1].current())
}

/// How many new jobs and returns to the order of the source there were over time.
pub open spec fn requests(slots: Seq<ViewSlot>) -> nat
    decreases slots.len(),
{
    if slots.len() <= 1 {
        0
    } else if slots.last().current() == slots[slots.len() - 2].current() {
        requests(slots.drop_last())
    } else {
        requests(slots.drop_last()) + 1
    }
}

/// What an earlier job builds is not wanted any more: once a new job has been asked for, or the order
/// of the source, the earlier job is not the last one again, short of as many requests as there are
/// numbers for jobs.
pub proof fn earlier_jobs_are_not_current(slots: Seq<ViewSlot>)
    requires
        is_history(slots),
        0 < requests(slots) <= u64::MAX,
    ensures
        slots.last().current() != slots[0].current(),
{
    lemma_history(slots);
    lemma_job_after(slots[0].current(), requests(slots));
}

proof fn lemma_history(slots: Seq<ViewSlot>)
    requires
        is_history(slots),
        slots.len() > 0,
    ensures
        slots.last().current() == job_after(slots[0].current(), requests(slots)),
    decreases slots.len(),
{
    if slots.len() > 1 {
        lemma_history(slots.drop_last());
        assert(slots[slots.len() - 1].current() == slots.last().current());
    }
}

proof fn lemma_job_after(job: u64, steps: nat)
    requires
        steps <= u64::MAX,
    ensures
        job_after(job, steps) == (if job + steps <= u64::MAX {
            job + steps
        } else {
            job + steps - u64::MAX - 1
        }),
    decreases steps,
{
    if steps > 0 {
        lemma_job_after(job, (steps - 1) as nat);
    }
}

/// The place of the active view in a table, and of the work on the next one.
pub struct ViewSlot {
    rows: Option<Vec<u64>>,
    building: bool,
    job: u64,
}

impl ViewSlot {
    /// The rows of the active view; nothing for the order of the source.
    pub closed spec fn shown(&self) -> Option<Seq<u64>> {
        match self.rows {
            Some(rows) => Some(rows@),
            None => None,
        }
    }

    /// Whether a view is being built.
    pub closed spec fn is_building(&self) -> bool {
        self.building
    }

    /// The number of the last job.
    pub closed spec fn current(&self) -> u64 {
        self.job
    }

    /// A table in the order of its source.
    pub fn new() -> (r: ViewSlot)
        ensures
            r.shown() is None,
            !r.is_building(),
            r.current() == 0,
    {
        ViewSlot { rows: None, building: false, job: 0 }
    }

    /// Starts to build a view. What an earlier job builds is not wanted any more.
    pub fn begin(&mut self) -> (job: u64)
        ensures
            job == next_job(old(self).current()),
            final(self).current() == job,
            final(self).shown() == old(self).shown(),
            final(self).is_building(),
    {
        self.job = self.job.wrapping_add(1);
        self.building = true;
        self.job
    }

    /// Returns to the order of the source. What an earlier job builds is not wanted any more.
    pub fn clear(&mut self)
        ensures
            final(self).current() == next_job(old(self).current()),
            final(self).shown() is None,
            !final(self).is_building(),
    {
        self.job = self.job.wrapping_add(1);
        self.rows = None;
        self.building = false;
    }

    /// Asks for a view.
    pub fn plan(&mut self, spec: &ViewSpec) -> (r: Result<Option<ViewJob>, Error>)
        ensures
            planned(*old(self), *final(self), *spec, r),
    {
        let matcher = match &spec.filter {
            Some(filter) => match Matcher::compile(filter) {
                Ok(m) => Some(m),
                Err(e) => return Err(e),
            },
            None => None,
        };
        if matcher.is_none() && spec.sort.is_none() {
            self.clear();
            return Ok(None);
        }
        let id: u64 = self.begin();
        Ok(Some(ViewJob { id, matcher, sort: spec.sort }))
    }

    /// Ends a job, with the rows that it built or without any. A job that is not the last one
    /// changes nothing: a view that was cleared or asked for anew does not come back.
    pub fn finish(&mut self, job: u64, rows: Option<Vec<u64>>)
        ensures
            final(self).current() == old(self).current(),
            job != old(self).current() ==> *final(self) == *old(self),
            job == old(self).current() ==> !final(self).is_building() && final(self).shown()
                == match rows {
                Some(r) => Some(r@),
                None => old(self).shown(),
            },
    {
        if job == self.job {
            self.building = false;
            if rows.is_some() {
                self.rows = rows;
            }
        }
    }

    /// Whether a view is being built.
    pub fn building(&self) -> (r: bool)
        ensures
            r == self.is_building(),
    {
        self.building
    }

    /// The number of rows of the active view.
    pub fn len(&self) -> (r: Option<u64>)
        ensures
            r is Some <==> self.shown() is Some,
            r matches Some(n) ==> n == self.shown()->0.len(),
    {
        match &self.rows {
            Some(rows) => Some(rows.len() as u64),
            None => None,
        }
    }

    /// The rows of the table that a range of the active view shows.
    pub fn resolve(&self, range: RowRange) -> (r: Vec<u64>)
        ensures
            r@ == resolved(self.shown(), range),
    {
        match &self.rows {
            Some(rows) => {
                let n: u64 = rows.len() as u64;
                if range.start >= n {
                    let r: Vec<u64> = Vec::new();
                    assert(r@ =~= resolved(self.shown(), range));
                    r
                } else {
                    let left: u64 = n - range.start;
                    let len: u64 = if (range.len as u64) < left {
                        range.len as u64
                    } else {
                        left
                    };
                    vstd::slice::slice_to_vec(
                        vstd::slice::slice_subrange(
                            rows.as_slice(),
                            range.start as usize,
                            (range.start + len) as usize,
                        ),
                    )
                }
            },
            None => contiguous_rows(range),
        }
    }
}

/// The end of a range of rows.
pub open spec fn range_end(range: RowRange) -> int {
    if range.start + range.len <= u64::MAX {
        range.start + range.len
    } else {
        u64::MAX as int
    }
}

/// The rows of a range.
pub open spec fn contiguous(range: RowRange) -> Seq<u64> {
    Seq::new((range_end(range) - range.start) as nat, |i: int| (range.start + i) as u64)
}

/// The rows of a table that a range of a view shows.
pub open spec fn resolved(view: Option<Seq<u64>>, range: RowRange) -> Seq<u64> {
    match view {
        None => contiguous(range),
        Some(rows) => if range.start >= rows.len() {
            Seq::empty()
        } else if range.start + range.len <= rows.len() {
            rows.subrange(range.start as int, range.start + range.len)
        } else {
            rows.skip(range.start as int)
        },
    }
}

/// The rows of a range.
pub fn contiguous_rows(range: RowRange) -> (r: Vec<u64>)
    ensures
        r@ == contiguous(range),
{
    let end: u64 = range.start.saturating_add(range.len as u64);
    let mut r: Vec<u64> = Vec::new();
    let mut row: u64 = range.start;
    while row < end
        invariant
            range.start <= row <= end,
            end == range_end(range),
            r@.len() == row - range.start,
            forall|i: int| 0 <= i < r@.len() ==> #[trigger] r@[i] == range.start + i,
        decreases end - row,
    {
        r.push(row);
        row += 1;
    }
    assert(r@ =~= contiguous(range));
    r
}

/// A view shows a row of the table exactly where the search keeps it, sorted or not: without a search
/// every row, and with one the rows of which some field matches, or none where it is inverted. It
/// shows no row twice.
pub proof fn views_show_what_the_search_keeps(
    grid: Seq<Seq<Seq<u8>>>,
    search: Search,
    sort: Option<SortKey>,
    shown: Seq<u64>,
    r: int,
)
    requires
        grid.len() <= usize::MAX,
        is_view(grid, search, sort, shown),
        0 <= r < grid.len(),
    ensures
        shown.no_duplicates(),
        search is None ==> shown.contains(r as u64),
        search matches Some((texts, false)) ==> (shown.contains(r as u64) <==> exists|i: int|
            0 <= i < grid[r].len() && texts.contains(#[trigger] grid[r][i])),
        search matches Some((texts, true)) ==> (shown.contains(r as u64) <==> forall|i: int|
            0 <= i < grid[r].len() ==> !texts.contains(#[trigger] grid[r][i])),
{
    broadcast use vstd::seq_lib::group_to_multiset_ensures;

    let rows = kept(grid, search, grid.len() as int);
    lemma_kept(grid, search, grid.len() as int);
    unsorted_view_keeps_source_order(grid, search, rows);
    if let Some(key) = sort {
        sorted_view_is_a_permutation(grid, search, key, shown);
        assert(shown.contains(r as u64) <==> shown.to_multiset().count(r as u64) > 0);
        assert(rows.contains(r as u64) <==> rows.to_multiset().count(r as u64) > 0);
    }
    assert(shown.contains(r as u64) <==> rows.contains(r as u64));
    assert(rows.contains(r as u64) <==> passes(search, grid[r]));
}

/// Whether a cell of a row holds the given bytes; a row with fewer cells has an empty one there.
pub open spec fn holds(fields: Seq<Seq<u8>>, column: ColumnId, cell: Seq<u8>) -> bool {
    if column.0 < fields.len() {
        cell == fields[column.0 as int]
    } else {
        cell.len() == 0
    }
}

/// A view that is sorted by a column shows no cell of it behind one that comes later, and level cells
/// in the order of the source, where the column holds nothing but numbers or nothing but texts that
/// are none.
pub proof fn sorted_column_is_in_order(
    grid: Seq<Seq<Seq<u8>>>,
    search: Search,
    sort: SortKey,
    shown: Seq<u64>,
    i: int,
    j: int,
    a: Seq<u8>,
    b: Seq<u8>,
)
    requires
        grid.len() <= usize::MAX,
        is_view(grid, search, Some(sort), shown),
        0 <= i < j < shown.len(),
        holds(grid[shown[i] as int], sort.column, a),
        holds(grid[shown[j] as int], sort.column, b),
        (forall|r: int, cell: Seq<u8>|
            #![trigger holds(grid[r], sort.column, cell)]
            0 <= r < grid.len() && holds(grid[r], sort.column, cell) ==> (crate::text::field_text(
                cell,
            ) matches Some(text) && (crate::number::numeral(text) matches Some(number) && !(
            number is Undefined)))) || (forall|r: int, cell: Seq<u8>|
            #![trigger holds(grid[r], sort.column, cell)]
            0 <= r < grid.len() && holds(grid[r], sort.column, cell) ==> !(crate::text::field_text(
                cell,
            ) matches Some(text) && crate::number::numeral(text) is Some)),
    ensures
        !crate::sort::comes_before(b, a, sort.direction),
        crate::sort::comes_before(a, b, sort.direction) || shown[i] < shown[j],
{
    let rows = kept(grid, search, grid.len() as int);
    lemma_kept(grid, search, grid.len() as int);
    views_show_rows_of_the_table(grid, search, Some(sort), shown);
    let keys = keys_of(grid, rows, sort.column);
    assert forall|k: int| 0 <= k < keys.len() implies holds(
        grid[rows[k] as int],
        sort.column,
        #[trigger] keys[k],
    ) by {}
    if forall|r: int, cell: Seq<u8>|
        #![trigger holds(grid[r], sort.column, cell)]
        0 <= r < grid.len() && holds(grid[r], sort.column, cell) ==> (crate::text::field_text(
            cell,
        ) matches Some(text) && (crate::number::numeral(text) matches Some(number) && !(
        number is Undefined))) {
        crate::sort::numbers_are_ordered(keys, sort.direction);
    } else {
        crate::sort::texts_are_ordered(keys, sort.direction);
    }
    sorted_view_is_in_order(grid, search, sort, shown, i, j);
    assert(a =~= cell_of(grid[shown[i] as int], sort.column));
    assert(b =~= cell_of(grid[shown[j] as int], sort.column));
}

/// A column of whole numbers is sorted by their values: ascending no number stands behind a larger
/// one, descending none behind a smaller one.
pub proof fn whole_numbers_are_sorted_by_value(
    grid: Seq<Seq<Seq<u8>>>,
    search: Search,
    sort: SortKey,
    shown: Seq<u64>,
    values: Seq<int>,
    i: int,
    j: int,
)
    requires
        grid.len() <= usize::MAX,
        is_view(grid, search, Some(sort), shown),
        0 <= i < j < shown.len(),
        values.len() == grid.len(),
        forall|r: int|
            0 <= r < grid.len() ==> -0x20_0000_0000_0000 <= #[trigger] values[r]
                <= 0x20_0000_0000_0000 && sort.column.0 < grid[r].len() && crate::sort::writes(
                grid[r][sort.column.0 as int],
                values[r],
                1,
            ),
    ensures
        sort.direction is Ascending ==> values[shown[i] as int] <= values[shown[j] as int],
        sort.direction is Descending ==> values[shown[i] as int] >= values[shown[j] as int],
        values[shown[i] as int] == values[shown[j] as int] ==> shown[i] < shown[j],
{
    views_show_rows_of_the_table(grid, search, Some(sort), shown);
    let x = values[shown[i] as int];
    let y = values[shown[j] as int];
    let a = grid[shown[i] as int][sort.column.0 as int];
    let b = grid[shown[j] as int][sort.column.0 as int];
    assert forall|r: int, cell: Seq<u8>|
        #![trigger holds(grid[r], sort.column, cell)]
        0 <= r < grid.len() && holds(grid[r], sort.column, cell) implies (crate::text::field_text(
        cell,
    ) matches Some(text) && (crate::number::numeral(text) matches Some(number) && !(
    number is Undefined))) by {
        assert(crate::sort::writes(cell, values[r], 1));
    }
    assert(holds(grid[shown[i] as int], sort.column, a));
    assert(holds(grid[shown[j] as int], sort.column, b));
    sorted_column_is_in_order(grid, search, sort, shown, i, j, a, b);
    crate::sort::whole_numbers_come_in_their_order(a, b, x, y);
    crate::sort::whole_numbers_come_in_their_order(b, a, y, x);
}

/// What a range of a view shows at a place is the row at that place of the view, counted from the
/// start of the range; without a view it is the row of the source. It ends with the view.
pub proof fn ranges_show_the_rows_in_their_places(view: Option<Seq<u64>>, range: RowRange, k: int)
    requires
        0 <= k,
        range.start + range.len <= u64::MAX,
    ensures
        view matches Some(rows) ==> {
            &&& k < resolved(view, range).len() <==> k < range.len && range.start + k < rows.len()
            &&& k < resolved(view, range).len() ==> resolved(view, range)[k] == rows[range.start + k]
        },
        view is None ==> {
            &&& k < resolved(view, range).len() <==> k < range.len
            &&& k < resolved(view, range).len() ==> resolved(view, range)[k] == range.start + k
        },
{
}

/// What is asked for is what is shown: a filter with its own texts and its own inversion, and none
/// where there is no filter.
pub proof fn views_are_those_that_were_asked_for(
    slot: ViewSlot,
    grid: Seq<Seq<Seq<u8>>>,
    spec: ViewSpec,
    r: int,
)
    requires
        grid.len() <= usize::MAX,
        shows(slot, grid, spec),
        compiles(spec),
        0 <= r < grid.len(),
        spec.filter is Some || spec.sort is Some,
    ensures
        slot.shown() is Some,
        spec.filter is None ==> (slot.shown()->0).contains(r as u64),
        spec.filter matches Some(filter) ==> (filter.texts() matches Ok(texts) && ((
        slot.shown()->0).contains(r as u64) <==> (exists|i: int|
            0 <= i < grid[r].len() && texts.contains(#[trigger] grid[r][i])) != filter.invert)),
{
    views_show_what_the_search_keeps(grid, wanted(spec), spec.sort, slot.shown()->0, r);
}

/// A request for a view is refused exactly where its search does not compile; nothing is to be built
/// exactly where neither a search nor a sort is asked for; and otherwise the job has the search and the
/// sort that were asked for, and what was shown stays until it is done.
pub proof fn jobs_are_what_was_asked_for(
    before: ViewSlot,
    after: ViewSlot,
    spec: ViewSpec,
    r: Result<Option<ViewJob>, Error>,
)
    requires
        planned(before, after, spec, r),
    ensures
        r is Err <==> (spec.filter matches Some(filter) && filter.texts() is Err),
        r is Err ==> after == before,
        r matches Ok(None) ==> spec.filter is None && spec.sort is None && after.shown() is None,
        spec.filter is None && spec.sort is None ==> r == Ok::<Option<ViewJob>, Error>(None),
        r matches Ok(Some(job)) ==> {
            &&& job.sort == spec.sort
            &&& spec.filter is None ==> job.matcher is None
            &&& spec.filter matches Some(filter) ==> (job.matcher matches Some(m) && filter.texts()
                == Ok::<Set<Seq<u8>>, Seq<char>>(m.texts()) && m.inverted() == filter.invert)
            &&& after.shown() == before.shown()
            &&& after.is_building()
            &&& after.current() == job.id
            &&& job.id != before.current()
        },
{
}

/// A job that is done shows what was asked for: where its rows are those that its search keeps, in the
/// order of its sort, and they are put into the slot, the slot shows the view.
pub proof fn finished_jobs_show_the_view(
    before: ViewSlot,
    after: ViewSlot,
    spec: ViewSpec,
    job: ViewJob,
    grid: Seq<Seq<Seq<u8>>>,
    rows: Seq<u64>,
    done: ViewSlot,
)
    requires
        planned(before, after, spec, Ok(Some(job))),
        is_view(grid, search_of(job.matcher), job.sort, rows),
        done.shown() == Some(rows),
        !done.is_building(),
    ensures
        shows(done, grid, spec),
{
}

/// A view can be had exactly where it has no search or one that compiles; where neither a search nor a
/// sort is asked for, the source is shown as it is.
pub proof fn plain_views_show_the_source(slot: ViewSlot, grid: Seq<Seq<Seq<u8>>>, spec: ViewSpec)
    ensures
        compiles(spec) <==> !(spec.filter matches Some(filter) && filter.texts() is Err),
        shows(slot, grid, spec) && spec.filter is None && spec.sort is None ==> slot.shown() is None,
        shows(slot, grid, spec) ==> !slot.is_building(),
{
}

} // verus!
