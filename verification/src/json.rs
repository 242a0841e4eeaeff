//! Tables over JSON: one value on each line, or the elements of one array.
//!
//! The columns are the top-level keys of the objects, in the order in which they first occur, or one
//! column of values where there are no objects. Cells hold what is shown of a value.
use vstd::prelude::*;
#[allow(unused_imports)]
use vstd::string::StringSliceAdditionalSpecFns;
use crate::cancel::{is_stopped, CancellationToken};
use crate::error::Error;
use crate::index::{Progress, ANCHOR_INTERVAL, REPORT_INTERVAL};
use crate::json_scan::{space, JsonMode, Records, Span};
use crate::json_value::{
    parse_record, render_column, JsonRecord, JsonValue, RecordView, TypeAcc, ValueView,
};
use crate::search::Matcher;
use crate::table::ColumnView;
use crate::view::{contiguous_rows, ViewBuilder, ViewJob, ViewSlot};
use crate::viewport::{
    Cell, Column, ColumnId, DataQuality, InferredType, RowCount, RowRange, Schema, SortKey, ViewSpec,
    ViewStatus, Viewport, ViewportRequest, ViewportSource,
};

verus! {

/// What the head of a source looks like.
pub enum Shape {
    /// An array.
    Array,
    /// An object, with the first line from where it begins.
    Object { start: usize, end: usize },
    /// No JSON.
    Other,
}

/// The first byte from `i` on that is not white space, or the end.
pub open spec fn first_solid(bytes: Seq<u8>, i: int) -> int
    decreases bytes.len() - i,
{
    if i < 0 || i >= bytes.len() {
        bytes.len() as int
    } else if !crate::json_scan::is_space(bytes[i]) {
        i
    } else {
        first_solid(bytes, i + 1)
    }
}

/// Whether a byte can begin a JSON value.
pub open spec fn begins_value(b: u8) -> bool {
    b == 0x7b || b == 0x5b || b == 0x22 || b == 0x2d || 0x30 <= b <= 0x39 || b == 0x74 || b == 0x66
        || b == 0x6e
}

/// What the head of a source looks like, behind a byte order mark. An array begins with a bracket,
/// behind which there is a value, the end of the array, or nothing yet.
pub open spec fn shape_of(head: Seq<u8>) -> Shape {
    let first = first_solid(head, crate::records::mark_len(head));
    if first >= head.len() {
        Shape::Other
    } else if head[first] == 0x5b {
        let second = first_solid(head, first + 1);
        if second >= head.len() || begins_value(head[second]) || head[second] == 0x5d {
            Shape::Array
        } else {
            Shape::Other
        }
    } else if head[first] == 0x7b {
        Shape::Object {
            start: first as usize,
            end: crate::json_scan::line_end(head, first) as usize,
        }
    } else {
        Shape::Other
    }
}

/// How the head of a source is laid out, if it is JSON: one value on each line only where the first
/// line is a whole value.
pub open spec fn layout_of(head: Seq<u8>) -> Option<JsonMode> {
    match shape_of(head) {
        Shape::Array => Some(JsonMode::Array),
        Shape::Object { start, end } => if crate::json_value::json_record(
            head.subrange(start as int, end as int),
        ) is Some {
            Some(JsonMode::Lines)
        } else {
            None
        },
        Shape::Other => None,
    }
}

proof fn lemma_first_solid(bytes: Seq<u8>, i: int)
    requires
        0 <= i <= bytes.len(),
    ensures
        i <= first_solid(bytes, i) <= bytes.len(),
    decreases bytes.len() - i,
{
    if i < bytes.len() && crate::json_scan::is_space(bytes[i]) {
        lemma_first_solid(bytes, i + 1);
    }
}

/// The first byte from `from` on that is not white space, or the end.
fn skip_space(bytes: &[u8], from: usize) -> (r: usize)
    requires
        from <= bytes@.len(),
    ensures
        r == first_solid(bytes@, from as int),
        from <= r <= bytes@.len(),
{
    let mut i: usize = from;
    while i < bytes.len() && space(bytes[i])
        invariant
            from <= i <= bytes@.len(),
            first_solid(bytes@, from as int) == first_solid(bytes@, i as int),
        decreases bytes@.len() - i,
    {
        i += 1;
    }
    i
}

/// Whether a byte can begin a JSON value.
pub fn is_value_start(b: u8) -> (r: bool)
    ensures
        r == begins_value(b),
{
    b == 0x7b || b == 0x5b || b == 0x22 || b == 0x2d || (0x30 <= b && b <= 0x39) || b == 0x74 || b
        == 0x66 || b == 0x6e
}

/// The length of a byte order mark at the start.
pub fn bom_len(bytes: &[u8]) -> (n: usize)
    ensures
        n == crate::records::mark_len(bytes@),
        n <= bytes@.len(),
{
    if bytes.len() >= 3 && bytes[0] == 0xef && bytes[1] == 0xbb && bytes[2] == 0xbf {
        3
    } else {
        0
    }
}

/// Where the line at `from` ends.
fn find_line_end(bytes: &[u8], from: usize) -> (r: usize)
    requires
        from <= bytes@.len(),
    ensures
        r == crate::json_scan::line_end(bytes@, from as int),
        from <= r <= bytes@.len(),
{
    let mut i: usize = from;
    while i < bytes.len() && bytes[i] != 0x0a
        invariant
            from <= i <= bytes@.len(),
            crate::json_scan::line_end(bytes@, from as int) == crate::json_scan::line_end(
                bytes@,
                i as int,
            ),
        decreases bytes@.len() - i,
    {
        i += 1;
    }
    i
}

/// What the head of a source looks like.
pub fn shape(head: &[u8]) -> (r: Shape)
    ensures
        r == shape_of(head@),
        r matches Shape::Object { start, end } ==> start <= end <= head@.len(),
{
    let first: usize = skip_space(head, bom_len(head));
    if first >= head.len() {
        return Shape::Other;
    }
    if head[first] == 0x5b {
        let second: usize = skip_space(head, first + 1);
        if second >= head.len() || is_value_start(head[second]) || head[second] == 0x5d {
            Shape::Array
        } else {
            Shape::Other
        }
    } else if head[first] == 0x7b {
        Shape::Object { start: first, end: find_line_end(head, first) }
    } else {
        Shape::Other
    }
}

/// How the head of a source is laid out; nothing where it is not JSON.
pub fn sniff(head: &[u8]) -> (r: Option<JsonMode>)
    ensures
        r == layout_of(head@),
{
    match shape(head) {
        Shape::Array => Some(JsonMode::Array),
        Shape::Object { start, end } => {
            if parse_record(vstd::slice::slice_subrange(head, start, end)).is_some() {
                Some(JsonMode::Lines)
            } else {
                None
            }
        },
        Shape::Other => None,
    }
}

/// How the records of a source with the given layout are found.
pub open spec fn records_with(bytes: Seq<u8>, layout: Option<JsonMode>) -> Records {
    let from = crate::records::mark_len(bytes);
    match layout {
        Some(JsonMode::Array) => Records {
            mode: JsonMode::Array,
            body_start: (first_solid(bytes, from) + 1) as usize,
        },
        _ => Records { mode: JsonMode::Lines, body_start: from as usize },
    }
}

/// How the records of a source with the given layout are found: behind the opening bracket of an
/// array, and from the first line on otherwise.
pub fn records_in(bytes: &[u8], layout: Option<JsonMode>) -> (r: Records)
    requires
        layout == Some(JsonMode::Array) ==> shape_of(bytes@) is Array,
    ensures
        r == records_with(bytes@, layout),
        r.body_start <= bytes@.len(),
{
    let from: usize = bom_len(bytes);
    let size: usize = bytes.len();
    match layout {
        Some(JsonMode::Array) => {
            let first: usize = skip_space(bytes, from);
            assert(first < size);
            Records { mode: JsonMode::Array, body_start: first + 1 }
        },
        _ => Records { mode: JsonMode::Lines, body_start: from },
    }
}

/// How the records of a source are found.
pub open spec fn records_of(bytes: Seq<u8>) -> Records {
    records_with(bytes, layout_of(bytes))
}

/// How the records of a source are found.
pub fn detect(bytes: &[u8]) -> (r: Records)
    ensures
        r == records_of(bytes@),
        r.body_start <= bytes@.len(),
{
    let layout = sniff(bytes);
    records_in(bytes, layout)
}

/// Whether a head holds what tells its layout: the first byte behind an opening bracket that is not
/// white space, or the end of the first line.
pub open spec fn telling(head: Seq<u8>) -> bool {
    let first = first_solid(head, crate::records::mark_len(head));
    if first < head.len() && head[first] == 0x5b {
        first_solid(head, first + 1) < head.len()
    } else {
        crate::json_scan::line_end(head, first) < head.len()
    }
}

proof fn lemma_solid_in_head(bytes: Seq<u8>, n: int, i: int)
    requires
        0 <= i <= n <= bytes.len(),
        first_solid(bytes.take(n), i) < n,
    ensures
        first_solid(bytes, i) == first_solid(bytes.take(n), i),
    decreases n - i,
{
    if i < n && crate::json_scan::is_space(bytes[i]) {
        lemma_solid_in_head(bytes, n, i + 1);
    }
}

proof fn lemma_line_in_head(bytes: Seq<u8>, n: int, i: int)
    requires
        0 <= i <= n <= bytes.len(),
        crate::json_scan::line_end(bytes.take(n), i) < n,
    ensures
        crate::json_scan::line_end(bytes, i) == crate::json_scan::line_end(bytes.take(n), i),
        i <= crate::json_scan::line_end(bytes, i),
    decreases n - i,
{
    if i < n && bytes[i] != 0x0a {
        lemma_line_in_head(bytes, n, i + 1);
    }
}

/// A source that is taken for JSON by its head is read in the layout that the head shows, as long as
/// the head is the whole source or holds what tells the layout.
pub proof fn reader_agrees_with_routing(bytes: Seq<u8>, n: int)
    requires
        bytes.len() <= usize::MAX,
        0 <= n <= bytes.len(),
        layout_of(bytes.take(n)) is Some,
        n == bytes.len() || telling(bytes.take(n)),
    ensures
        layout_of(bytes) == layout_of(bytes.take(n)),
        layout_of(bytes) == Some(records_of(bytes).mode),
{
    let head = bytes.take(n);
    if n == bytes.len() {
        assert(head =~= bytes);
    } else {
        let from = crate::records::mark_len(head);
        let first = first_solid(head, from);
        assert(crate::records::mark_len(bytes) == from) by {
            if head.len() < 3 && crate::records::has_mark(bytes) {
                assert(head[0] == 0xef);
                assert(!crate::json_scan::is_space(0xef));
            }
        }
        lemma_first_solid(head, from);
        lemma_solid_in_head(bytes, n, from);
        if head[first] == 0x5b {
            lemma_solid_in_head(bytes, n, first + 1);
            lemma_first_solid(head, first + 1);
            assert(shape_of(bytes) is Array);
        } else {
            lemma_line_in_head(bytes, n, first);
            let end = crate::json_scan::line_end(head, first);
            assert(shape_of(bytes) == shape_of(head));
            assert(head.subrange(first, end) =~= bytes.subrange(first, end));
        }
    }
}

/// The contents of an index of records.
pub struct RecordIndexView {
    pub anchors: Seq<u64>,
    pub row_count: u64,
}

/// The kept offsets of the first `n` records.
pub open spec fn anchors_of(spans: Seq<Span>, n: int) -> Seq<u64> {
    Seq::new(
        ((n + ANCHOR_INTERVAL - 1) / ANCHOR_INTERVAL as int) as nat,
        |k: int| spans[k * ANCHOR_INTERVAL].start as u64,
    )
}

/// The index over a source.
pub open spec fn record_index_over(bytes: Seq<u8>, records: Records) -> RecordIndexView {
    let spans = records.spans(bytes);
    RecordIndexView {
        anchors: anchors_of(spans, spans.len() as int),
        row_count: spans.len() as u64,
    }
}

/// What is reported while the index over a source is built: one report for every 4096 records, and
/// one for the whole source.
pub open spec fn record_reports(bytes: Seq<u8>, records: Records) -> Seq<Progress> {
    let spans = records.spans(bytes);
    let whole = spans.len() as int / REPORT_INTERVAL as int;
    Seq::new(
        (whole + 1) as nat,
        |k: int|
            if k < whole {
                Progress {
                    bytes_processed: spans[(k + 1) * REPORT_INTERVAL - 1].next as u64,
                    rows_indexed: ((k + 1) * REPORT_INTERVAL) as u64,
                }
            } else {
                Progress {
                    bytes_processed: bytes.len() as u64,
                    rows_indexed: spans.len() as u64,
                }
            },
    )
}

/// Reports never go back, and the last one has the totals.
pub proof fn record_reports_never_decrease(bytes: Seq<u8>, records: Records, i: int, j: int)
    requires
        bytes.len() <= u64::MAX,
        0 <= i <= j < record_reports(bytes, records).len(),
    ensures
        record_reports(bytes, records)[i].bytes_processed <= record_reports(
            bytes,
            records,
        )[j].bytes_processed,
        record_reports(bytes, records)[i].rows_indexed <= record_reports(
            bytes,
            records,
        )[j].rows_indexed,
        record_reports(bytes, records).last() == (Progress {
            bytes_processed: bytes.len() as u64,
            rows_indexed: records.spans(bytes).len() as u64,
        }),
{
    let spans = records.spans(bytes);
    crate::json_scan::lemma_spans(records.mode, bytes, records.body_start as int);
    let whole = spans.len() as int / REPORT_INTERVAL as int;
    if i < whole {
        let a = (i + 1) * REPORT_INTERVAL - 1;
        assert(spans[a].next <= bytes.len());
        if j < whole {
            let b = (j + 1) * REPORT_INTERVAL - 1;
            assert(0 <= a <= b < spans.len());
            if a < b {
                assert(spans[a].next <= spans[b].start);
            }
            assert(spans[b].next <= bytes.len());
        }
    }
}

impl RecordIndexView {
    /// Where the index finds a record of a source: by going through the records from the kept
    /// offset before it on.
    pub open spec fn located(self, bytes: Seq<u8>, mode: JsonMode, row: int) -> Option<int> {
        let k = row / ANCHOR_INTERVAL as int;
        if row < 0 || row >= self.row_count || k >= self.anchors.len() {
            None
        } else {
            let spans = crate::json_scan::spans_from(mode, bytes, self.anchors[k] as int);
            let skip = row % ANCHOR_INTERVAL as int;
            if skip < spans.len() {
                Some(spans[skip].start)
            } else {
                None
            }
        }
    }
}

/// An index over a source finds every record of the source, and nothing behind the last one.
pub proof fn record_index_finds_records(bytes: Seq<u8>, records: Records, row: int)
    requires
        bytes.len() <= u64::MAX,
        0 <= row,
    ensures
        record_index_over(bytes, records).located(bytes, records.mode, row) == if row
            < records.spans(bytes).len() {
            Some(records.spans(bytes)[row].start)
        } else {
            None
        },
{
    let spans = records.spans(bytes);
    crate::json_scan::lemma_spans(records.mode, bytes, records.body_start as int);
    if row < spans.len() {
        let k = row / ANCHOR_INTERVAL as int;
        let skip = row % ANCHOR_INTERVAL as int;
        let anchor = k * ANCHOR_INTERVAL;
        assert(anchor + skip == row);
        assert(k < anchors_of(spans, spans.len() as int).len());
        assert(spans[anchor].start <= bytes.len());
        assert(spans.skip(anchor) == crate::json_scan::spans_from(
            records.mode,
            bytes,
            spans[anchor].start,
        ));
        assert(spans.skip(anchor)[skip] == spans[row]);
    }
}

/// An index from records to the bytes at which they begin.
pub struct RecordIndex {
    anchors: Vec<u64>,
    row_count: u64,
}

impl View for RecordIndex {
    type V = RecordIndexView;

    closed spec fn view(&self) -> RecordIndexView {
        RecordIndexView { anchors: self.anchors@, row_count: self.row_count }
    }
}

/// The index of a JSON source while it is built.
pub struct RecordIndexBuilder<'a> {
    bytes: &'a [u8],
    records: Records,
    pos: usize,
    anchors: Vec<u64>,
    row_count: u64,
    done: bool,
}

impl<'a> RecordIndexBuilder<'a> {
    /// The source.
    pub closed spec fn source(&self) -> Seq<u8> {
        self.bytes@
    }

    /// How its records are found.
    pub closed spec fn layout(&self) -> Records {
        self.records
    }

    /// Whether the whole source was gone through.
    pub closed spec fn complete(&self) -> bool {
        self.done
    }

    /// The number of reports so far.
    pub closed spec fn reported(&self) -> int {
        self.row_count as int / REPORT_INTERVAL as int + if self.done {
            1int
        } else {
            0
        }
    }

    spec fn spans(&self) -> Seq<Span> {
        self.records.spans(self.bytes@)
    }

    spec fn counts(&self) -> bool {
        let n = self.row_count as int;
        &&& n <= self.spans().len() <= self.bytes@.len()
        &&& self.anchors@ == anchors_of(self.spans(), n)
        &&& self.spans().skip(n) == crate::json_scan::spans_from(
            self.records.mode,
            self.bytes@,
            self.pos as int,
        )
        &&& n > 0 ==> self.pos == self.spans()[n - 1].next
    }

    /// The invariant of the builder.
    pub closed spec fn wf(&self) -> bool {
        &&& self.counts()
        &&& if self.done {
            self.row_count == self.spans().len()
        } else {
            self.row_count as int % REPORT_INTERVAL as int == 0
        }
    }

    /// Starts to build the index over a source.
    pub fn new(bytes: &'a [u8], records: Records) -> (r: RecordIndexBuilder<'a>)
        ensures
            r.wf(),
            r.source() == bytes@,
            r.layout() == records,
            r.reported() == 0,
            !r.complete(),
    {
        let r = RecordIndexBuilder {
            bytes,
            records,
            pos: records.body_start,
            anchors: Vec::new(),
            row_count: 0,
            done: false,
        };
        proof {
            crate::json_scan::lemma_spans(records.mode, bytes@, records.body_start as int);
            assert(r.anchors@ =~= anchors_of(r.spans(), 0));
            assert(r.spans().skip(0) =~= r.spans());
        }
        r
    }

    /// Goes on to the next record.
    fn step(&mut self) -> (more: bool)
        requires
            old(self).counts(),
        ensures
            final(self).bytes@ == old(self).bytes@,
            final(self).records == old(self).records,
            final(self).done == old(self).done,
            more == (old(self).row_count < old(self).spans().len()),
            final(self).counts(),
            final(self).row_count == old(self).row_count + if more {
                1int
            } else {
                0
            },
    {
        let ghost spans = self.spans();
        let ghost n = self.row_count as int;
        let size: usize = self.bytes.len();
        proof {
            crate::json_scan::lemma_spans(
                self.records.mode,
                self.bytes@,
                self.records.body_start as int,
            );
            crate::json_scan::lemma_next_record(self.records.mode, self.bytes@, self.pos as int);
            assert(spans.len() <= size);
            if n < spans.len() {
                assert(spans.skip(n)[0] == spans[n]);
            }
        }
        match self.records.next(self.bytes, self.pos) {
            Some((start, _, next)) => {
                proof {
                    assert(spans.skip(n).len() > 0);
                    assert(spans[n].start == start && spans[n].next == next);
                }
                if self.row_count % ANCHOR_INTERVAL == 0 {
                    self.anchors.push(start as u64);
                }
                self.row_count = self.row_count + 1;
                self.pos = next;
                proof {
                    assert(self.anchors@ =~= anchors_of(spans, n + 1)) by {
                        let a = anchors_of(spans, n);
                        let b = anchors_of(spans, n + 1);
                        if n % ANCHOR_INTERVAL as int == 0 {
                            assert(b.len() == a.len() + 1);
                            assert(a.len() * ANCHOR_INTERVAL == n);
                        } else {
                            assert(b.len() == a.len());
                        }
                    }
                }
                true
            },
            None => false,
        }
    }

    /// Goes on to the next report, and says whether it is the last one.
    pub fn advance(&mut self) -> (r: (Progress, bool))
        requires
            old(self).wf(),
            !old(self).complete(),
        ensures
            final(self).wf(),
            final(self).source() == old(self).source(),
            final(self).layout() == old(self).layout(),
            final(self).reported() == old(self).reported() + 1,
            final(self).reported() <= record_reports(
                old(self).source(),
                old(self).layout(),
            ).len(),
            r.0 == record_reports(old(self).source(), old(self).layout())[old(self).reported()],
            r.1 == final(self).complete(),
            r.1 == (final(self).reported() == record_reports(
                old(self).source(),
                old(self).layout(),
            ).len()),
    {
        let ghost spans = self.spans();
        let ghost before = self.row_count as int;
        let ghost k = before / REPORT_INTERVAL as int;
        loop
            invariant
                self.bytes@ == old(self).bytes@,
                self.records == old(self).records,
                old(self).wf(),
                !old(self).done,
                !self.done,
                before == old(self).row_count,
                k == before / REPORT_INTERVAL as int,
                before == k * REPORT_INTERVAL,
                spans == self.spans(),
                spans == old(self).spans(),
                self.counts(),
                before <= self.row_count < before + REPORT_INTERVAL,
            decreases spans.len() - self.row_count,
        {
            let more = self.step();
            if !more {
                let total: u64 = self.bytes.len() as u64;
                self.done = true;
                proof {
                    assert(spans.len() as int / REPORT_INTERVAL as int == k);
                }
                return (
                    Progress { bytes_processed: total, rows_indexed: self.row_count },
                    true,
                );
            }
            if self.row_count % REPORT_INTERVAL == 0 {
                proof {
                    assert(self.row_count == (k + 1) * REPORT_INTERVAL);
                    assert(spans.len() as int / REPORT_INTERVAL as int >= k + 1);
                }
                return (
                    Progress {
                        bytes_processed: self.pos as u64,
                        rows_indexed: self.row_count,
                    },
                    false,
                );
            }
        }
    }

    /// The index over the whole source.
    pub fn finish(self) -> (r: RecordIndex)
        requires
            self.wf(),
            self.complete(),
        ensures
            r@ == record_index_over(self.source(), self.layout()),
    {
        RecordIndex { anchors: self.anchors, row_count: self.row_count }
    }
}

impl RecordIndex {
    /// Builds the index over a source.
    pub fn build(bytes: &[u8], records: Records) -> (r: Result<RecordIndex, Error>)
        ensures
            r matches Ok(index) && index@ == record_index_over(bytes@, records),
    {
        let mut builder = RecordIndexBuilder::new(bytes, records);
        loop
            invariant
                builder.wf(),
                !builder.complete(),
                builder.source() == bytes@,
                builder.layout() == records,
            decreases record_reports(bytes@, records).len() - builder.reported(),
        {
            let (_, done) = builder.advance();
            if done {
                return Ok(builder.finish());
            }
        }
    }

    /// Builds the index over a source, unless it is cancelled meanwhile, and reports how far it has
    /// come: the reports are those that the builder gives.
    pub fn build_with(
        bytes: &[u8],
        records: Records,
        cancel: &CancellationToken,
        progress: impl FnMut(Progress),
    ) -> (r: Result<RecordIndex, Error>)
        requires
            forall|k: int|
                0 <= k < record_reports(bytes@, records).len()
                    ==> progress.requires((#[trigger] record_reports(bytes@, records)[k],)),
        ensures
            match r {
                Ok(index) => index@ == record_index_over(bytes@, records),
                Err(e) => e is Cancelled,
            },
            r is Ok ==> forall|k: int|
                0 <= k < record_reports(bytes@, records).len() ==> progress.ensures(
                    (#[trigger] record_reports(bytes@, records)[k],),
                    (),
                ),
    {
        let mut builder = RecordIndexBuilder::new(bytes, records);
        let mut call = progress;
        loop
            invariant
                builder.wf(),
                !builder.complete(),
                builder.source() == bytes@,
                builder.layout() == records,
                forall|k: int|
                    0 <= k < record_reports(bytes@, records).len()
                        ==> progress.requires((#[trigger] record_reports(bytes@, records)[k],)),
                call == progress,
                forall|k: int|
                    0 <= k < builder.reported() ==> progress.ensures(
                        (#[trigger] record_reports(bytes@, records)[k],),
                        (),
                    ),
            decreases record_reports(bytes@, records).len() - builder.reported(),
        {
            let (report, done) = builder.advance();
            if cancel.is_cancelled() {
                return Err(Error::Cancelled);
            }
            call(report);
            if done {
                return Ok(builder.finish());
            }
        }
    }

    /// The number of records.
    pub fn row_count(&self) -> (n: u64)
        ensures
            n == self@.row_count,
    {
        self.row_count
    }

    /// The byte at which a record begins.
    pub fn offset_of_row(&self, bytes: &[u8], records: Records, row: u64) -> (r: Option<usize>)
        ensures
            match r {
                Some(offset) => self@.located(bytes@, records.mode, row as int) == Some(
                    offset as int,
                ),
                None => self@.located(bytes@, records.mode, row as int) is None,
            },
    {
        if row >= self.row_count {
            return None;
        }
        let k: u64 = row / ANCHOR_INTERVAL;
        if k >= self.anchors.len() as u64 {
            return None;
        }
        let anchor: u64 = self.anchors[k as usize];
        proof {
            crate::json_scan::lemma_spans(records.mode, bytes@, anchor as int);
        }
        if anchor > bytes.len() as u64 {
            return None;
        }
        let skip: u64 = row % ANCHOR_INTERVAL;
        let ghost spans = crate::json_scan::spans_from(records.mode, bytes@, anchor as int);
        let mut pos: usize = anchor as usize;
        let mut i: u64 = 0;
        assert(spans.skip(0) =~= spans);
        loop
            invariant
                spans == crate::json_scan::spans_from(records.mode, bytes@, anchor as int),
                i <= skip < ANCHOR_INTERVAL,
                i <= spans.len(),
                spans.skip(i as int) == crate::json_scan::spans_from(
                    records.mode,
                    bytes@,
                    pos as int,
                ),
                self@.located(bytes@, records.mode, row as int) == if skip < spans.len() {
                    Some(spans[skip as int].start)
                } else {
                    None
                },
            decreases skip - i,
        {
            proof {
                crate::json_scan::lemma_spans(records.mode, bytes@, anchor as int);
                crate::json_scan::lemma_next_record(records.mode, bytes@, pos as int);
                if i < spans.len() {
                    assert(spans.skip(i as int)[0] == spans[i as int]);
                }
            }
            match records.next(bytes, pos) {
                Some((start, _, next)) => {
                    assert(spans.skip(i as int).len() > 0);
                    if i == skip {
                        return Some(start);
                    }
                    i += 1;
                    pos = next;
                },
                None => {
                    assert(spans.skip(i as int).len() == 0);
                    return None;
                },
            }
        }
    }
}

/// A column of a JSON table.
pub struct ColumnKey {
    /// The name.
    pub name: Vec<u8>,
    /// The key whose values it shows; none for the column of whole values.
    pub key: Option<String>,
    /// What it looks like.
    pub inferred: InferredType,
}

/// The keys of columns.
pub open spec fn key_views(columns: Seq<ColumnKey>) -> Seq<Option<Seq<char>>> {
    columns.map_values(|c: ColumnKey| crate::json_value::key_view(c.key))
}

/// The record in a piece of a source.
pub open spec fn record_at(bytes: Seq<u8>, span: Span) -> Option<RecordView> {
    crate::json_value::json_record(bytes.subrange(span.start, span.end))
}

/// The fields of a record, if it is an object.
pub open spec fn object_fields(record: Option<RecordView>) -> Seq<(Seq<char>, ValueView)> {
    match record {
        Some(r) => match r.fields {
            Some(fields) => fields,
            None => Seq::empty(),
        },
        None => Seq::empty(),
    }
}

/// Whether a record is an object.
pub open spec fn is_object(record: Option<RecordView>) -> bool {
    record matches Some(r) && r.fields is Some
}

/// The fields of the objects among some records, one behind another.
pub open spec fn entries_of(records: Seq<Option<RecordView>>) -> Seq<(Seq<char>, ValueView)>
    decreases records.len(),
{
    if records.len() == 0 {
        Seq::empty()
    } else {
        entries_of(records.drop_last()) + object_fields(records.last())
    }
}

/// The keys of fields, in the order in which they first occur.
pub open spec fn first_seen(entries: Seq<(Seq<char>, ValueView)>) -> Seq<Seq<char>>
    decreases entries.len(),
{
    if entries.len() == 0 {
        Seq::empty()
    } else {
        let before = first_seen(entries.drop_last());
        if before.contains(entries.last().0) {
            before
        } else {
            before.push(entries.last().0)
        }
    }
}

/// No key is seen first twice, and every key is seen first once.
pub proof fn keys_are_seen_once(entries: Seq<(Seq<char>, ValueView)>)
    ensures
        first_seen(entries).no_duplicates(),
        forall|i: int|
            0 <= i < entries.len() ==> first_seen(entries).contains((#[trigger] entries[i]).0),
    decreases entries.len(),
{
    if entries.len() > 0 {
        let rest = entries.drop_last();
        keys_are_seen_once(rest);
        let before = first_seen(rest);
        let after = first_seen(entries);
        assert forall|i: int| 0 <= i < entries.len() implies after.contains(
            (#[trigger] entries[i]).0,
        ) by {
            if i < rest.len() {
                assert(rest[i] == entries[i]);
                assert(before.contains(rest[i].0));
                let k = before.index_of(rest[i].0);
                assert(after[k] == rest[i].0);
            } else if !before.contains(entries.last().0) {
                assert(after[before.len() as int] == entries.last().0);
            }
        }
    }
}

/// The records that are looked at for the columns.
pub const SCHEMA_SAMPLE_ROWS: usize = 200;

/// The records at the head of a source.
pub open spec fn sample_of(bytes: Seq<u8>, records: Records) -> Seq<Option<RecordView>> {
    let spans = records.spans(bytes);
    Seq::new(
        if spans.len() < SCHEMA_SAMPLE_ROWS {
            spans.len()
        } else {
            SCHEMA_SAMPLE_ROWS as nat
        },
        |i: int| record_at(bytes, spans[i]),
    )
}

/// Whether some record is an object.
pub open spec fn any_object(records: Seq<Option<RecordView>>) -> bool {
    exists|i: int| 0 <= i < records.len() && is_object(#[trigger] records[i])
}

/// The keys of the columns: those of the objects at the head, or one column of whole values.
pub open spec fn column_keys(sample: Seq<Option<RecordView>>) -> Seq<Option<Seq<char>>> {
    if any_object(sample) {
        first_seen(entries_of(sample)).map_values(|k: Seq<char>| Some(k))
    } else {
        seq![None]
    }
}

/// The columns of a source with the given records at its head.
pub open spec fn columns_from(sample: Seq<Option<RecordView>>) -> Seq<ColumnView> {
    if any_object(sample) {
        let entries = entries_of(sample);
        let keys = first_seen(entries);
        Seq::new(
            keys.len(),
            |i: int|
                ColumnView {
                    id: i as u32,
                    name: vstd::utf8::encode_utf8(keys[i]),
                    inferred: crate::json_value::key_type(entries, keys[i]),
                },
        )
    } else {
        seq![
            ColumnView {
                id: 0,
                name: vstd::utf8::encode_utf8("value"@),
                inferred: InferredType::Text,
            },
        ]
    }
}

/// The contents of texts.
pub open spec fn text_views(texts: Seq<String>) -> Seq<Seq<char>> {
    texts.map_values(|t: String| t@)
}

spec fn tracked_types(
    keys: Seq<String>,
    types: Seq<TypeAcc>,
    entries: Seq<(Seq<char>, ValueView)>,
) -> bool {
    &&& keys.len() == types.len()
    &&& text_views(keys) == first_seen(entries)
    &&& forall|j: int|
        0 <= j < keys.len() ==> (#[trigger] types[j]).describes(entries, keys[j]@)
}

/// The place of a text among others, or their number.
fn position(texts: &Vec<String>, text: &String) -> (r: usize)
    ensures
        r <= texts@.len(),
        r < texts@.len() ==> texts@[r as int]@ == text@,
        r == texts@.len() ==> !text_views(texts@).contains(text@),
{
    for i in 0..texts.len()
        invariant
            forall|j: int| 0 <= j < i ==> (#[trigger] texts@[j])@ != text@,
    {
        if texts[i] == *text {
            return i;
        }
    }
    assert forall|j: int| 0 <= j < text_views(texts@).len() implies text_views(texts@)[j]
        != text@ by {
        assert(text_views(texts@)[j] == texts@[j]@);
    }
    texts.len()
}

/// Takes one more field into account.
fn observe_field(
    keys: &mut Vec<String>,
    types: &mut Vec<TypeAcc>,
    key: &String,
    value: &JsonValue,
    Ghost(entries): Ghost<Seq<(Seq<char>, ValueView)>>,
)
    requires
        tracked_types(old(keys)@, old(types)@, entries),
    ensures
        tracked_types(final(keys)@, final(types)@, entries.push((key@, value@))),
{
    let ghost after = entries.push((key@, value@));
    let at: usize = position(keys, key);
    proof {
        assert(after.drop_last() =~= entries);
        keys_are_seen_once(entries);
    }
    if at == keys.len() {
        proof {
            assert forall|i: int| 0 <= i < entries.len() implies (#[trigger] entries[i]).0
                != key@ by {
                assert(first_seen(entries).contains(entries[i].0));
            }
        }
        keys.push(key.clone());
        let fresh = TypeAcc::new();
        assert(fresh.describes(entries, key@));
        types.push(fresh);
        proof {
            assert(text_views(keys@) =~= first_seen(after));
        }
    } else {
        proof {
            assert(text_views(keys@)[at as int] == key@);
            assert(first_seen(entries).contains(key@));
        }
    }
    let mut acc: TypeAcc = types[at];
    let ghost before = types@;
    proof {
        assert(before[at as int].describes(entries, key@));
    }
    acc.observe(value, Ghost(entries), Ghost(key@));
    types.set(at, acc);
    proof {
        let names = text_views(keys@);
        keys_are_seen_once(after);
        assert forall|j: int| 0 <= j < keys@.len() implies (#[trigger] types@[j]).describes(
            after,
            keys@[j]@,
        ) by {
            assert(names[j] == keys@[j]@);
            assert(names[at as int] == keys@[at as int]@);
            if j != at {
                assert(names[j] != names[at as int]);
                before[j].lemma_other(entries, keys@[j]@, (key@, value@));
            }
        }
    }
}

/// Whether columns and their keys go together: one by one, they have the same name and type.
pub open spec fn go_together(columns: Seq<Column>, keys: Seq<ColumnKey>) -> bool {
    &&& columns.len() == keys.len()
    &&& forall|i: int|
        0 <= i < keys.len() ==> (#[trigger] keys[i]).name@ == columns[i].name@ && keys[i].inferred
            == columns[i].inferred
}

/// The columns of a source.
pub fn derive_columns(bytes: &[u8], records: Records) -> (r: (Schema, Vec<ColumnKey>))
    ensures
        crate::table::column_views(r.0.columns@) == columns_from(sample_of(bytes@, records)),
        key_views(r.1@) == column_keys(sample_of(bytes@, records)),
        go_together(r.0.columns@, r.1@),
{
    let ghost spans = records.spans(bytes@);
    let ghost sample = sample_of(bytes@, records);
    let mut keys: Vec<String> = Vec::new();
    let mut types: Vec<TypeAcc> = Vec::new();
    let mut saw_object = false;
    let mut pos: usize = records.body_start;
    let mut sampled: usize = 0;
    let mut more = true;
    proof {
        assert(sample.take(0) =~= Seq::empty());
        assert(entries_of(sample.take(0)) =~= Seq::empty());
        assert(text_views(keys@) =~= first_seen(entries_of(sample.take(0))));
        assert(spans.skip(0) =~= spans);
    }
    while more && sampled < SCHEMA_SAMPLE_ROWS
        invariant
            spans == records.spans(bytes@),
            sample == sample_of(bytes@, records),
            sampled <= sample.len() <= SCHEMA_SAMPLE_ROWS,
            !more ==> sampled == spans.len(),
            spans.skip(sampled as int) == crate::json_scan::spans_from(
                records.mode,
                bytes@,
                pos as int,
            ),
            tracked_types(keys@, types@, entries_of(sample.take(sampled as int))),
            saw_object == any_object(sample.take(sampled as int)),
        decreases SCHEMA_SAMPLE_ROWS - sampled + if more {
            1int
        } else {
            0
        },
    {
        proof {
            crate::json_scan::lemma_spans(records.mode, bytes@, records.body_start as int);
            crate::json_scan::lemma_next_record(records.mode, bytes@, pos as int);
            if sampled < spans.len() {
                assert(spans.skip(sampled as int)[0] == spans[sampled as int]);
            }
        }
        match records.next(bytes, pos) {
            Some((start, end, next)) => {
                proof {
                    assert(spans.skip(sampled as int).len() > 0);
                    assert(sampled < sample.len());
                }
                let record = parse_record(vstd::slice::slice_subrange(bytes, start, end));
                let ghost view = crate::json_value::record_view(record);
                let ghost done = sample.take(sampled as int);
                let ghost longer = sample.take(sampled + 1);
                proof {
                    assert(view == sample[sampled as int]);
                    assert(longer =~= done.push(view));
                    assert(longer.drop_last() =~= done);
                    assert(longer.last() == view);
                    lemma_any_object(done, view);
                }
                if let Some(r) = &record {
                    if let Some(fields) = &r.fields {
                        saw_object = true;
                        observe_fields(
                            &mut keys,
                            &mut types,
                            fields,
                            Ghost(entries_of(done)),
                        );
                    }
                }
                proof {
                    if !is_object(view) {
                        assert(entries_of(longer) =~= entries_of(done));
                    }
                }
                pos = next;
                sampled += 1;
            },
            None => {
                assert(spans.skip(sampled as int).len() == 0);
                more = false;
            },
        }
    }
    proof {
        assert(sampled == sample.len());
        assert(sample.take(sample.len() as int) =~= sample);
    }
    make_columns(keys, types, saw_object, Ghost(sample))
}

/// Takes the fields of an object into account.
fn observe_fields(
    keys: &mut Vec<String>,
    types: &mut Vec<TypeAcc>,
    fields: &Vec<(String, JsonValue)>,
    Ghost(entries): Ghost<Seq<(Seq<char>, ValueView)>>,
)
    requires
        tracked_types(old(keys)@, old(types)@, entries),
    ensures
        tracked_types(
            final(keys)@,
            final(types)@,
            entries + crate::json_value::field_views(fields@),
        ),
{
    let ghost all = crate::json_value::field_views(fields@);
    assert(entries + all.take(0) =~= entries);
    for i in 0..fields.len()
        invariant
            all == crate::json_value::field_views(fields@),
            tracked_types(keys@, types@, entries + all.take(i as int)),
    {
        observe_field(
            keys,
            types,
            &fields[i].0,
            &fields[i].1,
            Ghost(entries + all.take(i as int)),
        );
        assert((entries + all.take(i as int)).push((fields@[i as int].0@, fields@[i as int].1@))
            =~= entries + all.take(i + 1));
    }
    assert(all.take(all.len() as int) =~= all);
}

proof fn lemma_any_object(records: Seq<Option<RecordView>>, last: Option<RecordView>)
    ensures
        any_object(records.push(last)) == (any_object(records) || is_object(last)),
{
    let all = records.push(last);
    if any_object(records) {
        let i = choose|i: int| 0 <= i < records.len() && is_object(#[trigger] records[i]);
        assert(all[i] == records[i]);
    }
    if is_object(last) {
        assert(is_object(all[records.len() as int]));
    }
    if any_object(all) {
        let i = choose|i: int| 0 <= i < all.len() && is_object(#[trigger] all[i]);
        if i < records.len() {
            assert(records[i] == all[i]);
        }
    }
}

/// The columns with the given keys and types.
fn make_columns(
    keys: Vec<String>,
    types: Vec<TypeAcc>,
    saw_object: bool,
    Ghost(sample): Ghost<Seq<Option<RecordView>>>,
) -> (r: (Schema, Vec<ColumnKey>))
    requires
        tracked_types(keys@, types@, entries_of(sample)),
        saw_object == any_object(sample),
    ensures
        crate::table::column_views(r.0.columns@) == columns_from(sample),
        key_views(r.1@) == column_keys(sample),
        go_together(r.0.columns@, r.1@),
{
    let mut columns: Vec<Column> = Vec::new();
    let mut column_keys_out: Vec<ColumnKey> = Vec::new();
    if saw_object {
        let ghost entries = entries_of(sample);
        for i in 0..keys.len()
            invariant
                entries == entries_of(sample),
                any_object(sample),
                tracked_types(keys@, types@, entries),
                columns@.len() == i,
                column_keys_out@.len() == i,
                forall|j: int|
                    0 <= j < i ==> {
                        &&& (#[trigger] columns@[j]).id.0 == j as u32
                        &&& columns@[j].name@ == vstd::utf8::encode_utf8(keys@[j]@)
                        &&& columns@[j].inferred == crate::json_value::key_type(
                            entries,
                            keys@[j]@,
                        )
                    },
                forall|j: int|
                    0 <= j < i ==> crate::json_value::key_view((#[trigger] column_keys_out@[j]).key)
                        == Some(keys@[j]@),
                go_together(columns@, column_keys_out@),
        {
            let name = vstd::slice::slice_to_vec(keys[i].as_str().as_bytes());
            let again = vstd::slice::slice_to_vec(keys[i].as_str().as_bytes());
            let inferred = types[i].resolve(Ghost(entries), Ghost(keys@[i as int]@));
            columns.push(Column { id: ColumnId(i as u32), name, inferred });
            column_keys_out.push(
                ColumnKey { name: again, key: Some(keys[i].clone()), inferred },
            );
        }
        proof {
            let names = text_views(keys@);
            assert forall|j: int| 0 <= j < names.len() implies names[j] == keys@[j]@ by {}
            assert(crate::table::column_views(columns@) =~= columns_from(sample));
            assert(key_views(column_keys_out@) =~= column_keys(sample));
        }
    } else {
        let name = vstd::slice::slice_to_vec("value".as_bytes());
        let again = vstd::slice::slice_to_vec("value".as_bytes());
        columns.push(Column { id: ColumnId(0), name, inferred: InferredType::Text });
        column_keys_out.push(ColumnKey { name: again, key: None, inferred: InferredType::Text });
        proof {
            assert(crate::table::column_views(columns@) =~= columns_from(sample));
            assert(key_views(column_keys_out@) =~= column_keys(sample));
        }
    }
    (Schema { columns }, column_keys_out)
}

/// What is shown of a record, column by column.
pub open spec fn rendered(record: Option<RecordView>, keys: Seq<Option<Seq<char>>>) -> Seq<Seq<u8>> {
    keys.map_values(|k: Option<Seq<char>>| crate::json_value::column_rendering(record, k))
}

/// What is shown of the records of a source.
pub open spec fn grid_of(
    bytes: Seq<u8>,
    records: Records,
    keys: Seq<Option<Seq<char>>>,
) -> Seq<Seq<Seq<u8>>> {
    records.spans(bytes).map_values(|s: Span| rendered(record_at(bytes, s), keys))
}

/// What is shown of a record, column by column.
pub fn render_columns(record: &Option<JsonRecord>, columns: &Vec<ColumnKey>) -> (r: Vec<Vec<u8>>)
    ensures
        crate::search::contents(r@) == rendered(
            crate::json_value::record_view(*record),
            key_views(columns@),
        ),
{
    let ghost view = crate::json_value::record_view(*record);
    let mut r: Vec<Vec<u8>> = Vec::new();
    for i in 0..columns.len()
        invariant
            view == crate::json_value::record_view(*record),
            r@.len() == i,
            forall|j: int|
                0 <= j < i ==> (#[trigger] r@[j])@ == crate::json_value::column_rendering(
                    view,
                    crate::json_value::key_view(columns@[j].key),
                ),
    {
        r.push(render_column(record, &columns[i].key));
    }
    assert(crate::search::contents(r@) =~= rendered(view, key_views(columns@)));
    r
}

/// What is shown of one column of a record; nothing where there is no such column.
fn render_at(record: &Option<JsonRecord>, columns: &Vec<ColumnKey>, column: u32) -> (r: Vec<u8>)
    ensures
        r@ == crate::view::cell_of(
            rendered(crate::json_value::record_view(*record), key_views(columns@)),
            ColumnId(column),
        ),
{
    if (column as usize) < columns.len() {
        render_column(record, &columns[column as usize].key)
    } else {
        let none: Vec<u8> = Vec::new();
        assert(none@ =~= Seq::empty());
        none
    }
}

/// The cells of a record for the given columns.
pub fn project(
    record: &Option<JsonRecord>,
    columns: &[ColumnId],
    keys: &Vec<ColumnKey>,
) -> (cells: Vec<Cell>)
    ensures
        crate::viewport::row_bytes(cells@) == crate::viewport::projected(
            rendered(crate::json_value::record_view(*record), key_views(keys@)),
            columns@,
        ),
{
    let ghost fields = rendered(crate::json_value::record_view(*record), key_views(keys@));
    let mut cells: Vec<Cell> = Vec::new();
    for i in 0..columns.len()
        invariant
            fields == rendered(crate::json_value::record_view(*record), key_views(keys@)),
            cells@.len() == i,
            forall|k: int|
                0 <= k < i ==> (#[trigger] cells@[k]).0@ == crate::view::cell_of(
                    fields,
                    columns@[k],
                ),
    {
        cells.push(Cell(render_at(record, keys, columns[i].0)));
    }
    assert(crate::viewport::row_bytes(cells@) =~= crate::viewport::projected(fields, columns@));
    cells
}

/// The record that begins at `offset`.
pub open spec fn record_from(bytes: Seq<u8>, mode: JsonMode, offset: int) -> Option<RecordView> {
    match crate::json_scan::next_record(mode, bytes, offset) {
        Some(span) => record_at(bytes, span),
        None => None,
    }
}

/// The cells of a row, through the index if there is one; nothing for a row that there is not.
pub open spec fn cells_at(
    index: Option<RecordIndexView>,
    bytes: Seq<u8>,
    records: Records,
    keys: Seq<Option<Seq<char>>>,
    row: int,
    columns: Seq<ColumnId>,
) -> Option<Seq<Seq<u8>>> {
    match index {
        Some(i) => match i.located(bytes, records.mode, row) {
            Some(offset) => Some(
                crate::viewport::projected(
                    rendered(record_from(bytes, records.mode, offset), keys),
                    columns,
                ),
            ),
            None => None,
        },
        None => {
            let grid = grid_of(bytes, records, keys);
            if row < grid.len() {
                Some(crate::viewport::projected(grid[row], columns))
            } else {
                None
            }
        },
    }
}

/// The cells of those rows that there are.
pub open spec fn cells_of(
    index: Option<RecordIndexView>,
    bytes: Seq<u8>,
    records: Records,
    keys: Seq<Option<Seq<char>>>,
    rows: Seq<u64>,
    columns: Seq<ColumnId>,
) -> Seq<Seq<Seq<u8>>>
    decreases rows.len(),
{
    if rows.len() == 0 {
        Seq::empty()
    } else {
        let before = cells_of(index, bytes, records, keys, rows.drop_last(), columns);
        match cells_at(index, bytes, records, keys, rows.last() as int, columns) {
            Some(cells) => before.push(cells),
            None => before,
        }
    }
}

/// What is found through the index over a source is what is found by going through it from the head
/// on.
pub proof fn indexed_rows_match_streamed_rows(
    bytes: Seq<u8>,
    records: Records,
    keys: Seq<Option<Seq<char>>>,
    row: int,
    columns: Seq<ColumnId>,
)
    requires
        bytes.len() <= u64::MAX,
        0 <= row,
    ensures
        cells_at(
            Some(record_index_over(bytes, records)),
            bytes,
            records,
            keys,
            row,
            columns,
        ) == cells_at(None, bytes, records, keys, row, columns),
{
    record_index_finds_records(bytes, records, row);
    crate::json_scan::lemma_spans(records.mode, bytes, records.body_start as int);
    let spans = records.spans(bytes);
    if row < spans.len() {
        assert(crate::json_scan::next_record(records.mode, bytes, spans[row].start) == Some(
            spans[row],
        ));
        assert(grid_of(bytes, records, keys)[row] == rendered(
            record_at(bytes, spans[row]),
            keys,
        ));
    }
}

/// Fetches rows through an index, unless it is cancelled meanwhile. Without a token it is not
/// cancelled.
pub fn fetch_indexed(
    index: &RecordIndex,
    bytes: &[u8],
    records: Records,
    keys: &Vec<ColumnKey>,
    data_rows: &[u64],
    columns: &[ColumnId],
    cancel: Option<&CancellationToken>,
) -> (r: Result<Viewport, Error>)
    ensures
        match r {
            Ok(viewport) => viewport@ == cells_of(
                Some(index@),
                bytes@,
                records,
                key_views(keys@),
                data_rows@,
                columns@,
            ),
            Err(e) => e is Cancelled && cancel is Some && cells_of(
                Some(index@),
                bytes@,
                records,
                key_views(keys@),
                data_rows@,
                columns@,
            ).len() > 0,
        },
{
    let ghost kv = key_views(keys@);
    let mut rows: Vec<Vec<Cell>> = Vec::new();
    proof {
        assert(data_rows@.take(0) =~= Seq::empty());
        assert(crate::viewport::grid_bytes(rows@) =~= cells_of(
            Some(index@),
            bytes@,
            records,
            kv,
            data_rows@.take(0),
            columns@,
        ));
    }
    for k in 0..data_rows.len()
        invariant
            kv == key_views(keys@),
            crate::viewport::grid_bytes(rows@) == cells_of(
                Some(index@),
                bytes@,
                records,
                kv,
                data_rows@.take(k as int),
                columns@,
            ),
    {
        let ghost before = data_rows@.take(k as int);
        let ghost after = data_rows@.take(k + 1);
        proof {
            assert(after.drop_last() =~= before);
            lemma_cells_grow(Some(index@), bytes@, records, kv, data_rows@, k + 1, columns@);
        }
        if let Some(offset) = index.offset_of_row(bytes, records, data_rows[k]) {
            if is_stopped(cancel) {
                return Err(Error::Cancelled);
            }
            let record = match records.next(bytes, offset) {
                Some((start, end, _)) => parse_record(
                    vstd::slice::slice_subrange(bytes, start, end),
                ),
                None => None,
            };
            assert(crate::json_value::record_view(record) == record_from(
                bytes@,
                records.mode,
                offset as int,
            ));
            let ghost old_rows = rows@;
            rows.push(project(&record, columns, keys));
            assert(crate::viewport::grid_bytes(rows@) =~= crate::viewport::grid_bytes(
                old_rows,
            ).push(crate::viewport::row_bytes(rows@.last()@)));
        }
    }
    assert(data_rows@.take(data_rows@.len() as int) =~= data_rows@);
    Ok(Viewport { rows })
}

/// More rows have no fewer cells.
proof fn lemma_cells_grow(
    index: Option<RecordIndexView>,
    bytes: Seq<u8>,
    records: Records,
    keys: Seq<Option<Seq<char>>>,
    rows: Seq<u64>,
    k: int,
    columns: Seq<ColumnId>,
)
    requires
        0 <= k <= rows.len(),
    ensures
        cells_of(index, bytes, records, keys, rows.take(k), columns).len() <= cells_of(
            index,
            bytes,
            records,
            keys,
            rows,
            columns,
        ).len(),
    decreases rows.len() - k,
{
    if k < rows.len() {
        lemma_cells_grow(index, bytes, records, keys, rows, k + 1, columns);
        assert(rows.take(k + 1).drop_last() =~= rows.take(k));
    } else {
        assert(rows.take(k) =~= rows);
    }
}

/// The greatest of some rows.
fn greatest(rows: &[u64]) -> (r: Option<u64>)
    ensures
        r is None <==> rows@.len() == 0,
        r matches Some(m) ==> forall|i: int| 0 <= i < rows@.len() ==> #[trigger] rows@[i] <= m,
{
    if rows.len() == 0 {
        return None;
    }
    let mut m: u64 = rows[0];
    for i in 0..rows.len()
        invariant
            forall|k: int| 0 <= k < i ==> #[trigger] rows@[k] <= m,
    {
        if rows[i] > m {
            m = rows[i];
        }
    }
    Some(m)
}

/// The cells of a row that was gone through, and nothing of a row that was not.
spec fn found_cells(
    cells: Option<Vec<Cell>>,
    grid: Seq<Seq<Seq<u8>>>,
    row: u64,
    n: int,
    columns: Seq<ColumnId>,
) -> bool {
    match cells {
        Some(c) => row < n && crate::viewport::row_bytes(c@) == crate::viewport::projected(
            grid[row as int],
            columns,
        ),
        None => row >= n,
    }
}

/// Goes through a source from the head on, up to the last of the rows that are asked for.
fn stream_rows(
    bytes: &[u8],
    records: Records,
    keys: &Vec<ColumnKey>,
    data_rows: &[u64],
    columns: &[ColumnId],
    cancel: Option<&CancellationToken>,
) -> (r: Option<Vec<Option<Vec<Cell>>>>)
    ensures
        r is None ==> cancel is Some && data_rows@.len() > 0 && grid_of(bytes@, records, key_views(keys@)).len() > 0
            && exists|k: int|
            0 <= k < data_rows@.len() && #[trigger] data_rows@[k] < grid_of(
                bytes@,
                records,
                key_views(keys@),
            ).len(),
        r matches Some(found) ==> {
            &&& found@.len() == data_rows@.len()
            &&& forall|k: int|
                0 <= k < found@.len() ==> found_cells(
                    #[trigger] found@[k],
                    grid_of(bytes@, records, key_views(keys@)),
                    data_rows@[k],
                    grid_of(bytes@, records, key_views(keys@)).len() as int,
                    columns@,
                )
        },
{
    let ghost spans = records.spans(bytes@);
    let ghost grid = grid_of(bytes@, records, key_views(keys@));
    let mut found: Vec<Option<Vec<Cell>>> = Vec::new();
    for k in 0..data_rows.len()
        invariant
            found@.len() == k,
            forall|j: int| 0 <= j < k ==> (#[trigger] found@[j]) is None,
    {
        found.push(None);
    }
    let last: u64 = match greatest(data_rows) {
        Some(m) => m,
        None => return Some(found),
    };
    let size: usize = bytes.len();
    proof {
        crate::json_scan::lemma_spans(records.mode, bytes@, records.body_start as int);
        assert(spans.skip(0) =~= spans);
    }
    let mut pos: usize = records.body_start;
    let mut i: u64 = 0;
    let mut more = true;
    while more && i <= last
        invariant
            spans == records.spans(bytes@),
            grid == grid_of(bytes@, records, key_views(keys@)),
            spans.len() <= size,
            i <= spans.len(),
            !more ==> i == spans.len(),
            spans.skip(i as int) == crate::json_scan::spans_from(
                records.mode,
                bytes@,
                pos as int,
            ),
            found@.len() == data_rows@.len(),
            data_rows@.len() > 0,
            forall|k: int| 0 <= k < data_rows@.len() ==> #[trigger] data_rows@[k] <= last,
            forall|k: int|
                0 <= k < found@.len() ==> found_cells(
                    #[trigger] found@[k],
                    grid,
                    data_rows@[k],
                    i as int,
                    columns@,
                ),
        decreases spans.len() - i + if more {
            1int
        } else {
            0
        },
    {
        proof {
            crate::json_scan::lemma_spans(records.mode, bytes@, records.body_start as int);
            crate::json_scan::lemma_next_record(records.mode, bytes@, pos as int);
            if i < spans.len() {
                assert(spans.skip(i as int)[0] == spans[i as int]);
            }
        }
        match records.next(bytes, pos) {
            Some((start, end, next)) => {
                assert(spans.skip(i as int).len() > 0);
                if wants(data_rows, i) {
                    if is_stopped(cancel) {
                        return None;
                    }
                    let record = parse_record(vstd::slice::slice_subrange(bytes, start, end));
                    assert(grid[i as int] == rendered(
                        crate::json_value::record_view(record),
                        key_views(keys@),
                    ));
                    put(&mut found, data_rows, i, &record, columns, keys, Ghost(grid));
                }
                pos = next;
                i += 1;
            },
            None => {
                assert(spans.skip(i as int).len() == 0);
                more = false;
            },
        }
    }
    proof {
        assert forall|k: int| 0 <= k < found@.len() implies found_cells(
            #[trigger] found@[k],
            grid,
            data_rows@[k],
            grid.len() as int,
            columns@,
        ) by {
            assert(found_cells(found@[k], grid, data_rows@[k], i as int, columns@));
            assert(data_rows@[k] <= last);
        }
    }
    Some(found)
}

/// Whether a row is asked for.
fn wants(data_rows: &[u64], row: u64) -> (r: bool)
    ensures
        r == exists|k: int| 0 <= k < data_rows@.len() && #[trigger] data_rows@[k] == row,
{
    for k in 0..data_rows.len()
        invariant
            forall|j: int| 0 <= j < k ==> #[trigger] data_rows@[j] != row,
    {
        if data_rows[k] == row {
            assert(data_rows@[k as int] == row);
            return true;
        }
    }
    false
}

/// Puts a record wherever its row is asked for.
fn put(
    found: &mut Vec<Option<Vec<Cell>>>,
    data_rows: &[u64],
    row: u64,
    record: &Option<JsonRecord>,
    columns: &[ColumnId],
    keys: &Vec<ColumnKey>,
    Ghost(grid): Ghost<Seq<Seq<Seq<u8>>>>,
)
    requires
        old(found)@.len() == data_rows@.len(),
        grid[row as int] == rendered(crate::json_value::record_view(*record), key_views(keys@)),
        forall|k: int|
            0 <= k < old(found)@.len() ==> found_cells(
                #[trigger] old(found)@[k],
                grid,
                data_rows@[k],
                row as int,
                columns@,
            ),
    ensures
        final(found)@.len() == data_rows@.len(),
        forall|k: int|
            0 <= k < final(found)@.len() ==> found_cells(
                #[trigger] final(found)@[k],
                grid,
                data_rows@[k],
                row + 1,
                columns@,
            ),
{
    for k in 0..data_rows.len()
        invariant
            found@.len() == data_rows@.len(),
            grid[row as int] == rendered(
                crate::json_value::record_view(*record),
                key_views(keys@),
            ),
            forall|j: int|
                0 <= j < found@.len() ==> found_cells(
                    #[trigger] found@[j],
                    grid,
                    data_rows@[j],
                    if j < k {
                        row + 1
                    } else {
                        row as int
                    },
                    columns@,
                ),
    {
        assert(found_cells(found@[k as int], grid, data_rows@[k as int], row as int, columns@));
        if data_rows[k] == row {
            let cells = project(record, columns, keys);
            found.set(k, Some(cells));
        }
    }
}

/// Fetches rows by going through a source from the head on, unless it is cancelled meanwhile.
pub fn fetch_streaming(
    bytes: &[u8],
    records: Records,
    keys: &Vec<ColumnKey>,
    data_rows: &[u64],
    columns: &[ColumnId],
    cancel: &CancellationToken,
) -> (r: Result<Viewport, Error>)
    ensures
        match r {
            Ok(viewport) => viewport@ == cells_of(
                None,
                bytes@,
                records,
                key_views(keys@),
                data_rows@,
                columns@,
            ),
            Err(e) => e is Cancelled && cells_of(
                None,
                bytes@,
                records,
                key_views(keys@),
                data_rows@,
                columns@,
            ).len() > 0,
        },
{
    fetch_from_head(bytes, records, keys, data_rows, columns, Some(cancel))
}

/// Reads rows from the head on, unless it is cancelled meanwhile. Without a token it is not
/// cancelled.
pub fn fetch_from_head(
    bytes: &[u8],
    records: Records,
    keys: &Vec<ColumnKey>,
    data_rows: &[u64],
    columns: &[ColumnId],
    cancel: Option<&CancellationToken>,
) -> (r: Result<Viewport, Error>)
    ensures
        match r {
            Ok(viewport) => viewport@ == cells_of(
                None,
                bytes@,
                records,
                key_views(keys@),
                data_rows@,
                columns@,
            ),
            Err(e) => e is Cancelled && cancel is Some && cells_of(
                None,
                bytes@,
                records,
                key_views(keys@),
                data_rows@,
                columns@,
            ).len() > 0,
        },
{
    let ghost kv = key_views(keys@);
    let ghost grid = grid_of(bytes@, records, kv);
    let mut found = match stream_rows(bytes, records, keys, data_rows, columns, cancel) {
        Some(found) => found,
        None => {
            proof {
                let k = choose|k: int|
                    0 <= k < data_rows@.len() && #[trigger] data_rows@[k] < grid.len();
                lemma_cells_grow(None, bytes@, records, kv, data_rows@, k + 1, columns@);
                assert(data_rows@.take(k + 1).last() == data_rows@[k]);
            }
            return Err(Error::Cancelled);
        },
    };
    let mut rows: Vec<Vec<Cell>> = Vec::new();
    proof {
        assert(data_rows@.take(0) =~= Seq::empty());
        assert(crate::viewport::grid_bytes(rows@) =~= cells_of(
            None,
            bytes@,
            records,
            kv,
            data_rows@.take(0),
            columns@,
        ));
    }
    for k in 0..data_rows.len()
        invariant
            kv == key_views(keys@),
            grid == grid_of(bytes@, records, kv),
            found@.len() == data_rows@.len(),
            forall|j: int|
                k <= j < found@.len() ==> found_cells(
                    #[trigger] found@[j],
                    grid,
                    data_rows@[j],
                    grid.len() as int,
                    columns@,
                ),
            crate::viewport::grid_bytes(rows@) == cells_of(
                None,
                bytes@,
                records,
                kv,
                data_rows@.take(k as int),
                columns@,
            ),
    {
        assert(data_rows@.take(k + 1).drop_last() =~= data_rows@.take(k as int));
        assert(found_cells(
            found@[k as int],
            grid,
            data_rows@[k as int],
            grid.len() as int,
            columns@,
        ));
        let mut cell: Option<Vec<Cell>> = None;
        let ghost held = found@[k as int];
        std::mem::swap(&mut cell, &mut found[k]);
        if let Some(cells) = cell {
            let ghost old_rows = rows@;
            rows.push(cells);
            assert(crate::viewport::grid_bytes(rows@) =~= crate::viewport::grid_bytes(
                old_rows,
            ).push(crate::viewport::row_bytes(cells@)));
        }
    }
    assert(data_rows@.take(data_rows@.len() as int) =~= data_rows@);
    Ok(Viewport { rows })
}

/// The rows that a view shows, unless it is cancelled meanwhile. Without a token it is not
/// cancelled.
pub fn build_view(
    bytes: &[u8],
    records: Records,
    columns: &Vec<ColumnKey>,
    matcher: &Option<Matcher>,
    sort: Option<SortKey>,
    cancel: Option<&CancellationToken>,
) -> (r: Result<Vec<u64>, Error>)
    ensures
        match r {
            Ok(shown) => crate::view::is_view(
                grid_of(bytes@, records, key_views(columns@)),
                crate::view::search_of(*matcher),
                sort,
                shown@,
            ),
            Err(e) => e is Cancelled && cancel is Some && grid_of(
                bytes@,
                records,
                key_views(columns@),
            ).len() > 0,
        },
{
    let ghost spans = records.spans(bytes@);
    let ghost grid = grid_of(bytes@, records, key_views(columns@));
    let ghost search = crate::view::search_of(*matcher);
    let size: usize = bytes.len();
    let mut builder = ViewBuilder::new(sort);
    proof {
        assert(builder.covers(grid, search, 0));
        crate::json_scan::lemma_spans(records.mode, bytes@, records.body_start as int);
        assert(spans.skip(0) =~= spans);
    }
    let mut pos: usize = records.body_start;
    let mut row: u64 = 0;
    let mut more = true;
    while more
        invariant
            spans == records.spans(bytes@),
            grid == grid_of(bytes@, records, key_views(columns@)),
            search == crate::view::search_of(*matcher),
            spans.len() <= size,
            row <= spans.len(),
            !more ==> row == spans.len(),
            spans.skip(row as int) == crate::json_scan::spans_from(
                records.mode,
                bytes@,
                pos as int,
            ),
            builder.order() == sort,
            builder.covers(grid, search, row as int),
        decreases spans.len() - row + if more {
            1int
        } else {
            0
        },
    {
        proof {
            crate::json_scan::lemma_spans(records.mode, bytes@, records.body_start as int);
            crate::json_scan::lemma_next_record(records.mode, bytes@, pos as int);
            if row < spans.len() {
                assert(spans.skip(row as int)[0] == spans[row as int]);
            }
        }
        match records.next(bytes, pos) {
            None => {
                assert(spans.skip(row as int).len() == 0);
                more = false;
            },
            Some((start, end, next)) => {
                assert(spans.skip(row as int).len() > 0);
                if row % 4096 == 0 {
                    if let Some(token) = cancel {
                        if token.is_cancelled() {
                            return Err(Error::Cancelled);
                        }
                    }
                }
                let record = parse_record(vstd::slice::slice_subrange(bytes, start, end));
                assert(grid[row as int] == rendered(
                    crate::json_value::record_view(record),
                    key_views(columns@),
                ));
                let keep = match matcher {
                    Some(m) => {
                        let fields = render_columns(&record, columns);
                        m.matches_any(fields.as_slice())
                    },
                    None => true,
                };
                assert(keep == crate::view::passes(search, grid[row as int]));
                if keep {
                    let key: Vec<u8> = match sort {
                        Some(k) => render_at(&record, columns, k.column.0),
                        None => Vec::new(),
                    };
                    let ghost before = builder;
                    builder.take(row, key);
                    proof {
                        if sort is Some {
                            let column = (sort->0).column;
                            assert(key@ == crate::view::cell_of(grid[row as int], column));
                            assert(crate::view::keys_of(grid, builder.taken(), column)
                                =~= crate::view::keys_of(grid, before.taken(), column).push(
                                key@,
                            ));
                        }
                        assert(crate::view::kept(grid, search, row + 1) =~= before.taken().push(
                            row,
                        ));
                    }
                } else {
                    assert(crate::view::kept(grid, search, row + 1) == builder.taken());
                }
                pos = next;
                row += 1;
            },
        }
    }
    Ok(builder.finish())
}

/// The state of a table over JSON, apart from the bytes of the source.
pub struct JsonState {
    records: Records,
    schema: Schema,
    columns: Vec<ColumnKey>,
    index: Option<RecordIndex>,
    frontier: u64,
    view: ViewSlot,
}

impl JsonState {
    /// How the records of the source are found.
    pub closed spec fn layout(&self) -> Records {
        self.records
    }

    /// The columns.
    pub closed spec fn columns(&self) -> Seq<Column> {
        self.schema.columns@
    }

    /// The keys of the columns.
    pub closed spec fn keys(&self) -> Seq<Option<Seq<char>>> {
        key_views(self.columns@)
    }

    /// The index, once it is there.
    pub closed spec fn indexed(&self) -> Option<RecordIndexView> {
        match self.index {
            Some(i) => Some(i@),
            None => None,
        }
    }

    /// The records counted so far.
    pub closed spec fn counted(&self) -> u64 {
        self.frontier
    }

    /// The active view.
    pub closed spec fn slot(&self) -> ViewSlot {
        self.view
    }

    /// The number of rows of the source.
    pub open spec fn source_rows(&self) -> RowCount {
        match self.indexed() {
            Some(index) => RowCount::Exact(index.row_count),
            None => RowCount::AtLeast(self.counted()),
        }
    }

    /// The number of rows of the active view.
    pub open spec fn rows(&self) -> RowCount {
        match self.slot().shown() {
            Some(shown) => RowCount::Exact(shown.len() as u64),
            None => self.source_rows(),
        }
    }

    /// The cells of those rows that there are.
    pub open spec fn cells(
        &self,
        bytes: Seq<u8>,
        rows: Seq<u64>,
        columns: Seq<ColumnId>,
    ) -> Seq<Seq<Seq<u8>>> {
        cells_of(self.indexed(), bytes, self.layout(), self.keys(), rows, columns)
    }

    /// Whether apart from the index, the count and the view nothing has changed.
    pub open spec fn same_table(&self, other: &JsonState) -> bool {
        &&& self.layout() == other.layout()
        &&& self.columns() == other.columns()
        &&& self.keys() == other.keys()
    }

    /// A table whose source has just been opened: the columns are known, nothing is counted.
    pub fn new(bytes: &[u8], records: Records) -> (r: JsonState)
        ensures
            r.layout() == records,
            crate::table::column_views(r.columns()) == columns_from(sample_of(bytes@, records)),
            r.keys() == column_keys(sample_of(bytes@, records)),
            r.indexed() is None,
            r.counted() == 0,
            r.slot().shown() is None,
            !r.slot().is_building(),
            r.slot().current() == 0,
    {
        let (schema, columns) = derive_columns(bytes, records);
        JsonState { records, schema, columns, index: None, frontier: 0, view: ViewSlot::new() }
    }

    /// Takes note of how far the building of the index has come.
    pub fn note_progress(&mut self, progress: Progress)
        ensures
            final(self).counted() == progress.rows_indexed,
            final(self).indexed() == old(self).indexed(),
            final(self).same_table(old(self)),
            final(self).slot() == old(self).slot(),
    {
        self.frontier = progress.rows_indexed;
    }

    /// Installs the index.
    pub fn set_index(&mut self, index: RecordIndex)
        ensures
            final(self).indexed() == Some(index@),
            final(self).counted() == index@.row_count,
            final(self).same_table(old(self)),
            final(self).slot() == old(self).slot(),
    {
        self.frontier = index.row_count();
        self.index = Some(index);
    }

    /// How the records of the source are found.
    pub fn records(&self) -> (r: Records)
        ensures
            r == self.layout(),
    {
        self.records
    }

    /// The columns.
    pub fn schema(&self) -> (schema: &Schema)
        ensures
            schema.columns@ == self.columns(),
    {
        &self.schema
    }

    /// The keys of the columns.
    pub fn column_keys(&self) -> (r: &Vec<ColumnKey>)
        ensures
            key_views(r@) == self.keys(),
    {
        &self.columns
    }

    /// The number of rows of the active view.
    pub fn row_count(&self) -> (count: RowCount)
        ensures
            count == self.rows(),
    {
        match self.view.len() {
            Some(n) => RowCount::Exact(n),
            None => self.source_count(),
        }
    }

    /// The number of rows of the source, whatever view is active.
    pub fn source_count(&self) -> (count: RowCount)
        ensures
            count == self.source_rows(),
    {
        match &self.index {
            Some(index) => RowCount::Exact(index.row_count()),
            None => RowCount::AtLeast(self.frontier),
        }
    }

    /// What is known of the quality of the data: records of JSON are never ragged.
    pub fn data_quality(&self) -> (quality: DataQuality)
        ensures
            quality == (DataQuality { ragged_rows: 0, complete: self.indexed() is Some }),
    {
        DataQuality { ragged_rows: 0, complete: self.index.is_some() }
    }

    /// Fetches rows in the order that they are given in, unless it is cancelled meanwhile. Without a
    /// token it is not cancelled.
    pub fn fetch_data_rows(
        &self,
        bytes: &[u8],
        data_rows: &[u64],
        columns: &[ColumnId],
        cancel: Option<&CancellationToken>,
    ) -> (r: Result<Viewport, Error>)
        ensures
            match r {
                Ok(viewport) => viewport@ == self.cells(bytes@, data_rows@, columns@),
                Err(e) => e is Cancelled && cancel is Some && self.cells(bytes@, data_rows@, columns@).len() > 0,
            },
    {
        match &self.index {
            Some(index) => fetch_indexed(
                index,
                bytes,
                self.records,
                &self.columns,
                data_rows,
                columns,
                cancel,
            ),
            None => fetch_from_head(
                bytes,
                self.records,
                &self.columns,
                data_rows,
                columns,
                cancel,
            ),
        }
    }

    /// Fetches rows of the active view, unless it is cancelled meanwhile.
    pub fn fetch(&self, bytes: &[u8], request: &ViewportRequest, cancel: &CancellationToken) -> (r:
        Result<Viewport, Error>)
        ensures
            match r {
                Ok(viewport) => viewport@ == self.cells(
                    bytes@,
                    crate::view::resolved(self.slot().shown(), request.rows),
                    request.columns@,
                ),
                Err(e) => e is Cancelled && self.cells(
                    bytes@,
                    crate::view::resolved(self.slot().shown(), request.rows),
                    request.columns@,
                ).len() > 0,
            },
    {
        let data_rows = self.view.resolve(request.rows);
        self.fetch_data_rows(bytes, data_rows.as_slice(), request.columns.as_slice(), Some(cancel))
    }

    /// Fetches rows in the order of the source, unless it is cancelled meanwhile.
    pub fn fetch_source(
        &self,
        bytes: &[u8],
        request: &ViewportRequest,
        cancel: &CancellationToken,
    ) -> (r: Result<Viewport, Error>)
        ensures
            match r {
                Ok(viewport) => viewport@ == self.cells(
                    bytes@,
                    crate::view::contiguous(request.rows),
                    request.columns@,
                ),
                Err(e) => e is Cancelled && self.cells(
                    bytes@,
                    crate::view::contiguous(request.rows),
                    request.columns@,
                ).len() > 0,
            },
    {
        let data_rows = contiguous_rows(request.rows);
        self.fetch_data_rows(bytes, data_rows.as_slice(), request.columns.as_slice(), Some(cancel))
    }

    /// Asks for a view.
    pub fn begin_view(&mut self, spec: &ViewSpec) -> (r: Result<Option<ViewJob>, Error>)
        ensures
            final(self).same_table(old(self)),
            final(self).indexed() == old(self).indexed(),
            final(self).counted() == old(self).counted(),
            crate::view::planned(old(self).slot(), final(self).slot(), *spec, r),
    {
        self.view.plan(spec)
    }

    /// Ends a job, with the rows that it built or without any. A job that is not the last one
    /// changes nothing.
    pub fn finish_view(&mut self, id: u64, rows: Option<Vec<u64>>)
        ensures
            final(self).same_table(old(self)),
            final(self).indexed() == old(self).indexed(),
            final(self).counted() == old(self).counted(),
            final(self).slot().current() == old(self).slot().current(),
            id != old(self).slot().current() ==> final(self).slot() == old(self).slot(),
            id == old(self).slot().current() ==> !final(self).slot().is_building(),
            id == old(self).slot().current() ==> final(self).slot().shown() == match rows {
                Some(r) => Some(r@),
                None => old(self).slot().shown(),
            },
    {
        self.view.finish(id, rows);
    }

    /// Returns to the order of the source.
    pub fn clear_view(&mut self)
        ensures
            final(self).same_table(old(self)),
            final(self).indexed() == old(self).indexed(),
            final(self).counted() == old(self).counted(),
            final(self).slot().shown() is None,
            !final(self).slot().is_building(),
            final(self).slot().current() == crate::view::next_job(old(self).slot().current()),
    {
        self.view.clear();
    }

    /// How the work on a view stands.
    pub fn view_status(&self) -> (status: ViewStatus)
        ensures
            status.building == self.slot().is_building(),
    {
        ViewStatus { building: self.view.building() }
    }
}

/// A table over JSON in memory.
pub struct JsonTable {
    bytes: Vec<u8>,
    state: JsonState,
}

impl JsonTable {
    /// The bytes of the source.
    pub closed spec fn source(&self) -> Seq<u8> {
        self.bytes@
    }

    /// The state of the table.
    pub closed spec fn state(&self) -> JsonState {
        self.state
    }

    /// A table over bytes whose records are found in the given way, with its index.
    pub fn with_records(bytes: Vec<u8>, records: Records) -> (r: Result<JsonTable, Error>)
        ensures
            r matches Ok(table) && {
                &&& table.source() == bytes@
                &&& table.state().layout() == records
                &&& crate::table::column_views(table.state().columns()) == columns_from(
                    sample_of(bytes@, records),
                )
                &&& table.state().keys() == column_keys(sample_of(bytes@, records))
                &&& table.state().indexed() == Some(record_index_over(bytes@, records))
                &&& table.state().slot().shown() is None
                &&& !table.state().slot().is_building()
            },
    {
        let mut state = JsonState::new(bytes.as_slice(), records);
        match RecordIndex::build(bytes.as_slice(), records) {
            Ok(index) => {
                state.set_index(index);
                Ok(JsonTable { bytes, state })
            },
            Err(e) => Err(e),
        }
    }

    /// A table over bytes, with its index.
    pub fn from_bytes(bytes: Vec<u8>) -> (r: Result<JsonTable, Error>)
        ensures
            r matches Ok(table) && {
                let records = records_of(bytes@);
                &&& table.source() == bytes@
                &&& table.state().layout() == records
                &&& crate::table::column_views(table.state().columns()) == columns_from(
                    sample_of(bytes@, records),
                )
                &&& table.state().keys() == column_keys(sample_of(bytes@, records))
                &&& table.state().indexed() == Some(record_index_over(bytes@, records))
                &&& table.state().slot().shown() is None
                &&& !table.state().slot().is_building()
            },
    {
        let records = detect(bytes.as_slice());
        JsonTable::with_records(bytes, records)
    }

    /// How the source is laid out.
    pub fn mode(&self) -> (mode: JsonMode)
        ensures
            mode == self.state().layout().mode,
    {
        self.state.records().mode
    }

    /// Shows a view. A search that does not compile is refused, and nothing changes.
    pub fn set_view(&mut self, spec: &ViewSpec) -> (r: Result<(), Error>)
        ensures
            final(self).source() == old(self).source(),
            final(self).state().same_table(&old(self).state()),
            final(self).state().indexed() == old(self).state().indexed(),
            final(self).state().counted() == old(self).state().counted(),
            r is Ok <==> crate::view::compiles(*spec),
            r is Ok ==> final(self).state().slot().current() == crate::view::next_job(
                old(self).state().slot().current(),
            ),
            r is Ok ==> crate::view::shows(
                final(self).state().slot(),
                grid_of(
                    old(self).source(),
                    old(self).state().layout(),
                    old(self).state().keys(),
                ),
                *spec,
            ),
            r matches Err(e) ==> {
                &&& final(self).state().slot() == old(self).state().slot()
                &&& e matches Error::InvalidPattern(text)
                &&& (spec.filter->0).texts() == Err::<Set<Seq<u8>>, Seq<char>>(text@)
            },
    {
        match self.state.begin_view(spec) {
            Err(e) => Err(e),
            Ok(None) => Ok(()),
            Ok(Some(job)) => {
                let built = build_view(
                    self.bytes.as_slice(),
                    self.state.records(),
                    self.state.column_keys(),
                    &job.matcher,
                    job.sort,
                    None,
                );
                match built {
                    Ok(rows) => {
                        self.state.finish_view(job.id, Some(rows));
                        Ok(())
                    },
                    Err(e) => Err(e),
                }
            },
        }
    }

    /// Returns to the order of the source.
    pub fn clear_view(&mut self)
        ensures
            final(self).source() == old(self).source(),
            final(self).state().same_table(&old(self).state()),
            final(self).state().indexed() == old(self).state().indexed(),
            final(self).state().counted() == old(self).state().counted(),
            final(self).state().slot().shown() is None,
            !final(self).state().slot().is_building(),
            final(self).state().slot().current() == crate::view::next_job(
                old(self).state().slot().current(),
            ),
    {
        self.state.clear_view();
    }

    /// How the work on a view stands.
    pub fn view_status(&self) -> (status: ViewStatus)
        ensures
            status.building == self.state().slot().is_building(),
    {
        self.state.view_status()
    }
}

/// Whether a table has the index over its source.
pub open spec fn is_indexed(table: &JsonTable) -> bool {
    table.state().indexed() == Some(record_index_over(table.source(), table.state().layout()))
}

/// Whether the active view of a table shows rows of the table.
pub open spec fn has_own_rows(table: &JsonTable) -> bool {
    table.state().slot().shown() matches Some(rows) ==> {
        &&& rows.len() <= u64::MAX
        &&& forall|i: int|
            0 <= i < rows.len() ==> #[trigger] rows[i] < table.state().layout().spans(
                table.source(),
            ).len()
    }
}

/// A view that was asked for shows rows of the table.
pub proof fn asked_views_have_own_rows(table: &JsonTable, spec: ViewSpec)
    requires
        table.source().len() <= usize::MAX,
        crate::view::shows(
            table.state().slot(),
            grid_of(table.source(), table.state().layout(), table.state().keys()),
            spec,
        ),
    ensures
        has_own_rows(table),
{
    let layout = table.state().layout();
    crate::json_scan::lemma_spans(layout.mode, table.source(), layout.body_start as int);
    if let Some(rows) = table.state().slot().shown() {
        crate::view::views_show_rows_of_the_table(
            grid_of(table.source(), layout, table.state().keys()),
            crate::view::wanted(spec),
            spec.sort,
            rows,
        );
    }
}

/// The cells of a row of a table.
pub open spec fn row_cells(table: &JsonTable, row: int, columns: Seq<ColumnId>) -> Seq<Seq<u8>> {
    let state = table.state();
    cells_at(state.indexed(), table.source(), state.layout(), state.keys(), row, columns)->0
}

/// Where all rows are rows of the table, each of them has its cells.
pub(crate) proof fn lemma_own_rows(table: &JsonTable, rows: Seq<u64>, columns: Seq<ColumnId>)
    requires
        table.source().len() <= u64::MAX,
        is_indexed(table),
        forall|i: int|
            0 <= i < rows.len() ==> #[trigger] rows[i] < table.state().layout().spans(
                table.source(),
            ).len(),
    ensures
        table.state().cells(table.source(), rows, columns) == rows.map_values(
            |r: u64| row_cells(table, r as int, columns),
        ),
    decreases rows.len(),
{
    let all = rows.map_values(|r: u64| row_cells(table, r as int, columns));
    if rows.len() > 0 {
        let front = rows.drop_last();
        assert forall|i: int| 0 <= i < front.len() implies #[trigger] front[i]
            < table.state().layout().spans(table.source()).len() by {
            assert(front[i] == rows[i]);
        }
        lemma_own_rows(table, front, columns);
        assert(rows[rows.len() - 1] == rows.last());
        record_index_finds_records(table.source(), table.state().layout(), rows.last() as int);
    }
    assert(table.state().cells(table.source(), rows, columns) =~= all);
}

impl ViewportSource for JsonTable {
    open spec fn reliable(&self) -> bool {
        true
    }

    open spec fn wf(&self) -> bool {
        true
    }

    open spec fn columns(&self) -> Seq<Column> {
        self.state().columns()
    }

    open spec fn rows(&self) -> RowCount {
        self.state().rows()
    }

    open spec fn source_rows(&self) -> RowCount {
        self.state().source_rows()
    }

    open spec fn shown(&self, range: RowRange, columns: Seq<ColumnId>) -> Seq<Seq<Seq<u8>>> {
        self.state().cells(
            self.source(),
            crate::view::resolved(self.state().slot().shown(), range),
            columns,
        )
    }

    open spec fn stored(&self, range: RowRange, columns: Seq<ColumnId>) -> Seq<Seq<Seq<u8>>> {
        self.state().cells(self.source(), crate::view::contiguous(range), columns)
    }

    open spec fn quality(&self) -> DataQuality {
        DataQuality { ragged_rows: 0, complete: self.state().indexed() is Some }
    }

    fn schema(&self) -> (schema: &Schema) {
        self.state.schema()
    }

    fn row_count(&self) -> (count: RowCount) {
        self.state.row_count()
    }

    fn source_count(&self) -> (count: RowCount) {
        self.state.source_count()
    }

    fn fetch(&self, request: &ViewportRequest, cancel: &CancellationToken) -> (r: Result<
        Viewport,
        Error,
    >) {
        self.state.fetch(self.bytes.as_slice(), request, cancel)
    }

    fn fetch_source(&self, request: &ViewportRequest, cancel: &CancellationToken) -> (r: Result<
        Viewport,
        Error,
    >) {
        self.state.fetch_source(self.bytes.as_slice(), request, cancel)
    }

    fn data_quality(&self) -> (quality: DataQuality) {
        self.state.data_quality()
    }
}

/// What is shown of a source of records are its records, one row for each, and of each the columns
/// that are asked for: what the column's key shows of the record in that piece of the source.
pub proof fn cells_show_the_records(
    bytes: Seq<u8>,
    records: Records,
    keys: Seq<Option<Seq<char>>>,
    rows: Seq<u64>,
    columns: Seq<ColumnId>,
    k: int,
    c: int,
)
    requires
        forall|i: int| 0 <= i < rows.len() ==> #[trigger] rows[i] < records.spans(bytes).len(),
        0 <= k < rows.len(),
        0 <= c < columns.len(),
    ensures
        ({
            let cells = cells_of(None, bytes, records, keys, rows, columns);
            let span = records.spans(bytes)[rows[k] as int];
            let record = crate::json_value::json_record(bytes.subrange(span.start, span.end));
            &&& cells.len() == rows.len()
            &&& cells[k].len() == columns.len()
            &&& columns[c].0 < keys.len() ==> cells[k][c] == crate::json_value::column_rendering(
                record,
                keys[columns[c].0 as int],
            )
            &&& columns[c].0 >= keys.len() ==> cells[k][c].len() == 0
        }),
    decreases rows.len(),
{
    let front = rows.drop_last();
    let cells = cells_of(None, bytes, records, keys, rows, columns);
    assert(rows.last() < records.spans(bytes).len());
    assert forall|i: int| 0 <= i < front.len() implies #[trigger] front[i] < records.spans(
        bytes,
    ).len() by {
        assert(front[i] == rows[i]);
    }
    lemma_as_many_cells(bytes, records, keys, front, columns);
    if k < front.len() {
        cells_show_the_records(bytes, records, keys, front, columns, k, c);
        assert(cells[k] == cells_of(None, bytes, records, keys, front, columns)[k]);
    }
}

proof fn lemma_as_many_cells(
    bytes: Seq<u8>,
    records: Records,
    keys: Seq<Option<Seq<char>>>,
    rows: Seq<u64>,
    columns: Seq<ColumnId>,
)
    requires
        forall|i: int| 0 <= i < rows.len() ==> #[trigger] rows[i] < records.spans(bytes).len(),
    ensures
        cells_of(None, bytes, records, keys, rows, columns).len() == rows.len(),
    decreases rows.len(),
{
    if rows.len() > 0 {
        let front = rows.drop_last();
        assert(rows.last() < records.spans(bytes).len());
        assert forall|i: int| 0 <= i < front.len() implies #[trigger] front[i] < records.spans(
            bytes,
        ).len() by {
            assert(front[i] == rows[i]);
        }
        lemma_as_many_cells(bytes, records, keys, front, columns);
    }
}

/// Where the fields of a record begin among those of all records.
spec fn entries_before(records: Seq<Option<RecordView>>, r: int) -> int {
    entries_of(records.take(r)).len() as int
}

proof fn lemma_entry(records: Seq<Option<RecordView>>, r: int, f: int)
    requires
        0 <= r < records.len(),
        0 <= f < object_fields(records[r]).len(),
    ensures
        0 <= entries_before(records, r),
        entries_before(records, r) + f < entries_of(records).len(),
        entries_of(records)[entries_before(records, r) + f] == object_fields(records[r])[f],
    decreases records.len(),
{
    if r == records.len() - 1 {
        assert(records.take(r) =~= records.drop_last());
    } else {
        let front = records.drop_last();
        lemma_entry(front, r, f);
        assert(front.take(r) =~= records.take(r));
    }
}

proof fn lemma_entry_from(records: Seq<Option<RecordView>>, e: int) -> (at: (int, int))
    requires
        0 <= e < entries_of(records).len(),
    ensures
        0 <= at.0 < records.len(),
        0 <= at.1 < object_fields(records[at.0]).len(),
        e == entries_before(records, at.0) + at.1,
        entries_of(records)[e] == object_fields(records[at.0])[at.1],
    decreases records.len(),
{
    let front = records.drop_last();
    let n = entries_of(front).len() as int;
    if e < n {
        let at = lemma_entry_from(front, e);
        assert(front.take(at.0) =~= records.take(at.0));
        at
    } else {
        assert(records.take(records.len() - 1) =~= front);
        (records.len() - 1, e - n)
    }
}

/// Every key of the objects at the head of a source has a column, and every column of such a source
/// the key of one of them; no two columns have the same key, and each is named by its key. Without an
/// object there is one column for whole values.
pub proof fn columns_are_the_keys_of_the_objects(
    sample: Seq<Option<RecordView>>,
    r: int,
    f: int,
    key: Seq<char>,
    c: int,
)
    ensures
        columns_from(sample).len() == column_keys(sample).len(),
        column_keys(sample).no_duplicates(),
        has_field(sample, (r, f), key) ==> column_keys(sample).contains(Some(key)),
        0 <= r < sample.len() && (sample[r] matches Some(record) && record.fields is Some) && 0 <= c
            < column_keys(sample).len() ==> (column_keys(sample)[c] matches Some(key) && columns_from(sample)[c].name
            == vstd::utf8::encode_utf8(key) && exists|at: (int, int)| #[trigger]
            has_field(sample, at, key)),
        (forall|i: int|
            0 <= i < sample.len() ==> (#[trigger] sample[i] matches Some(record)
                ==> record.fields is None)) ==> column_keys(
            sample,
        ) == seq![None::<Seq<char>>] && columns_from(sample)[0].name == seq![
            0x76u8,
            0x61,
            0x6c,
            0x75,
            0x65,
        ],
{
    let entries = entries_of(sample);
    let seen = first_seen(entries);
    keys_are_seen_once(entries);
    let keys = column_keys(sample);
    if any_object(sample) {
        assert forall|i: int, j: int| 0 <= i < j < keys.len() implies keys[i] != keys[j] by {
            assert(keys[i] == Some(seen[i]) && keys[j] == Some(seen[j]));
        }
        if has_field(sample, (r, f), key) {
            lemma_entry(sample, r, f);
            let e = entries_before(sample, r) + f;
            assert(seen.contains(entries[e].0));
            let k = seen.index_of(entries[e].0);
            assert(keys[k] == Some(entries[e].0));
        }
        if 0 <= c < keys.len() {
            let e = lemma_seen_from(entries, c);
            let at = lemma_entry_from(sample, e);
            assert(has_field(sample, at, seen[c]));
        }
    } else {
        reveal_strlit("value");
        vstd::utf8::is_ascii_chars_encode_utf8("value"@);
        assert(vstd::utf8::encode_utf8("value"@) =~= seq![0x76u8, 0x61, 0x6c, 0x75, 0x65]);
        if 0 <= r < sample.len() {
            assert(!is_object(sample[r]));
        }
    }
    if any_object(sample) {
        let i = choose|i: int| 0 <= i < sample.len() && is_object(#[trigger] sample[i]);
        assert((sample[i]->0).fields is Some);
    }
}

/// Whether a field of a record has a key.
pub open spec fn has_field(sample: Seq<Option<RecordView>>, at: (int, int), key: Seq<char>) -> bool {
    &&& 0 <= at.0 < sample.len()
    &&& sample[at.0] matches Some(record)
    &&& record.fields matches Some(fields)
    &&& 0 <= at.1 < fields.len()
    &&& fields[at.1].0 == key
}

/// Where a key is seen first.
proof fn lemma_seen_from(entries: Seq<(Seq<char>, ValueView)>, c: int) -> (e: int)
    requires
        0 <= c < first_seen(entries).len(),
    ensures
        0 <= e < entries.len(),
        entries[e].0 == first_seen(entries)[c],
        forall|j: int, k: int|
            #![trigger entries[j], first_seen(entries)[k]]
            0 <= j <= e && c < k < first_seen(entries).len() ==> entries[j].0 != first_seen(
                entries,
            )[k],
    decreases entries.len(),
{
    let rest = entries.drop_last();
    let before = first_seen(rest);
    let all = first_seen(entries);
    keys_are_seen_once(entries);
    keys_are_seen_once(rest);
    if c < before.len() {
        let e = lemma_seen_from(rest, c);
        assert forall|j: int, k: int|
            #![trigger entries[j], all[k]]
            0 <= j <= e && c < k < all.len() implies entries[j].0 != all[k] by {
            assert(rest[j] == entries[j]);
            if k < before.len() {
                assert(before[k] == all[k]);
            } else {
                assert(before.contains(rest[j].0));
            }
        }
        e
    } else {
        entries.len() - 1
    }
}

/// Columns come in the order in which their keys come first: a key of an earlier column stands
/// somewhere before every field with the key of a later one.
pub proof fn columns_come_in_order_of_their_keys(
    sample: Seq<Option<RecordView>>,
    c: int,
    d: int,
) -> (first: (int, int))
    requires
        0 <= c < d < column_keys(sample).len(),
    ensures
        column_keys(sample)[c] matches Some(key) && has_field(sample, first, key),
        forall|at: (int, int)| #[trigger]
            has_field(sample, at, column_keys(sample)[d]->0) ==> first.0 < at.0 || (first.0 == at.0
                && first.1 < at.1),
{
    let entries = entries_of(sample);
    let seen = first_seen(entries);
    let e = lemma_seen_from(entries, c);
    let first = lemma_entry_from(sample, e);
    assert forall|at: (int, int)| #[trigger] has_field(sample, at, seen[d]) implies first.0 < at.0 || (
    first.0 == at.0 && first.1 < at.1) by {
        lemma_entry(sample, at.0, at.1);
        let j = entries_before(sample, at.0) + at.1;
        assert(entries[j].0 == seen[d]);
        assert(j > e);
        if at.0 < first.0 {
            lemma_entries_rise(sample, at.0, first.0);
        }
    }
    first
}

proof fn lemma_entries_rise(records: Seq<Option<RecordView>>, r: int, s: int)
    requires
        0 <= r < s <= records.len(),
    ensures
        entries_before(records, r) + object_fields(records[r]).len() <= entries_before(records, s),
    decreases s - r,
{
    let upto = records.take(s);
    assert(upto.drop_last() =~= records.take(s - 1));
    if r < s - 1 {
        lemma_entries_rise(records, r, s - 1);
    } else {
        assert(upto.last() == records[r]);
    }
}

/// At the head of a source its first 200 records are looked at, in their order.
pub proof fn two_hundred_records_are_looked_at(bytes: Seq<u8>, records: Records, i: int)
    ensures
        ({
            let spans = records.spans(bytes);
            let sample = sample_of(bytes, records);
            &&& spans.len() <= 200 ==> sample.len() == spans.len()
            &&& spans.len() > 200 ==> sample.len() == 200
            &&& 0 <= i < sample.len() ==> sample[i] == crate::json_value::json_record(
                bytes.subrange(spans[i].start, spans[i].end),
            )
        }),
{
}

/// Whether the values with a key, of all fields of all records, are of a sort: `fits` holds of every
/// one that is not `null`.
pub open spec fn every_value(
    sample: Seq<Option<RecordView>>,
    key: Seq<char>,
    fits: spec_fn(ValueView) -> bool,
) -> bool {
    forall|at: (int, int)| #[trigger]
        has_field(sample, at, key) ==> {
            let value = (sample[at.0]->0).fields->0[at.1].1;
            value is Null || fits(value)
        }
}

/// What the column of a key looks like is what every one of its values looks like that is not
/// `null`: whole numbers, else numbers, else truth values, else text; and text where all are `null`.
pub proof fn key_types_fit_every_value(sample: Seq<Option<RecordView>>, key: Seq<char>)
    ensures
        ({
            let found = crate::json_value::key_type(entries_of(sample), key);
            let any = exists|at: (int, int)| #[trigger]
                has_field(sample, at, key) && !((sample[at.0]->0).fields->0[at.1].1 is Null);
            let whole = every_value(
                sample,
                key,
                |v: ValueView|
                    v matches ValueView::Number { signed, unsigned, .. } && (signed || unsigned),
            );
            let number = every_value(sample, key, |v: ValueView| v is Number);
            let truth = every_value(sample, key, |v: ValueView| v is Bool);
            &&& found is Integer <==> any && whole
            &&& found is Float <==> any && number && !whole
            &&& found is Boolean <==> any && truth && !number && !whole
            &&& found is Text <==> !any || (!whole && !number && !truth)
        }),
{
    let entries = entries_of(sample);
    let whole = |v: ValueView|
        v matches ValueView::Number { signed, unsigned, .. } && (signed || unsigned);
    let number = |v: ValueView| v is Number;
    let truth = |v: ValueView| v is Bool;
    lemma_every_value(sample, key, whole);
    lemma_every_value(sample, key, number);
    lemma_every_value(sample, key, truth);
    assert(crate::json_value::all_int(entries, key) == every_value(sample, key, whole));
    assert(crate::json_value::all_number(entries, key) == every_value(sample, key, number));
    assert(crate::json_value::all_bool(entries, key) == every_value(sample, key, truth));
    if crate::json_value::any_value(entries, key) {
        let e = choose|e: int|
            0 <= e < entries.len() && (#[trigger] entries[e]).0 == key && !(entries[e].1 is Null);
        let at = lemma_entry_from(sample, e);
        assert(has_field(sample, at, key));
    }
    if exists|at: (int, int)| #[trigger]
        has_field(sample, at, key) && !((sample[at.0]->0).fields->0[at.1].1 is Null) {
        let at = choose|at: (int, int)| #[trigger]
            has_field(sample, at, key) && !((sample[at.0]->0).fields->0[at.1].1 is Null);
        lemma_entry(sample, at.0, at.1);
        assert(entries[entries_before(sample, at.0) + at.1].0 == key);
    }
}

proof fn lemma_every_value(
    sample: Seq<Option<RecordView>>,
    key: Seq<char>,
    fits: spec_fn(ValueView) -> bool,
)
    ensures
        every_value(sample, key, fits) <==> forall|e: int|
            0 <= e < entries_of(sample).len() && (#[trigger] entries_of(sample)[e]).0 == key
                ==> entries_of(sample)[e].1 is Null || fits(entries_of(sample)[e].1),
{
    let entries = entries_of(sample);
    if every_value(sample, key, fits) {
        assert forall|e: int| 0 <= e < entries.len() && (#[trigger] entries[e]).0
            == key implies entries[e].1 is Null || fits(entries[e].1) by {
            let at = lemma_entry_from(sample, e);
            assert(has_field(sample, at, key));
        }
    }
    if forall|e: int|
        0 <= e < entries.len() && (#[trigger] entries[e]).0 == key ==> entries[e].1 is Null || fits(
            entries[e].1,
        ) {
        assert forall|at: (int, int)| #[trigger] has_field(sample, at, key) implies ({
            let value = (sample[at.0]->0).fields->0[at.1].1;
            value is Null || fits(value)
        }) by {
            lemma_entry(sample, at.0, at.1);
            assert(entries[entries_before(sample, at.0) + at.1].0 == key);
        }
    }
}

/// A source is an array where its first byte, behind a byte order mark and white space, is an opening
/// bracket, and what follows that, behind white space, begins a value, closes the array or has yet to
/// come; its elements then begin behind the bracket.
pub proof fn arrays_begin_with_a_bracket(head: Seq<u8>, first: int, second: int)
    requires
        head.len() <= usize::MAX - 1,
        (if head.len() >= 3 && head[0] == 0xef && head[1] == 0xbb && head[2] == 0xbf {
            3int
        } else {
            0
        }) <= first < second <= head.len(),
        forall|j: int|
            (if head.len() >= 3 && head[0] == 0xef && head[1] == 0xbb && head[2] == 0xbf {
                3int
            } else {
                0
            }) <= j < first ==> seq![0x09u8, 0x0a, 0x0c, 0x0d, 0x20].contains(#[trigger] head[j]),
        head[first] == 0x5b,
        forall|j: int|
            first < j < second ==> seq![0x09u8, 0x0a, 0x0c, 0x0d, 0x20].contains(#[trigger] head[j]),
    ensures
        second == head.len() || head[second] == 0x22 || head[second] == 0x5b || head[second] == 0x5d
            || head[second] == 0x7b || head[second] == 0x2d || 0x30 <= head[second] <= 0x39
            || head[second] == 0x74 || head[second] == 0x66 || head[second] == 0x6e ==> layout_of(head)
            == Some(JsonMode::Array) && records_of(head).mode is Array && records_of(head).body_start
            == first + 1,
        second < head.len() && (0x41 <= head[second] <= 0x5a || head[second] == 0x2c) ==> layout_of(head)
            is None,
{
    let from = crate::records::mark_len(head);
    assert forall|j: int| from <= j < first implies crate::json_scan::is_space(
        #[trigger] head[j],
    ) by {
        assert(seq![0x09u8, 0x0a, 0x0c, 0x0d, 0x20].contains(head[j]));
    }
    assert forall|j: int| first < j < second implies crate::json_scan::is_space(
        #[trigger] head[j],
    ) by {
        assert(seq![0x09u8, 0x0a, 0x0c, 0x0d, 0x20].contains(head[j]));
    }
    lemma_first_solid_at(head, from, first);
    if second == head.len() || !crate::json_scan::is_space(head[second]) {
        lemma_first_solid_at(head, first + 1, second);
    }
}

proof fn lemma_first_solid_at(bytes: Seq<u8>, i: int, at: int)
    requires
        0 <= i <= at <= bytes.len(),
        forall|j: int| i <= j < at ==> crate::json_scan::is_space(#[trigger] bytes[j]),
        at < bytes.len() ==> !crate::json_scan::is_space(bytes[at]),
    ensures
        first_solid(bytes, i) == at,
    decreases at - i,
{
    if i < at {
        assert(crate::json_scan::is_space(bytes[i]));
        lemma_first_solid_at(bytes, i + 1, at);
    }
}

/// A source whose first byte, behind a byte order mark and white space, is an opening brace has one
/// record on each line exactly where the rest of that line is JSON; its records then begin behind the
/// mark. One that begins with anything but a bracket or a brace is no JSON.
pub proof fn lines_begin_with_a_whole_object(head: Seq<u8>, first: int, end: int)
    requires
        head.len() <= usize::MAX - 1,
        (if head.len() >= 3 && head[0] == 0xef && head[1] == 0xbb && head[2] == 0xbf {
            3int
        } else {
            0
        }) <= first <= end <= head.len(),
        forall|j: int|
            (if head.len() >= 3 && head[0] == 0xef && head[1] == 0xbb && head[2] == 0xbf {
                3int
            } else {
                0
            }) <= j < first ==> seq![0x09u8, 0x0a, 0x0c, 0x0d, 0x20].contains(#[trigger] head[j]),
        first < head.len() ==> !seq![0x09u8, 0x0a, 0x0c, 0x0d, 0x20].contains(head[first]),
        forall|j: int| first <= j < end ==> #[trigger] head[j] != 0x0a,
        end < head.len() ==> head[end] == 0x0a,
    ensures
        first < head.len() && head[first] == 0x7b ==> {
            let line = crate::json_value::json_record(head.subrange(first, end));
            &&& line is Some ==> layout_of(head) == Some(JsonMode::Lines)
            &&& line is None ==> layout_of(head) is None
        },
        first == head.len() || (head[first] != 0x7b && head[first] != 0x5b) ==> layout_of(head) is None,
        first == head.len() || head[first] != 0x5b ==> records_of(head).mode is Lines && records_of(
            head,
        ).body_start == if head.len() >= 3 && head[0] == 0xef && head[1] == 0xbb && head[2] == 0xbf {
            3int
        } else {
            0
        },
{
    let spaces = seq![0x09u8, 0x0a, 0x0c, 0x0d, 0x20];
    assert(spaces[0] == 0x09 && spaces[1] == 0x0a && spaces[2] == 0x0c && spaces[3] == 0x0d
        && spaces[4] == 0x20);
    let from = crate::records::mark_len(head);
    assert forall|j: int| from <= j < first implies crate::json_scan::is_space(
        #[trigger] head[j],
    ) by {
        assert(spaces.contains(head[j]));
    }
    lemma_first_solid_at(head, from, first);
    if first < head.len() {
        crate::json_scan::lemma_line_end_at(head, first, end);
    }
}

/// A table over JSON with its index has as many rows as its source has records, and a view as many as
/// it shows; no row is ragged.
pub proof fn json_tables_count_their_records(table: &JsonTable)
    requires
        is_indexed(table),
        table.source().len() <= u64::MAX,
    ensures
        table.source_rows() matches RowCount::Exact(n) && n == crate::json_scan::spans_from(
            table.state().layout().mode,
            table.source(),
            table.state().layout().body_start as int,
        ).len(),
        table.state().slot().shown() is None ==> table.rows() == table.source_rows(),
        table.state().slot().shown() matches Some(view) ==> view.len() <= u64::MAX ==> (
        table.rows() matches RowCount::Exact(n) && n == view.len()),
        table.quality().ragged_rows == 0 && table.quality().complete,
{
    crate::json_scan::lemma_spans(
        table.state().layout().mode,
        table.source(),
        table.state().layout().body_start as int,
    );
}

/// Until the index is there, the records counted so far are a lower bound of the rows of a table over
/// JSON.
pub proof fn unindexed_json_tables_count_a_lower_bound(table: &JsonTable)
    requires
        table.state().indexed() is None,
    ensures
        table.source_rows() == RowCount::AtLeast(table.state().counted()),
        !table.quality().complete,
        table.quality().ragged_rows == 0,
{
}

/// The keys of columns and the contents of texts are those of each of them, in their order.
pub proof fn keys_are_those_of_each_column(columns: Seq<ColumnKey>, list: Seq<String>, i: int)
    ensures
        key_views(columns).len() == columns.len(),
        0 <= i < columns.len() ==> (key_views(columns)[i] matches Some(key) ==> (
        columns[i].key matches Some(own) && own@ == key)),
        0 <= i < columns.len() ==> (key_views(columns)[i] is None <==> columns[i].key is None),
        text_views(list).len() == list.len(),
        0 <= i < list.len() ==> text_views(list)[i] == list[i]@,
{
}

} // verus!
