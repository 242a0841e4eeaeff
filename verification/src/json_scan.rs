//! Where the records of a JSON source begin and end: one value on each line, or the elements of one
//! array. Nothing is parsed for that.
use vstd::prelude::*;

verus! {

/// `memchr::memchr` finds the first place of a byte.
pub assume_specification[ memchr::memchr ](needle: u8, haystack: &[u8]) -> (found: Option<usize>)
    ensures
        found matches Some(i) ==> i < haystack@.len() && haystack@[i as int] == needle && forall|j:
            int|
            0 <= j < i ==> haystack@[j] != needle,
        found is None ==> forall|j: int| 0 <= j < haystack@.len() ==> haystack@[j] != needle,
;

/// How the records of a source are laid out.
#[derive(Clone, Copy, Debug, PartialEq, Eq, Structural)]
pub enum JsonMode {
    /// One value on each line.
    Lines,
    /// The elements of one array.
    Array,
}

/// Whether a byte is white space in ASCII.
pub open spec fn is_space(b: u8) -> bool {
    b == 0x20 || b == 0x09 || b == 0x0a || b == 0x0c || b == 0x0d
}

/// Whether a byte is white space in ASCII.
pub fn space(b: u8) -> (r: bool)
    ensures
        r == is_space(b),
{
    b == 0x20 || b == 0x09 || b == 0x0a || b == 0x0c || b == 0x0d
}

/// Where a record begins, where it ends, and where scanning goes on.
pub struct Span {
    pub start: int,
    pub end: int,
    pub next: int,
}

/// Where the line at `pos` ends: at the next line feed, or at the end of the source.
pub open spec fn line_end(bytes: Seq<u8>, pos: int) -> int
    decreases bytes.len() - pos,
{
    if pos < 0 || pos >= bytes.len() {
        bytes.len() as int
    } else if bytes[pos] == 0x0a {
        pos
    } else {
        line_end(bytes, pos + 1)
    }
}

/// Whether there is nothing but white space.
pub open spec fn is_blank(bytes: Seq<u8>) -> bool {
    forall|i: int| 0 <= i < bytes.len() ==> is_space(#[trigger] bytes[i])
}

/// The line at `pos`, without its line end.
pub open spec fn line_at(bytes: Seq<u8>, pos: int) -> Span {
    let end = line_end(bytes, pos);
    Span {
        start: pos,
        end: if end > pos && bytes[end - 1] == 0x0d {
            end - 1
        } else {
            end
        },
        next: if end < bytes.len() {
            end + 1
        } else {
            end
        },
    }
}

/// The first line from `pos` on that is not blank.
pub open spec fn next_line(bytes: Seq<u8>, pos: int) -> Option<Span>
    decreases bytes.len() - pos,
{
    if pos < 0 || pos >= bytes.len() {
        None
    } else {
        let line = line_at(bytes, pos);
        if is_blank(bytes.subrange(line.start, line.end)) {
            if pos < line.next <= bytes.len() {
                next_line(bytes, line.next)
            } else {
                None
            }
        } else {
            Some(line)
        }
    }
}

/// What is open at a byte of a JSON text: arrays and objects, a string, and in it an escape.
pub struct Open {
    pub depth: int,
    pub quoted: bool,
    pub escaped: bool,
}

/// What is open behind a byte.
pub open spec fn open_behind(open: Open, b: u8) -> Open {
    if open.quoted {
        if open.escaped {
            Open { escaped: false, ..open }
        } else if b == 0x5c {
            Open { escaped: true, ..open }
        } else if b == 0x22 {
            Open { quoted: false, ..open }
        } else {
            open
        }
    } else if b == 0x22 {
        Open { quoted: true, ..open }
    } else if b == 0x7b || b == 0x5b {
        Open { depth: open.depth + 1, ..open }
    } else if b == 0x7d || b == 0x5d {
        Open {
            depth: if open.depth > 0 {
                open.depth - 1
            } else {
                0
            },
            ..open
        }
    } else {
        open
    }
}

/// What is open at byte `i`, from byte `start` on.
pub open spec fn open_at(bytes: Seq<u8>, start: int, i: int) -> Open
    decreases i - start,
{
    if i <= start {
        Open { depth: 0, quoted: false, escaped: false }
    } else {
        open_behind(open_at(bytes, start, i - 1), bytes[i - 1])
    }
}

/// Whether nothing is open.
pub open spec fn is_closed(open: Open) -> bool {
    open.depth == 0 && !open.quoted
}

/// The first byte from `i` on at which nothing is open, or the end of the source.
pub open spec fn first_closed(bytes: Seq<u8>, start: int, i: int) -> int
    decreases bytes.len() - i,
{
    if i >= bytes.len() {
        bytes.len() as int
    } else if is_closed(open_at(bytes, start, i)) {
        i
    } else {
        first_closed(bytes, start, i + 1)
    }
}

/// Whether a byte ends a number or a word.
pub open spec fn ends_word(b: u8) -> bool {
    b == 0x2c || b == 0x5d || b == 0x7d || is_space(b)
}

/// The first byte from `i` on that ends a word, or the end of the source.
pub open spec fn word_end(bytes: Seq<u8>, i: int) -> int
    decreases bytes.len() - i,
{
    if i < 0 || i >= bytes.len() {
        bytes.len() as int
    } else if ends_word(bytes[i]) {
        i
    } else {
        word_end(bytes, i + 1)
    }
}

/// Whether a value that begins with this byte ends where it closes.
pub open spec fn opens(b: u8) -> bool {
    b == 0x22 || b == 0x7b || b == 0x5b
}

/// Where the value that begins at `start` ends.
pub open spec fn value_end(bytes: Seq<u8>, start: int) -> int {
    if opens(bytes[start]) {
        first_closed(bytes, start, start + 1)
    } else {
        word_end(bytes, start)
    }
}

/// A string, an array or an object ends at the first byte behind its start at which all that it
/// opened is closed again: no bracket or quote within a string, and no bracket of a nested value,
/// ends it. One that never closes reaches to the end of the source.
pub proof fn values_end_where_they_close(bytes: Seq<u8>, start: int, i: int)
    requires
        0 <= start < i <= bytes.len(),
    ensures
        i <= first_closed(bytes, start, i) <= bytes.len(),
        forall|j: int|
            i <= j < first_closed(bytes, start, i) ==> !is_closed(
                #[trigger] open_at(bytes, start, j),
            ),
        first_closed(bytes, start, i) < bytes.len() ==> is_closed(
            open_at(bytes, start, first_closed(bytes, start, i)),
        ),
    decreases bytes.len() - i,
{
    if i < bytes.len() && !is_closed(open_at(bytes, start, i)) {
        values_end_where_they_close(bytes, start, i + 1);
    }
}

/// The first element of an array from `pos` on. White space and commas stand between elements, a
/// closing bracket ends the array.
pub open spec fn next_element(bytes: Seq<u8>, pos: int) -> Option<Span>
    decreases bytes.len() - pos,
{
    if pos < 0 || pos >= bytes.len() || bytes[pos] == 0x5d || bytes[pos] == 0x7d {
        None
    } else if is_space(bytes[pos]) || bytes[pos] == 0x2c {
        next_element(bytes, pos + 1)
    } else {
        let end = value_end(bytes, pos);
        Some(Span { start: pos, end, next: end })
    }
}

/// The first record from `pos` on.
pub open spec fn next_record(mode: JsonMode, bytes: Seq<u8>, pos: int) -> Option<Span> {
    match mode {
        JsonMode::Lines => next_line(bytes, pos),
        JsonMode::Array => next_element(bytes, pos),
    }
}

/// The records from `pos` on.
pub open spec fn spans_from(mode: JsonMode, bytes: Seq<u8>, pos: int) -> Seq<Span>
    decreases bytes.len() - pos,
{
    match next_record(mode, bytes, pos) {
        Some(span) => if pos < span.next <= bytes.len() {
            seq![span] + spans_from(mode, bytes, span.next)
        } else {
            Seq::empty()
        },
        None => Seq::empty(),
    }
}

proof fn lemma_line_end(bytes: Seq<u8>, pos: int)
    requires
        0 <= pos <= bytes.len(),
    ensures
        pos <= line_end(bytes, pos) <= bytes.len(),
    decreases bytes.len() - pos,
{
    if pos < bytes.len() && bytes[pos] != 0x0a {
        lemma_line_end(bytes, pos + 1);
    }
}

pub proof fn lemma_line_end_at(bytes: Seq<u8>, pos: int, k: int)
    requires
        0 <= pos <= k <= bytes.len(),
        forall|j: int| pos <= j < k ==> bytes[j] != 0x0a,
        k < bytes.len() ==> bytes[k] == 0x0a,
    ensures
        line_end(bytes, pos) == k,
    decreases k - pos,
{
    if pos < k {
        lemma_line_end_at(bytes, pos + 1, k);
    }
}

proof fn lemma_word_end(bytes: Seq<u8>, i: int)
    requires
        0 <= i <= bytes.len(),
    ensures
        i <= word_end(bytes, i) <= bytes.len(),
        i < bytes.len() && !ends_word(bytes[i]) ==> i < word_end(bytes, i),
    decreases bytes.len() - i,
{
    if i < bytes.len() && !ends_word(bytes[i]) {
        lemma_word_end(bytes, i + 1);
    }
}

proof fn lemma_value_end(bytes: Seq<u8>, start: int)
    requires
        0 <= start < bytes.len(),
        !ends_word(bytes[start]),
    ensures
        start < value_end(bytes, start) <= bytes.len(),
{
    if opens(bytes[start]) {
        values_end_where_they_close(bytes, start, start + 1);
    } else {
        lemma_word_end(bytes, start);
    }
}

/// A record lies where it was looked for or behind, within the source, takes up some bytes, and is
/// found again from its own start.
pub proof fn lemma_next_record(mode: JsonMode, bytes: Seq<u8>, pos: int)
    requires
        0 <= pos,
    ensures
        next_record(mode, bytes, pos) matches Some(span) ==> {
            &&& pos <= span.start < span.end <= span.next <= bytes.len()
            &&& next_record(mode, bytes, span.start) == Some(span)
        },
    decreases bytes.len() - pos,
{
    if pos < bytes.len() {
        match mode {
            JsonMode::Lines => {
                lemma_line_end(bytes, pos);
                let line = line_at(bytes, pos);
                if is_blank(bytes.subrange(line.start, line.end)) {
                    if line.next > pos {
                        lemma_next_record(mode, bytes, line.next);
                    }
                } else {
                    assert(line.end > line.start) by {
                        if line.end <= line.start {
                            assert(bytes.subrange(line.start, line.end).len() == 0);
                        }
                    }
                }
            },
            JsonMode::Array => {
                if bytes[pos] != 0x5d && bytes[pos] != 0x7d {
                    if is_space(bytes[pos]) || bytes[pos] == 0x2c {
                        lemma_next_record(mode, bytes, pos + 1);
                    } else {
                        lemma_value_end(bytes, pos);
                    }
                }
            },
        }
    }
}

/// The records from a byte on lie one behind another, and each is where the records from its own
/// start on begin.
pub proof fn lemma_spans(mode: JsonMode, bytes: Seq<u8>, pos: int)
    requires
        0 <= pos,
    ensures
        ({
            let spans = spans_from(mode, bytes, pos);
            &&& pos <= bytes.len() ==> spans.len() <= bytes.len() - pos
            &&& pos > bytes.len() ==> spans.len() == 0
            &&& forall|i: int|
                0 <= i < spans.len() ==> {
                    &&& pos <= (#[trigger] spans[i]).start < spans[i].end <= spans[i].next
                        <= bytes.len()
                    &&& next_record(mode, bytes, spans[i].start) == Some(spans[i])
                    &&& spans.skip(i) == spans_from(mode, bytes, spans[i].start)
                    &&& spans.skip(i + 1) == spans_from(mode, bytes, spans[i].next)
                }
            &&& forall|i: int, j: int|
                0 <= i < j < spans.len() ==> (#[trigger] spans[i]).next <= (
                #[trigger] spans[j]).start
        }),
    decreases bytes.len() - pos,
{
    lemma_next_record(mode, bytes, pos);
    let spans = spans_from(mode, bytes, pos);
    if spans.len() > 0 {
        let first = spans[0];
        let rest = spans_from(mode, bytes, first.next);
        lemma_spans(mode, bytes, first.next);
        assert(spans =~= seq![first] + rest);
        assert(spans.skip(1) =~= rest);
        assert(spans.skip(0) =~= spans);
        assert(spans_from(mode, bytes, first.start) =~= spans);
        assert forall|i: int| 0 <= i < spans.len() implies {
            &&& pos <= (#[trigger] spans[i]).start < spans[i].end <= spans[i].next <= bytes.len()
            &&& next_record(mode, bytes, spans[i].start) == Some(spans[i])
            &&& spans.skip(i) == spans_from(mode, bytes, spans[i].start)
            &&& spans.skip(i + 1) == spans_from(mode, bytes, spans[i].next)
        } by {
            if i > 0 {
                assert(spans[i] == rest[i - 1]);
                assert(spans.skip(i) =~= rest.skip(i - 1));
                assert(spans.skip(i + 1) =~= rest.skip(i));
            }
        }
        assert forall|i: int, j: int| 0 <= i < j < spans.len() implies (#[trigger] spans[i]).next
            <= (#[trigger] spans[j]).start by {
            assert(spans[j] == rest[j - 1]);
            if i > 0 {
                assert(spans[i] == rest[i - 1]);
            }
        }
    }
}

/// Whether there is nothing but white space.
fn blank(bytes: &[u8]) -> (r: bool)
    ensures
        r == is_blank(bytes@),
{
    for i in 0..bytes.len()
        invariant
            forall|j: int| 0 <= j < i ==> is_space(#[trigger] bytes@[j]),
    {
        if !space(bytes[i]) {
            assert(!is_space(bytes@[i as int]));
            return false;
        }
    }
    true
}

/// The first line from `pos` on that is not blank: where it begins, where it ends, and where the
/// next one begins.
pub fn next_line_record(bytes: &[u8], from: usize) -> (r: Option<(usize, usize, usize)>)
    ensures
        r is Some <==> next_line(bytes@, from as int) is Some,
        r matches Some((start, end, next)) ==> next_line(bytes@, from as int) == Some(
            Span { start: start as int, end: end as int, next: next as int },
        ),
{
    let len: usize = bytes.len();
    let mut pos: usize = from;
    while pos < len
        invariant
            len == bytes@.len(),
            next_line(bytes@, from as int) == next_line(bytes@, pos as int),
        decreases len - pos,
    {
        let tail = vstd::slice::slice_subrange(bytes, pos, len);
        let end_of_line: usize = match memchr::memchr(0x0a, tail) {
            Some(i) => pos + i,
            None => len,
        };
        proof {
            assert forall|j: int| pos <= j < end_of_line implies bytes@[j] != 0x0a by {
                assert(tail@[j - pos] == bytes@[j]);
            }
            assert(end_of_line < len ==> bytes@[end_of_line as int] == tail@[end_of_line - pos]);
            lemma_line_end_at(bytes@, pos as int, end_of_line as int);
        }
        let next: usize = if end_of_line < len {
            end_of_line + 1
        } else {
            len
        };
        let end: usize = if end_of_line > pos && bytes[end_of_line - 1] == 0x0d {
            end_of_line - 1
        } else {
            end_of_line
        };
        let line = vstd::slice::slice_subrange(bytes, pos, end);
        if blank(line) {
            pos = next;
        } else {
            return Some((pos, end, next));
        }
    }
    None
}

/// The first element of an array from `pos` on.
pub fn next_array_element(bytes: &[u8], from: usize) -> (r: Option<(usize, usize, usize)>)
    ensures
        r is Some <==> next_element(bytes@, from as int) is Some,
        r matches Some((start, end, next)) ==> next_element(bytes@, from as int) == Some(
            Span { start: start as int, end: end as int, next: next as int },
        ),
{
    let len: usize = bytes.len();
    let mut pos: usize = from;
    while pos < len
        invariant
            len == bytes@.len(),
            next_element(bytes@, from as int) == next_element(bytes@, pos as int),
        decreases len - pos,
    {
        let b: u8 = bytes[pos];
        if b == 0x5d || b == 0x7d {
            return None;
        }
        if space(b) || b == 0x2c {
            pos += 1;
        } else {
            let end: usize = scan_value_end(bytes, pos);
            return Some((pos, end, end));
        }
    }
    None
}

/// Where the value that begins at `start` ends; behind the last byte there is none, and nothing is
/// scanned.
pub fn scan_value_end(bytes: &[u8], start: usize) -> (end: usize)
    ensures
        end == (if start < bytes@.len() {
            value_end(bytes@, start as int)
        } else {
            start as int
        }),
{
    let len: usize = bytes.len();
    if start >= len {
        return start;
    }
    let first: u8 = bytes[start];
    if first == 0x22 || first == 0x7b || first == 0x5b {
        let mut depth: usize = 0;
        let mut quoted = false;
        let mut escaped = false;
        let mut i: usize = start;
        while i < len
            invariant
                start <= i <= len == bytes@.len(),
                start < len,
                opens(bytes@[start as int]),
                open_at(bytes@, start as int, i as int) == (Open {
                    depth: depth as int,
                    quoted,
                    escaped,
                }),
                depth <= i - start,
                i == start || first_closed(bytes@, start as int, start + 1) == first_closed(
                    bytes@,
                    start as int,
                    i as int,
                ),
                i > start && i < len ==> !is_closed(open_at(bytes@, start as int, i as int)),
            decreases len - i,
        {
            let b: u8 = bytes[i];
            assert(i > start ==> first_closed(bytes@, start as int, i as int) == first_closed(
                bytes@,
                start as int,
                i + 1,
            ));
            if quoted {
                if escaped {
                    escaped = false;
                } else if b == 0x5c {
                    escaped = true;
                } else if b == 0x22 {
                    quoted = false;
                }
            } else if b == 0x22 {
                quoted = true;
            } else if b == 0x7b || b == 0x5b {
                depth += 1;
            } else if b == 0x7d || b == 0x5d {
                if depth > 0 {
                    depth -= 1;
                }
            }
            i += 1;
            assert(open_at(bytes@, start as int, i as int) == (Open {
                depth: depth as int,
                quoted,
                escaped,
            }));
            if depth == 0 && !quoted {
                return i;
            }
        }
        len
    } else {
        let mut i: usize = start;
        while i < len && !(bytes[i] == 0x2c || bytes[i] == 0x5d || bytes[i] == 0x7d || space(
            bytes[i],
        ))
            invariant
                start <= i <= len == bytes@.len(),
                word_end(bytes@, start as int) == word_end(bytes@, i as int),
            decreases len - i,
        {
            i += 1;
        }
        i
    }
}

/// How the records of a source are laid out, and where the first one is looked for.
#[derive(Clone, Copy, Debug, PartialEq, Eq, Structural)]
pub struct Records {
    /// The layout.
    pub mode: JsonMode,
    /// Where the records begin.
    pub body_start: usize,
}

impl Records {
    /// The records of a source.
    pub open spec fn spans(self, bytes: Seq<u8>) -> Seq<Span> {
        spans_from(self.mode, bytes, self.body_start as int)
    }

    /// The first record from `pos` on: where it begins, where it ends, and where scanning goes on.
    pub fn next(&self, bytes: &[u8], pos: usize) -> (r: Option<(usize, usize, usize)>)
        ensures
            r is Some <==> next_record(self.mode, bytes@, pos as int) is Some,
            r matches Some((start, end, next)) ==> next_record(self.mode, bytes@, pos as int)
                == Some(Span { start: start as int, end: end as int, next: next as int }),
            r matches Some((start, end, next)) ==> pos <= start < end <= next <= bytes@.len(),
    {
        proof {
            lemma_next_record(self.mode, bytes@, pos as int);
        }
        match self.mode {
            JsonMode::Lines => next_line_record(bytes, pos),
            JsonMode::Array => next_array_element(bytes, pos),
        }
    }
}

/// Records on lines are the lines that hold more than white space, one for each: a line goes up to
/// its line feed, a carriage return before that is cut off, and a blank line is passed over.
pub proof fn lines_are_records(bytes: Seq<u8>, pos: int, end: int)
    requires
        0 <= pos < bytes.len(),
        pos <= end <= bytes.len(),
        forall|j: int| pos <= j < end ==> #[trigger] bytes[j] != 0x0a,
        end < bytes.len() ==> bytes[end] == 0x0a,
    ensures
        ({
            let next = if end < bytes.len() {
                end + 1
            } else {
                end
            };
            let cut = if end > pos && bytes[end - 1] == 0x0d {
                end - 1
            } else {
                end
            };
            let blank = forall|j: int|
                pos <= j < cut ==> seq![0x09u8, 0x0a, 0x0c, 0x0d, 0x20].contains(#[trigger] bytes[j]);
            let rest = spans_from(JsonMode::Lines, bytes, next);
            spans_from(JsonMode::Lines, bytes, pos) == if blank {
                rest
            } else {
                seq![Span { start: pos, end: cut, next }] + rest
            }
        }),
{
    lemma_line_end_at(bytes, pos, end);
    let line = line_at(bytes, pos);
    let piece = bytes.subrange(line.start, line.end);
    let spaces = seq![0x09u8, 0x0a, 0x0c, 0x0d, 0x20];
    assert forall|b: u8| is_space(b) <==> #[trigger] spaces.contains(b) by {
        if is_space(b) {
            if b == 0x09 {
                assert(spaces[0] == b);
            } else if b == 0x0a {
                assert(spaces[1] == b);
            } else if b == 0x0c {
                assert(spaces[2] == b);
            } else if b == 0x0d {
                assert(spaces[3] == b);
            } else {
                assert(spaces[4] == b);
            }
        }
    }
    if forall|j: int| line.start <= j < line.end ==> spaces.contains(#[trigger] bytes[j]) {
        assert forall|i: int| 0 <= i < piece.len() implies is_space(#[trigger] piece[i]) by {
            assert(piece[i] == bytes[line.start + i]);
            assert(spaces.contains(bytes[line.start + i]));
        }
        assert(is_blank(piece));
    } else {
        let j = choose|j: int|
            line.start <= j < line.end && !spaces.contains(#[trigger] bytes[j]);
        assert(piece[j - line.start] == bytes[j]);
        assert(!is_blank(piece));
    }
    let mode = JsonMode::Lines;
    lemma_next_record(mode, bytes, pos);
    if line.next < bytes.len() {
        lemma_next_record(mode, bytes, line.next);
    }
    if is_blank(piece) {
        assert(next_record(mode, bytes, pos) == next_record(mode, bytes, line.next));
        assert(spans_from(mode, bytes, pos) =~= spans_from(mode, bytes, line.next));
    } else {
        assert(next_record(mode, bytes, pos) == Some(line));
        assert(spans_from(mode, bytes, pos) =~= seq![line] + spans_from(mode, bytes, line.next));
    }
}

/// Elements of an array stand one behind another: white space and commas before an element are
/// passed over, the next one begins where the one before it ends, and a closing bracket or brace
/// ends them.
pub proof fn elements_are_records(bytes: Seq<u8>, pos: int, at: int)
    requires
        0 <= pos <= at <= bytes.len(),
        forall|j: int|
            pos <= j < at ==> seq![0x09u8, 0x0a, 0x0c, 0x0d, 0x20, 0x2c].contains(
                #[trigger] bytes[j],
            ),
    ensures
        at == bytes.len() || bytes[at] == 0x5d || bytes[at] == 0x7d ==> spans_from(
            JsonMode::Array,
            bytes,
            pos,
        ).len() == 0,
        at < bytes.len() && !seq![0x09u8, 0x0a, 0x0c, 0x0d, 0x20, 0x2c, 0x5d, 0x7d].contains(
            bytes[at],
        ) ==> {
            let end = value_end(bytes, at);
            &&& at < end <= bytes.len()
            &&& spans_from(JsonMode::Array, bytes, pos) == seq![
                Span { start: at, end, next: end },
            ] + spans_from(JsonMode::Array, bytes, end)
        },
{
    let gaps = seq![0x09u8, 0x0a, 0x0c, 0x0d, 0x20, 0x2c];
    let stops = seq![0x09u8, 0x0a, 0x0c, 0x0d, 0x20, 0x2c, 0x5d, 0x7d];
    assert forall|j: int| pos <= j < at implies is_space(#[trigger] bytes[j]) || bytes[j]
        == 0x2c by {
        assert(gaps.contains(bytes[j]));
    }
    lemma_gap(bytes, pos, at);
    if at < bytes.len() && !stops.contains(bytes[at]) {
        assert(stops[0] == 0x09 && stops[1] == 0x0a && stops[2] == 0x0c && stops[3] == 0x0d
            && stops[4] == 0x20 && stops[5] == 0x2c && stops[6] == 0x5d && stops[7] == 0x7d);
        lemma_next_record(JsonMode::Array, bytes, at);
    }
}

proof fn lemma_gap(bytes: Seq<u8>, pos: int, at: int)
    requires
        0 <= pos <= at <= bytes.len(),
        forall|j: int| pos <= j < at ==> is_space(#[trigger] bytes[j]) || bytes[j] == 0x2c,
    ensures
        next_element(bytes, pos) == next_element(bytes, at),
    decreases at - pos,
{
    if pos < at {
        assert(is_space(bytes[pos]) || bytes[pos] == 0x2c);
        lemma_gap(bytes, pos + 1, at);
    }
}

/// A number or a word ends before the next comma, closing bracket, closing brace or white space.
pub proof fn words_end_where_the_next_begins(bytes: Seq<u8>, start: int, end: int)
    requires
        0 <= start < end <= bytes.len(),
        bytes[start] != 0x22 && bytes[start] != 0x7b && bytes[start] != 0x5b,
        forall|j: int|
            start <= j < end ==> !seq![0x09u8, 0x0a, 0x0c, 0x0d, 0x20, 0x2c, 0x5d, 0x7d].contains(
                #[trigger] bytes[j],
            ),
        end < bytes.len() ==> seq![0x09u8, 0x0a, 0x0c, 0x0d, 0x20, 0x2c, 0x5d, 0x7d].contains(
            bytes[end],
        ),
    ensures
        value_end(bytes, start) == end,
{
    let stops = seq![0x09u8, 0x0a, 0x0c, 0x0d, 0x20, 0x2c, 0x5d, 0x7d];
    assert(stops[0] == 0x09 && stops[1] == 0x0a && stops[2] == 0x0c && stops[3] == 0x0d
        && stops[4] == 0x20 && stops[5] == 0x2c && stops[6] == 0x5d && stops[7] == 0x7d);
    assert forall|j: int| start <= j < end implies !ends_word(#[trigger] bytes[j]) by {
        assert(!stops.contains(bytes[j]));
    }
    lemma_word_end_at(bytes, start, end);
}

proof fn lemma_word_end_at(bytes: Seq<u8>, i: int, end: int)
    requires
        0 <= i <= end <= bytes.len(),
        forall|j: int| i <= j < end ==> !ends_word(#[trigger] bytes[j]),
        end < bytes.len() ==> ends_word(bytes[end]),
    ensures
        word_end(bytes, i) == end,
    decreases end - i,
{
    if i < end {
        assert(!ends_word(bytes[i]));
        lemma_word_end_at(bytes, i + 1, end);
    }
}

/// A piece of a JSON text: a byte that is neither a quote nor a bracket nor a brace, a text without
/// its quotes, or what stands between braces or between brackets.
pub enum Piece {
    Byte(u8),
    Quoted(Seq<u8>),
    Nested(bool, Seq<Piece>),
}

/// Whether bytes can stand between quotes: a quote or a backslash among them is escaped.
pub open spec fn is_quotable(content: Seq<u8>) -> bool
    decreases content.len(),
{
    if content.len() == 0 {
        true
    } else if content[0] == 0x5c {
        content.len() >= 2 && is_quotable(content.skip(2))
    } else {
        content[0] != 0x22 && is_quotable(content.skip(1))
    }
}

/// Whether a piece is one.
pub open spec fn is_piece(piece: Piece) -> bool
    decreases piece,
{
    match piece {
        Piece::Byte(b) => b != 0x22 && b != 0x7b && b != 0x5b && b != 0x7d && b != 0x5d,
        Piece::Quoted(content) => is_quotable(content),
        Piece::Nested(_, pieces) => are_pieces(pieces),
    }
}

/// Whether all pieces are.
pub open spec fn are_pieces(pieces: Seq<Piece>) -> bool
    decreases pieces,
{
    pieces.len() == 0 || (is_piece(pieces[0]) && are_pieces(pieces.drop_first()))
}

/// How a piece is written.
pub open spec fn piece_text(piece: Piece) -> Seq<u8>
    decreases piece,
{
    match piece {
        Piece::Byte(b) => seq![b],
        Piece::Quoted(content) => seq![0x22u8] + content + seq![0x22u8],
        Piece::Nested(brace, pieces) => if brace {
            seq![0x7bu8] + pieces_text(pieces) + seq![0x7du8]
        } else {
            seq![0x5bu8] + pieces_text(pieces) + seq![0x5du8]
        },
    }
}

/// How pieces are written, one behind another.
pub open spec fn pieces_text(pieces: Seq<Piece>) -> Seq<u8>
    decreases pieces,
{
    if pieces.len() == 0 {
        Seq::empty()
    } else {
        piece_text(pieces[0]) + pieces_text(pieces.drop_first())
    }
}

/// Between quotes, nothing is opened or closed.
proof fn lemma_quoted(bytes: Seq<u8>, start: int, i: int, content: Seq<u8>)
    requires
        0 <= start <= i,
        i + content.len() <= bytes.len(),
        bytes.subrange(i, i + content.len()) == content,
        is_quotable(content),
        open_at(bytes, start, i).quoted,
        !open_at(bytes, start, i).escaped,
    ensures
        open_at(bytes, start, i + content.len()) == open_at(bytes, start, i),
        forall|j: int|
            i <= j <= i + content.len() ==> (#[trigger] open_at(bytes, start, j)).quoted,
    decreases content.len(),
{
    if content.len() > 0 {
        let n: int = if content[0] == 0x5c {
            2
        } else {
            1
        };
        let rest = content.skip(n);
        assert(bytes[i] == content[0]);
        if n == 2 {
            assert(bytes[i + 1] == content[1]);
            reveal_with_fuel(open_at, 3);
        }
        assert(bytes.subrange(i + n, i + n + rest.len()) =~= rest);
        lemma_quoted(bytes, start, i + n, rest);
        assert forall|j: int| i <= j <= i + content.len() implies (#[trigger] open_at(
            bytes,
            start,
            j,
        )).quoted by {
            if j < i + n {
                assert(j == i || j == i + 1);
            }
        }
    }
}

/// Within something that is open, a piece leaves open what was open, and no more.
proof fn lemma_piece(bytes: Seq<u8>, start: int, i: int, piece: Piece)
    requires
        0 <= start <= i,
        i + piece_text(piece).len() <= bytes.len(),
        bytes.subrange(i, i + piece_text(piece).len()) == piece_text(piece),
        is_piece(piece),
        open_at(bytes, start, i).depth >= 1,
        !open_at(bytes, start, i).quoted,
        !open_at(bytes, start, i).escaped,
    ensures
        open_at(bytes, start, i + piece_text(piece).len()) == open_at(bytes, start, i),
        forall|j: int|
            i <= j <= i + piece_text(piece).len() ==> !is_closed(#[trigger] open_at(bytes, start, j)),
    decreases piece,
{
    let text = piece_text(piece);
    let n = text.len() as int;
    assert(text =~= bytes.subrange(i, i + n));
    assert(forall|k: int| 0 <= k < n ==> text[k] == #[trigger] bytes[i + k]);
    match piece {
        Piece::Byte(b) => {
            assert(bytes[i + 0] == b);
        },
        Piece::Quoted(content) => {
            assert(bytes[i + 0] == 0x22);
            assert(text.subrange(1, n - 1) =~= content);
            assert(bytes.subrange(i, i + n).subrange(1, n - 1) =~= bytes.subrange(
                i + 1,
                i + 1 + content.len(),
            ));
            lemma_quoted(bytes, start, i + 1, content);
            assert(bytes[i + (n - 1)] == 0x22);
            assert forall|j: int| i <= j <= i + n implies !is_closed(
                #[trigger] open_at(bytes, start, j),
            ) by {
                if i < j < i + n {
                    assert(open_at(bytes, start, j).quoted);
                }
            }
        },
        Piece::Nested(brace, pieces) => {
            let inner = pieces_text(pieces);
            assert(bytes[i + 0] == 0x7b || bytes[i + 0] == 0x5b);
            assert(text.subrange(1, n - 1) =~= inner);
            assert(bytes.subrange(i, i + n).subrange(1, n - 1) =~= bytes.subrange(
                i + 1,
                i + 1 + inner.len(),
            ));
            lemma_pieces(bytes, start, i + 1, pieces);
            assert(bytes[i + (n - 1)] == 0x7d || bytes[i + (n - 1)] == 0x5d);
        },
    }
}

proof fn lemma_pieces(bytes: Seq<u8>, start: int, i: int, pieces: Seq<Piece>)
    requires
        0 <= start <= i,
        i + pieces_text(pieces).len() <= bytes.len(),
        bytes.subrange(i, i + pieces_text(pieces).len()) == pieces_text(pieces),
        are_pieces(pieces),
        open_at(bytes, start, i).depth >= 1,
        !open_at(bytes, start, i).quoted,
        !open_at(bytes, start, i).escaped,
    ensures
        open_at(bytes, start, i + pieces_text(pieces).len()) == open_at(bytes, start, i),
        forall|j: int|
            i <= j <= i + pieces_text(pieces).len() ==> !is_closed(
                #[trigger] open_at(bytes, start, j),
            ),
    decreases pieces,
{
    if pieces.len() > 0 {
        let all = pieces_text(pieces);
        let first = piece_text(pieces[0]);
        let rest = pieces.drop_first();
        let k = i + first.len();
        assert(bytes.subrange(i, k) =~= first) by {
            assert(first =~= all.take(first.len() as int));
            assert(bytes.subrange(i, i + all.len()).take(first.len() as int) =~= bytes.subrange(
                i,
                k,
            ));
        }
        assert(bytes.subrange(k, k + pieces_text(rest).len()) =~= pieces_text(rest)) by {
            assert(pieces_text(rest) =~= all.skip(first.len() as int));
            assert(bytes.subrange(i, i + all.len()).skip(first.len() as int) =~= bytes.subrange(
                k,
                i + all.len(),
            ));
        }
        lemma_piece(bytes, start, i, pieces[0]);
        lemma_pieces(bytes, start, k, rest);
    }
}

/// A text ends with its own closing quote and a nested value with its own closing bracket or brace,
/// whatever stands in it: escaped quotes, brackets in texts, and further nested values.
pub proof fn values_end_with_their_own_close(before: Seq<u8>, value: Piece, behind: Seq<u8>)
    requires
        is_piece(value),
        !(value is Byte),
    ensures
        value_end(before + piece_text(value) + behind, before.len() as int) == before.len()
            + piece_text(value).len(),
{
    let text = piece_text(value);
    let bytes = before + text + behind;
    let start = before.len() as int;
    let n = text.len() as int;
    assert(forall|k: int| 0 <= k < n ==> text[k] == #[trigger] bytes[start + k]);
    assert(bytes[start + 0] == text[0]);
    assert(open_at(bytes, start, start) == (Open { depth: 0, quoted: false, escaped: false }));
    match value {
        Piece::Byte(_) => {},
        Piece::Quoted(content) => {
            assert(bytes.subrange(start + 1, start + 1 + content.len()) =~= content);
            lemma_quoted(bytes, start, start + 1, content);
            assert(bytes[start + (n - 1)] == 0x22);
            assert forall|j: int| start < j < start + n implies !is_closed(
                #[trigger] open_at(bytes, start, j),
            ) by {
                assert(open_at(bytes, start, j).quoted);
            }
        },
        Piece::Nested(brace, pieces) => {
            let inner = pieces_text(pieces);
            assert(bytes.subrange(start + 1, start + 1 + inner.len()) =~= inner);
            lemma_pieces(bytes, start, start + 1, pieces);
            assert(bytes[start + (n - 1)] == 0x7d || bytes[start + (n - 1)] == 0x5d);
        },
    }
    lemma_first_closed(bytes, start, start + 1, start + n);
}

proof fn lemma_first_closed(bytes: Seq<u8>, start: int, i: int, end: int)
    requires
        0 <= start < i <= end <= bytes.len(),
        is_closed(open_at(bytes, start, end)),
        forall|j: int| i <= j < end ==> !is_closed(#[trigger] open_at(bytes, start, j)),
    ensures
        first_closed(bytes, start, i) == end,
    decreases end - i,
{
    if i < end {
        lemma_first_closed(bytes, start, i + 1, end);
    }
}

} // verus!
