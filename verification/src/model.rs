//! What a window keeps of an open table, besides the table: its format, the layout of the columns,
//! the selection, the controls for searching and sorting, and what of all that is saved.
use vstd::prelude::*;
#[allow(unused_imports)]
use vstd::string::StringSliceAdditionalSpecFns;
use crate::encoding::{decode_field, TextEncoding};
use crate::json;
use crate::parse::Dialect;
use crate::path::extension;
use crate::remote::copy_text;
use crate::search::{FilterSpec, Matcher};
use crate::sort::Direction;
use crate::text::{append, chars_of, equal_ignoring_case, push_decimal, push_hex};
use crate::viewport::{ColumnId, Schema, SortKey, ViewSpec};

verus! {

/// The format of a source.
#[derive(Clone, Copy, PartialEq, Eq, Debug, Structural)]
pub enum Format {
    /// Text with a separator between fields.
    Delimited,
    /// JSON: one value to a line, or one array.
    Json,
    /// Apache Parquet.
    Parquet,
}

/// Whether bytes start with the mark of a Parquet file, `PAR1`.
pub open spec fn has_parquet_mark(head: Seq<u8>) -> bool {
    head.len() >= 4 && head[0] == 0x50 && head[1] == 0x41 && head[2] == 0x52 && head[3] == 0x31
}

/// The format that an extension announces.
pub open spec fn announced_format(ext: Option<Seq<char>>) -> Format {
    match ext {
        Some(e) => if crate::text::same_letters(e, "parquet"@) || crate::text::same_letters(
            e,
            "pqt"@,
        ) {
            Format::Parquet
        } else if crate::text::same_letters(e, "ndjson"@) || crate::text::same_letters(e, "jsonl"@) {
            Format::Json
        } else {
            Format::Delimited
        },
        None => Format::Delimited,
    }
}

/// The format of a source with the given head and path: what the head shows counts more than the
/// extension.
pub open spec fn format_of(head: Seq<u8>, path: Seq<char>) -> Format {
    if has_parquet_mark(head) {
        Format::Parquet
    } else if crate::json::layout_of(head) is Some {
        Format::Json
    } else {
        announced_format(crate::path::path_extension(path))
    }
}

/// Whether characters are those of a text, up to the case of ASCII letters.
fn reads(chars: &Vec<char>, text: &str) -> (r: bool)
    ensures
        r == crate::text::same_letters(chars@, text@),
{
    let other = chars_of(text);
    equal_ignoring_case(chars.as_slice(), other.as_slice())
}

/// Detects the format of a source by its first bytes; the extension of its path decides only where
/// they do not.
pub fn detect_format(head: &[u8], path: &str) -> (format: Format)
    ensures
        format == format_of(head@, path@),
{
    if head.len() >= 4 && head[0] == 0x50 && head[1] == 0x41 && head[2] == 0x52 && head[3] == 0x31 {
        return Format::Parquet;
    }
    if json::sniff(head).is_some() {
        return Format::Json;
    }
    let chars = chars_of(path);
    match extension(chars.as_slice()) {
        Some(ext) => if reads(&ext, "parquet") || reads(&ext, "pqt") {
            Format::Parquet
        } else if reads(&ext, "ndjson") || reads(&ext, "jsonl") {
            Format::Json
        } else {
            Format::Delimited
        },
        None => Format::Delimited,
    }
}

/// Whether a byte is a printable ASCII character.
pub open spec fn is_printable(byte: u8) -> bool {
    0x20 <= byte <= 0x7e
}

/// How a delimiter is written: a printable character as itself, any other byte as a number.
pub open spec fn written(delimiter: u8) -> Seq<char> {
    if is_printable(delimiter) {
        seq![delimiter as char]
    } else {
        "0x"@ + crate::text::hex_text(delimiter as int, 2)
    }
}

/// Writes a delimiter, so that it can be read and entered again.
pub fn delimiter_display(delimiter: u8) -> (text: String)
    ensures
        text@ == written(delimiter),
{
    if 0x20 <= delimiter && delimiter <= 0x7e {
        let mut text = String::new();
        text.push(delimiter as char);
        assert(text@ =~= seq![delimiter as char]);
        text
    } else {
        let mut text = copy_text("0x");
        push_hex(&mut text, delimiter as u64, 2);
        text
    }
}

/// The friendly name of a delimiter.
pub open spec fn friendly(delimiter: u8) -> Seq<char> {
    if delimiter == 0x2c {
        "comma"@
    } else if delimiter == 0x09 {
        "tab"@
    } else if delimiter == 0x3b {
        "semicolon"@
    } else if delimiter == 0x7c {
        "pipe"@
    } else {
        written(delimiter)
    }
}

/// A friendly name for a delimiter.
pub fn delimiter_label(delimiter: u8) -> (text: String)
    ensures
        text@ == friendly(delimiter),
{
    if delimiter == 0x2c {
        copy_text("comma")
    } else if delimiter == 0x09 {
        copy_text("tab")
    } else if delimiter == 0x3b {
        copy_text("semicolon")
    } else if delimiter == 0x7c {
        copy_text("pipe")
    } else {
        delimiter_display(delimiter)
    }
}

/// The name of a format; delimited text is named after its delimiter.
pub fn format_label(format: Format, dialect: &Dialect) -> (text: String)
    ensures
        text@ == (match format {
            Format::Parquet => "Parquet"@,
            Format::Json => "JSON"@,
            Format::Delimited => if dialect.delimiter == 0x2c {
                "CSV"@
            } else if dialect.delimiter == 0x09 {
                "TSV"@
            } else {
                "Delimited · "@ + friendly(dialect.delimiter)
            },
        }),
{
    match format {
        Format::Parquet => copy_text("Parquet"),
        Format::Json => copy_text("JSON"),
        Format::Delimited => if dialect.delimiter == 0x2c {
            copy_text("CSV")
        } else if dialect.delimiter == 0x09 {
            copy_text("TSV")
        } else {
            let mut text = copy_text("Delimited · ");
            let label = delimiter_label(dialect.delimiter);
            append(&mut text, label.as_str());
            text
        },
    }
}

/// The value of a hexadecimal digit.
pub open spec fn hex_value(c: char) -> Option<int> {
    if '0' <= c <= '9' {
        Some(c as int - '0' as int)
    } else if 'a' <= c <= 'f' {
        Some(c as int - 'a' as int + 10)
    } else if 'A' <= c <= 'F' {
        Some(c as int - 'A' as int + 10)
    } else {
        None
    }
}

/// The byte that two hexadecimal digits write.
pub open spec fn hex_byte(a: char, b: char) -> Option<int> {
    match (hex_value(a), hex_value(b)) {
        (Some(x), Some(y)) => Some(16 * x + y),
        _ => None,
    }
}

/// The delimiter that an entry writes: `0x` or `\x` and two hexadecimal digits, or a single ASCII character.
pub open spec fn entered(input: Seq<char>) -> Option<int> {
    if input.len() == 4 && (input[0] == '0' || input[0] == '\\') && input[1] == 'x' {
        hex_byte(input[2], input[3])
    } else if input.len() == 1 && (input[0] as u32) < 0x80 {
        Some(input[0] as int)
    } else {
        None
    }
}

/// The value of a hexadecimal digit.
fn digit(c: char) -> (value: Option<u8>)
    ensures
        match value {
            Some(v) => hex_value(c) == Some(v as int) && v < 16,
            None => hex_value(c) is None,
        },
{
    if '0' <= c && c <= '9' {
        Some((c as u8) - 0x30)
    } else if 'a' <= c && c <= 'f' {
        Some((c as u8) - 0x61 + 10)
    } else if 'A' <= c && c <= 'F' {
        Some((c as u8) - 0x41 + 10)
    } else {
        None
    }
}

/// The byte of an ASCII character.
fn ascii_byte(c: char) -> (byte: Option<u8>)
    ensures
        match byte {
            Some(b) => b == c as int && (c as u32) < 0x80,
            None => (c as u32) >= 0x80,
        },
{
    let number: u32 = c as u32;
    if number < 0x80 {
        Some(number as u8)
    } else {
        None
    }
}

/// Reads the entry for a delimiter; `None` where it is not a single byte, as while it is typed.
pub fn parse_delimiter(input: &str) -> (delimiter: Option<u8>)
    ensures
        match delimiter {
            Some(d) => entered(input@) == Some(d as int),
            None => entered(input@) is None,
        },
{
    let chars = chars_of(input);
    if chars.len() == 4 && (chars[0] == '0' || chars[0] == '\\') && chars[1] == 'x' {
        match (digit(chars[2]), digit(chars[3])) {
            (Some(x), Some(y)) => Some(16 * x + y),
            _ => None,
        }
    } else if chars.len() == 1 {
        ascii_byte(chars[0])
    } else {
        None
    }
}

/// How the delimiter is chosen.
#[derive(Clone, Copy, Debug, PartialEq, Eq, Structural)]
pub enum DelimiterChoice {
    /// The one that was detected.
    Auto { detected: u8 },
    Comma,
    Pipe,
    Semicolon,
    Tab,
    /// The one that was typed.
    Custom,
}

/// The delimiter of a choice that needs no entry.
pub open spec fn fixed_delimiter(choice: DelimiterChoice) -> Option<u8> {
    match choice {
        DelimiterChoice::Auto { detected } => Some(detected),
        DelimiterChoice::Comma => Some(0x2c),
        DelimiterChoice::Pipe => Some(0x7c),
        DelimiterChoice::Semicolon => Some(0x3b),
        DelimiterChoice::Tab => Some(0x09),
        DelimiterChoice::Custom => None,
    }
}

/// The delimiter that is chosen; none where what was typed is no delimiter, and the choice has no
/// effect.
pub fn chosen_delimiter(choice: DelimiterChoice, typed: &str) -> (r: Option<u8>)
    ensures
        match fixed_delimiter(choice) {
            Some(d) => r == Some(d),
            None => match r {
                Some(d) => entered(typed@) == Some(d as int),
                None => entered(typed@) is None,
            },
        },
{
    match choice {
        DelimiterChoice::Auto { detected } => Some(detected),
        DelimiterChoice::Comma => Some(0x2c),
        DelimiterChoice::Pipe => Some(0x7c),
        DelimiterChoice::Semicolon => Some(0x3b),
        DelimiterChoice::Tab => Some(0x09),
        DelimiterChoice::Custom => parse_delimiter(typed),
    }
}

/// Whether a choice is marked as the one that was made: the automatic one where the delimiter is
/// chosen so, and otherwise the one of the delimiter. What was typed has no mark of its own.
pub fn is_marked(choice: DelimiterChoice, delimiter: u8, auto: bool) -> (r: bool)
    ensures
        r == match choice {
            DelimiterChoice::Auto { .. } => auto,
            _ => !auto && fixed_delimiter(choice) == Some(delimiter),
        },
{
    match choice {
        DelimiterChoice::Auto { .. } => auto,
        DelimiterChoice::Comma => !auto && delimiter == 0x2c,
        DelimiterChoice::Pipe => !auto && delimiter == 0x7c,
        DelimiterChoice::Semicolon => !auto && delimiter == 0x3b,
        DelimiterChoice::Tab => !auto && delimiter == 0x09,
        DelimiterChoice::Custom => false,
    }
}

/// A delimiter that is written down reads back as itself.
pub proof fn delimiters_read_back(delimiter: u8)
    ensures
        entered(written(delimiter)) == Some(delimiter as int),
{
    if !is_printable(delimiter) {
        reveal_strlit("0x");
        reveal_with_fuel(crate::text::hex_text, 3);
        let text = written(delimiter);
        let n = delimiter as int;
        assert(crate::text::hex_text(n, 2) =~= seq![
            crate::text::hex_digit((n / 16) % 16),
            crate::text::hex_digit(n % 16),
        ]);
        assert(text =~= seq![
            '0',
            'x',
            crate::text::hex_digit((n / 16) % 16),
            crate::text::hex_digit(n % 16),
        ]);
        lemma_hex_digit((n / 16) % 16);
        lemma_hex_digit(n % 16);
        assert(n == 16 * ((n / 16) % 16) + n % 16);
    }
}

proof fn lemma_hex_digit(value: int)
    requires
        0 <= value < 16,
    ensures
        hex_value(crate::text::hex_digit(value)) == Some(value),
{
}

/// The name under which a column is shown.
pub open spec fn shown_name(schema: Schema, id: ColumnId, encoding: TextEncoding) -> Seq<char> {
    if id.0 < schema.columns@.len() {
        crate::encoding::field_display(encoding, schema.columns@[id.0 as int].name@)
    } else {
        "col"@ + crate::text::decimal_text(id.0 as int)
    }
}

/// The name under which a column is shown; a column that is not in the schema gets a made-up one.
pub fn column_name(schema: &Schema, id: ColumnId, encoding: TextEncoding) -> (name: String)
    requires
        forall|i: int|
            0 <= i < schema.columns@.len() ==> crate::encoding::decodable(
                #[trigger] schema.columns@[i].name@,
            ),
    ensures
        name@ == shown_name(*schema, id, encoding),
{
    let at: usize = id.0 as usize;
    if at < schema.columns.len() {
        assert(crate::encoding::decodable(schema.columns@[at as int].name@));
        decode_field(schema.columns[at].name.as_slice(), encoding)
    } else {
        let mut name = copy_text("col");
        push_decimal(&mut name, id.0 as u64);
        name
    }
}

/// The bytes of a header without the mark of UTF-8.
pub open spec fn bare_name(name: Seq<u8>) -> Seq<u8> {
    if crate::records::has_mark(name) {
        name.skip(3)
    } else {
        name
    }
}

/// The name of a column for an export: the bytes of the source without the mark of UTF-8, which
/// belongs to the file; nothing for a column that is not in the schema.
pub fn raw_name(schema: &Schema, id: ColumnId) -> (name: Vec<u8>)
    ensures
        name@ == (if id.0 < schema.columns@.len() {
            bare_name(schema.columns@[id.0 as int].name@)
        } else {
            Seq::empty()
        }),
{
    let at: usize = id.0 as usize;
    if at < schema.columns.len() {
        let bytes = schema.columns[at].name.as_slice();
        let n: usize = bytes.len();
        if n >= 3 && bytes[0] == 0xef && bytes[1] == 0xbb && bytes[2] == 0xbf {
            let rest = vstd::slice::slice_subrange(bytes, 3, n);
            assert(rest@ =~= bytes@.skip(3));
            vstd::slice::slice_to_vec(rest)
        } else {
            vstd::slice::slice_to_vec(bytes)
        }
    } else {
        let none: Vec<u8> = Vec::new();
        assert(none@ =~= Seq::empty());
        none
    }
}

/// The order of the columns and which of them are shown.
#[derive(Clone, Debug)]
pub struct GridLayout {
    /// All columns of the source, as they are shown.
    pub order: Vec<ColumnId>,
    /// Which columns are shown, by their place in the source.
    pub visible: Vec<bool>,
}

/// The columns in the order of the source.
pub open spec fn source_order(count: nat) -> Seq<ColumnId> {
    Seq::new(count, |i: int| ColumnId(i as u32))
}

/// Those of the given columns that are shown.
pub open spec fn shown_columns(order: Seq<ColumnId>, visible: Seq<bool>) -> Seq<ColumnId> {
    order.filter(|c: ColumnId| visible[c.0 as int])
}

impl GridLayout {
    /// Whether it is known of every column whether it is shown.
    pub open spec fn wf(&self) -> bool {
        forall|i: int| 0 <= i < self.order@.len() ==> (#[trigger] self.order@[i]).0 < self.visible@.len()
    }

    /// All columns in the order of the source.
    pub fn new(column_count: usize) -> (layout: GridLayout)
        requires
            column_count <= u32::MAX,
        ensures
            layout.wf(),
            layout.order@ == source_order(column_count as nat),
            layout.visible@ == Seq::new(column_count as nat, |i: int| true),
    {
        let mut order: Vec<ColumnId> = Vec::new();
        let mut visible: Vec<bool> = Vec::new();
        for i in 0..column_count
            invariant
                column_count <= u32::MAX,
                order@ == source_order(i as nat),
                visible@ == Seq::new(i as nat, |i: int| true),
        {
            order.push(ColumnId(i as u32));
            visible.push(true);
            assert(order@ =~= source_order((i + 1) as nat));
            assert(visible@ =~= Seq::new((i + 1) as nat, |i: int| true));
        }
        GridLayout { order, visible }
    }

    /// The columns that are shown, as they are shown.
    pub fn displayed(&self) -> (columns: Vec<ColumnId>)
        requires
            self.wf(),
        ensures
            columns@ == shown_columns(self.order@, self.visible@),
    {
        let mut columns: Vec<ColumnId> = Vec::new();
        let ghost keep = |c: ColumnId| self.visible@[c.0 as int];
        proof {
            reveal(Seq::filter);
            assert(self.order@.take(0) =~= Seq::empty());
        }
        for i in 0..self.order.len()
            invariant
                self.wf(),
                keep == (|c: ColumnId| self.visible@[c.0 as int]),
                columns@ == self.order@.take(i as int).filter(keep),
        {
            let column: ColumnId = self.order[i];
            proof {
                reveal(Seq::filter);
                assert(self.order@.take(i + 1).drop_last() =~= self.order@.take(i as int));
                assert(self.order@.take(i + 1).last() == column);
            }
            if self.visible[column.0 as usize] {
                columns.push(column);
            }
        }
        assert(self.order@.take(self.order@.len() as int) =~= self.order@);
        columns
    }

    /// Shows all columns, or none.
    pub fn show_all(&mut self, shown: bool)
        ensures
            final(self).order == old(self).order,
            final(self).visible@ == Seq::new(old(self).visible@.len(), |i: int| shown),
    {
        let n: usize = self.visible.len();
        let mut visible: Vec<bool> = Vec::new();
        for i in 0..n
            invariant
                visible@ == Seq::new(i as nat, |i: int| shown),
        {
            visible.push(shown);
            assert(visible@ =~= Seq::new((i + 1) as nat, |i: int| shown));
        }
        self.visible = visible;
    }

    /// Keeps the layout where a table that is opened again has as many columns as before, and starts
    /// a new one where it has not.
    pub fn refit(&mut self, column_count: usize)
        requires
            old(self).wf(),
            column_count <= u32::MAX,
        ensures
            final(self).wf(),
            old(self).order@.len() == column_count ==> *final(self) == *old(self),
            old(self).order@.len() != column_count ==> final(self).order@ == source_order(
                column_count as nat,
            ) && final(self).visible@ == Seq::new(column_count as nat, |i: int| true),
    {
        if self.order.len() != column_count {
            *self = GridLayout::new(column_count);
        }
    }
}

/// Where a column stands first, if it does.
pub open spec fn place_of(order: Seq<ColumnId>, column: ColumnId) -> Option<int>
    decreases order.len(),
{
    if order.len() == 0 {
        None
    } else if order[0] == column {
        Some(0)
    } else {
        match place_of(order.drop_first(), column) {
            Some(i) => Some(i + 1),
            None => None,
        }
    }
}

/// The order after a column is dropped next to another one: before it or behind it. Without the
/// other one it goes to the end.
pub open spec fn reordered(
    order: Seq<ColumnId>,
    dragged: ColumnId,
    target: ColumnId,
    after: bool,
) -> Seq<ColumnId> {
    match place_of(order, dragged) {
        Some(from) if dragged != target => {
            let rest = order.remove(from);
            match place_of(rest, target) {
                Some(i) => rest.insert(
                    if after {
                        i + 1
                    } else {
                        i
                    },
                    dragged,
                ),
                None => rest.push(dragged),
            }
        },
        _ => order,
    }
}

proof fn lemma_place(order: Seq<ColumnId>, column: ColumnId)
    ensures
        match place_of(order, column) {
            Some(i) => 0 <= i < order.len() && order[i] == column && forall|j: int|
                0 <= j < i ==> order[j] != column,
            None => !order.contains(column),
        },
    decreases order.len(),
{
    if order.len() > 0 && order[0] != column {
        lemma_place(order.drop_first(), column);
        match place_of(order.drop_first(), column) {
            Some(i) => {
                assert forall|j: int| 0 <= j < i + 1 implies order[j] != column by {
                    if j > 0 {
                        assert(order.drop_first()[j - 1] == order[j]);
                    }
                }
            },
            None => {
                assert forall|j: int| 0 <= j < order.len() implies order[j] != column by {
                    if j > 0 {
                        assert(order.drop_first().contains(order.drop_first()[j - 1]));
                    }
                }
            },
        }
    }
}

proof fn lemma_first(order: Seq<ColumnId>, column: ColumnId, i: int)
    requires
        0 <= i < order.len(),
        order[i] == column,
        forall|j: int| 0 <= j < i ==> order[j] != column,
    ensures
        place_of(order, column) == Some(i),
{
    lemma_place(order, column);
    assert(order.contains(column));
}

/// Where a column stands.
pub fn position(order: &Vec<ColumnId>, column: ColumnId) -> (at: Option<usize>)
    ensures
        match at {
            Some(i) => place_of(order@, column) == Some(i as int) && i < order@.len(),
            None => place_of(order@, column) is None,
        },
{
    for i in 0..order.len()
        invariant
            forall|j: int| 0 <= j < i ==> order@[j] != column,
    {
        if order[i] == column {
            proof {
                lemma_first(order@, column, i as int);
            }
            return Some(i);
        }
    }
    proof {
        lemma_place(order@, column);
    }
    None
}

/// Moves a column next to another one: before it, or behind it where `after` is set.
pub fn reorder(order: &mut Vec<ColumnId>, dragged: ColumnId, target: ColumnId, after: bool)
    ensures
        final(order)@ == reordered(old(order)@, dragged, target, after),
{
    if dragged == target {
        return;
    }
    match position(order, dragged) {
        Some(from) => {
            let column = order.remove(from);
            proof {
                lemma_place(old(order)@, dragged);
            }
            let n: usize = order.len();
            match position(order, target) {
                Some(i) => {
                    let at: usize = if after {
                        i + 1
                    } else {
                        i
                    };
                    order.insert(at, column);
                },
                None => {
                    order.push(column);
                },
            }
        },
        None => {},
    }
}

/// Moving a column neither loses nor adds one.
pub proof fn reordering_keeps_columns(
    order: Seq<ColumnId>,
    dragged: ColumnId,
    target: ColumnId,
    after: bool,
)
    ensures
        reordered(order, dragged, target, after).to_multiset() == order.to_multiset(),
        reordered(order, dragged, target, after).len() == order.len(),
{
    lemma_place(order, dragged);
    match place_of(order, dragged) {
        Some(from) if dragged != target => {
            let rest = order.remove(from);
            lemma_place(rest, target);
            vstd::seq_lib::to_multiset_remove(order, from);
            match place_of(rest, target) {
                Some(i) => {
                    let at = if after {
                        i + 1
                    } else {
                        i
                    };
                    vstd::seq_lib::to_multiset_insert(rest, at, dragged);
                },
                None => {
                    vstd::seq_lib::to_multiset_build(rest, dragged);
                },
            }
            assert(order.to_multiset().contains(dragged)) by {
                broadcast use vstd::seq_lib::group_to_multiset_ensures;

                assert(order.contains(order[from]));
            }
            assert(reordered(order, dragged, target, after).to_multiset() =~= order.to_multiset());
        },
        _ => {},
    }
}

/// A column that is moved next to another one stands right before it, or right behind it.
pub proof fn moved_column_is_a_neighbour(
    order: Seq<ColumnId>,
    dragged: ColumnId,
    target: ColumnId,
    after: bool,
)
    requires
        order.contains(dragged),
        order.contains(target),
        dragged != target,
    ensures
        exists|i: int|
            0 <= i < order.len() - 1 && (if after {
                #[trigger] reordered(order, dragged, target, after)[i] == target && reordered(
                    order,
                    dragged,
                    target,
                    after,
                )[i + 1] == dragged
            } else {
                reordered(order, dragged, target, after)[i] == dragged && reordered(
                    order,
                    dragged,
                    target,
                    after,
                )[i + 1] == target
            }),
{
    lemma_place(order, dragged);
    let from = place_of(order, dragged)->Some_0;
    let rest = order.remove(from);
    lemma_place(rest, target);
    let k = choose|k: int| 0 <= k < order.len() && order[k] == target;
    assert(rest.contains(target)) by {
        let at = if k < from {
            k
        } else {
            k - 1
        };
        assert(rest[at] == target);
    }
    let i = place_of(rest, target)->Some_0;
    let list = reordered(order, dragged, target, after);
    if after {
        assert(list[i] == target && list[i + 1] == dragged);
    } else {
        assert(list[i] == dragged && list[i + 1] == target);
    }
}

/// Dropping a column onto itself changes nothing.
pub proof fn column_on_itself_stays(order: Seq<ColumnId>, column: ColumnId, after: bool)
    ensures
        reordered(order, column, column, after) == order,
{
}

/// Rows that are selected. The selection began at `anchor`; `lead` is the end that moves.
#[derive(Clone, Copy, PartialEq, Eq, Debug, Structural)]
pub struct RowSpan {
    pub anchor: u64,
    pub lead: u64,
}

impl RowSpan {
    /// The first of the rows.
    pub open spec fn first(self) -> u64 {
        if self.anchor <= self.lead {
            self.anchor
        } else {
            self.lead
        }
    }

    /// The last of the rows.
    pub open spec fn last(self) -> u64 {
        if self.anchor <= self.lead {
            self.lead
        } else {
            self.anchor
        }
    }

    /// The rows.
    pub open spec fn rows(self) -> Set<u64> {
        Set::new(|row: u64| self.first() <= row <= self.last())
    }

    /// One row.
    pub fn single(row: u64) -> (span: RowSpan)
        ensures
            span == (RowSpan { anchor: row, lead: row }),
    {
        RowSpan { anchor: row, lead: row }
    }

    /// The first of the rows.
    pub fn lo(self) -> (row: u64)
        ensures
            row == self.first(),
    {
        if self.anchor <= self.lead {
            self.anchor
        } else {
            self.lead
        }
    }

    /// The last of the rows.
    pub fn hi(self) -> (row: u64)
        ensures
            row == self.last(),
    {
        if self.anchor <= self.lead {
            self.lead
        } else {
            self.anchor
        }
    }

    /// Whether a row is one of them.
    pub fn contains(self, row: u64) -> (r: bool)
        ensures
            r == self.rows().contains(row),
    {
        self.lo() <= row && row <= self.hi()
    }

    /// How many rows there are.
    pub fn len(self) -> (n: u64)
        requires
            self.last() - self.first() < u64::MAX,
        ensures
            n == self.last() - self.first() + 1,
    {
        self.hi() - self.lo() + 1
    }
}

/// A selection is the same rows whichever way it was drawn.
pub proof fn direction_of_selection_is_moot(a: u64, b: u64)
    ensures
        (RowSpan { anchor: a, lead: b }).rows() == (RowSpan { anchor: b, lead: a }).rows(),
{
    assert((RowSpan { anchor: a, lead: b }).rows() =~= (RowSpan { anchor: b, lead: a }).rows());
}

/// The controls for searching, sorting and selecting.
#[derive(Clone, Debug)]
pub struct ViewControls {
    /// What is searched for.
    pub search: String,
    /// Whether the query is a regular expression.
    pub regex: bool,
    /// Whether case counts.
    pub case_sensitive: bool,
    /// Whether to show what does not match.
    pub invert: bool,
    /// Whether to hide rows, rather than only to mark cells.
    pub filter_mode: bool,
    /// The column that the rows are sorted by.
    pub sort: Option<SortKey>,
    /// The view that the table was last given.
    pub applied: ViewSpec,
    /// Why the view could not be applied.
    pub error: Option<String>,
    /// The rows that are selected.
    pub selected: Option<RowSpan>,
    /// Whether a selection is being drawn.
    pub selecting: bool,
    /// The row under the pointer.
    pub hovered_row: Option<u64>,
    /// A request to go to the next match, or to the previous one.
    pub find_request: Option<bool>,
    /// A row to scroll to.
    pub pending_scroll: Option<u64>,
}

impl Default for ViewControls {
    fn default() -> (r: ViewControls)
        ensures
            r.search@ == Seq::<char>::empty(),
            !r.regex,
            !r.case_sensitive,
            !r.invert,
            !r.filter_mode,
            r.sort is None,
            r.applied.filter is None,
            r.applied.sort is None,
            r.error is None,
            r.selected is None,
            !r.selecting,
            r.hovered_row is None,
            r.find_request is None,
            r.pending_scroll is None,
    {
        ViewControls {
            search: String::new(),
            regex: false,
            case_sensitive: false,
            invert: false,
            filter_mode: false,
            sort: None,
            applied: ViewSpec::default(),
            error: None,
            selected: None,
            selecting: false,
            hovered_row: None,
            find_request: None,
            pending_scroll: None,
        }
    }
}

/// The content of a filter: query, regular expression, inversion, case.
pub open spec fn filter_view(filter: Option<FilterSpec>) -> Option<(Seq<char>, bool, bool, bool)> {
    match filter {
        Some(f) => Some((f.query@, f.regex, f.invert, f.case_sensitive)),
        None => None,
    }
}

impl ViewControls {
    /// Whether rows are hidden: a query has to be there.
    pub open spec fn hides(&self) -> bool {
        self.filter_mode && self.search@.len() > 0
    }

    /// The content of the filter that the controls ask for.
    pub open spec fn wanted(&self) -> Option<(Seq<char>, bool, bool, bool)> {
        if self.hides() {
            Some((self.search@, self.regex, self.invert, self.case_sensitive))
        } else {
            None
        }
    }

    /// Whether there is a query.
    pub fn has_query(&self) -> (r: bool)
        ensures
            r == (self.search@.len() > 0),
    {
        chars_of(self.search.as_str()).len() > 0
    }

    /// The view that the controls ask for.
    pub fn desired(&self) -> (view: ViewSpec)
        ensures
            filter_view(view.filter) == self.wanted(),
            view.sort == self.sort,
    {
        let filter = if self.filter_mode && self.has_query() {
            Some(
                FilterSpec {
                    query: copy_text(self.search.as_str()),
                    regex: self.regex,
                    invert: self.invert,
                    case_sensitive: self.case_sensitive,
                },
            )
        } else {
            None
        };
        ViewSpec { filter, sort: self.sort }
    }

    /// Takes back sorting, searching and selecting.
    pub fn reset(&mut self)
        ensures
            final(self).sort is None,
            final(self).search@ == Seq::<char>::empty(),
            !final(self).regex,
            !final(self).invert,
            !final(self).filter_mode,
            final(self).selected is None,
            final(self).wanted() is None,
            final(self).case_sensitive == old(self).case_sensitive,
            final(self).applied == old(self).applied,
            final(self).error == old(self).error,
            final(self).selecting == old(self).selecting,
            final(self).hovered_row == old(self).hovered_row,
            final(self).find_request == old(self).find_request,
            final(self).pending_scroll == old(self).pending_scroll,
    {
        self.sort = None;
        self.search = String::new();
        self.regex = false;
        self.invert = false;
        self.filter_mode = false;
        self.selected = None;
    }
}

/// Compiles what marks matching cells: the query with the rules of the filter, but never inverted.
/// `None` where there is no query, or one that does not compile.
pub fn highlight_matcher(view: &ViewControls) -> (matcher: Option<Matcher>)
    ensures
        view.search@.len() == 0 ==> matcher is None,
        view.search@.len() > 0 ==> match crate::search::pattern_language(
            if view.regex {
                view.search@
            } else {
                crate::search::escaped(view.search@)
            },
            !view.case_sensitive,
        ) {
            Ok(texts) => matcher matches Some(m) && m.texts() == texts && !m.inverted(),
            Err(_) => matcher is None,
        },
        matcher matches Some(m) ==> !view.regex && view.case_sensitive ==> forall|text: Seq<u8>|
            #[trigger] m.texts().contains(text) <==> crate::search::occurs(
                vstd::utf8::encode_utf8(view.search@),
                text,
            ),
{
    if !view.has_query() {
        return None;
    }
    let spec = FilterSpec {
        query: copy_text(view.search.as_str()),
        regex: view.regex,
        invert: false,
        case_sensitive: view.case_sensitive,
    };
    match Matcher::compile(&spec) {
        Ok(matcher) => Some(matcher),
        Err(_) => None,
    }
}

/// A cell is marked if and only if the filter of the same controls, not inverted, keeps a row with
/// that cell alone.
pub proof fn highlight_agrees_with_filter(texts: Set<Seq<u8>>, cell: Seq<u8>)
    ensures
        texts.contains(cell) == crate::search::keeps(texts, false, seq![cell]),
{
    assert(seq![cell][0] == cell);
}

/// What is saved for a source.
#[derive(Clone, Debug, PartialEq, Eq)]
pub struct SavedView {
    /// The columns as they are shown.
    pub order: Vec<u32>,
    /// Which of them are shown.
    pub visible: Vec<bool>,
    /// The column that the rows are sorted by, and whether ascending.
    pub sort: Option<(u32, bool)>,
    /// Query, regular expression and inversion, where rows are hidden.
    pub filter: Option<(String, bool, bool)>,
    /// Whether case counts.
    pub case_sensitive: bool,
    /// The delimiter that the user chose; `None` where it is detected.
    pub delimiter: Option<u8>,
}

impl Default for SavedView {
    fn default() -> (r: SavedView)
        ensures
            r.order@ == Seq::<u32>::empty(),
            r.visible@ == Seq::<bool>::empty(),
            r.sort is None,
            r.filter is None,
            !r.case_sensitive,
            r.delimiter is None,
    {
        SavedView {
            order: Vec::new(),
            visible: Vec::new(),
            sort: None,
            filter: None,
            case_sensitive: false,
            delimiter: None,
        }
    }
}

/// The numbers of columns.
pub open spec fn column_numbers(order: Seq<ColumnId>) -> Seq<u32> {
    order.map_values(|c: ColumnId| c.0)
}

/// The columns with the given numbers.
pub open spec fn numbered_columns(order: Seq<u32>) -> Seq<ColumnId> {
    order.map_values(|c: u32| ColumnId(c))
}

/// How a sort is saved.
pub open spec fn saved_sort(sort: Option<SortKey>) -> Option<(u32, bool)> {
    match sort {
        Some(key) => Some((key.column.0, key.direction == Direction::Ascending)),
        None => None,
    }
}

/// The sort that was saved.
pub open spec fn restored_sort(sort: Option<(u32, bool)>) -> Option<SortKey> {
    match sort {
        Some((column, ascending)) => Some(
            SortKey {
                column: ColumnId(column),
                direction: if ascending {
                    Direction::Ascending
                } else {
                    Direction::Descending
                },
            },
        ),
        None => None,
    }
}

/// The content of a saved filter.
pub open spec fn saved_filter(filter: Option<(String, bool, bool)>) -> Option<
    (Seq<char>, bool, bool),
> {
    match filter {
        Some((query, regex, invert)) => Some((query@, regex, invert)),
        None => None,
    }
}

/// Whether layout, controls and a chosen delimiter were saved.
pub open spec fn is_snapshot(
    saved: SavedView,
    layout: GridLayout,
    view: ViewControls,
    delimiter: Option<u8>,
) -> bool {
    &&& saved.order@ == column_numbers(layout.order@)
    &&& saved.visible@ == layout.visible@
    &&& saved.sort == saved_sort(view.sort)
    &&& saved_filter(saved.filter) == (if view.hides() {
        Some((view.search@, view.regex, view.invert))
    } else {
        None
    })
    &&& saved.case_sensitive == view.case_sensitive
    &&& saved.delimiter == delimiter
}

/// Whether what was saved was put onto a layout and controls. Order and visibility are taken only
/// where they are for as many columns; the query only where one was saved.
pub open spec fn is_applied(
    saved: SavedView,
    layout: GridLayout,
    view: ViewControls,
    restored: GridLayout,
    shown: ViewControls,
) -> bool {
    &&& restored.order@ == (if saved.order@.len() == layout.order@.len() {
        numbered_columns(saved.order@)
    } else {
        layout.order@
    })
    &&& restored.visible@ == (if saved.visible@.len() == layout.visible@.len() {
        saved.visible@
    } else {
        layout.visible@
    })
    &&& shown.sort == restored_sort(saved.sort)
    &&& shown.case_sensitive == saved.case_sensitive
    &&& match saved_filter(saved.filter) {
        Some((query, regex, invert)) => shown.search@ == query && shown.regex == regex
            && shown.invert == invert && shown.filter_mode,
        None => shown.search == view.search && shown.regex == view.regex && shown.invert
            == view.invert && shown.filter_mode == view.filter_mode,
    }
    &&& shown.applied == view.applied
    &&& shown.error == view.error
    &&& shown.selected == view.selected
    &&& shown.selecting == view.selecting
    &&& shown.hovered_row == view.hovered_row
    &&& shown.find_request == view.find_request
    &&& shown.pending_scroll == view.pending_scroll
}

impl SavedView {
    /// Takes down layout and controls. The delimiter is the one that the user chose, if any.
    pub fn snapshot(layout: &GridLayout, view: &ViewControls, delimiter: Option<u8>) -> (saved:
        SavedView)
        ensures
            is_snapshot(saved, *layout, *view, delimiter),
    {
        let mut order: Vec<u32> = Vec::new();
        for i in 0..layout.order.len()
            invariant
                order@ == column_numbers(layout.order@.take(i as int)),
        {
            order.push(layout.order[i].0);
            assert(order@ =~= column_numbers(layout.order@.take(i + 1)));
        }
        assert(layout.order@.take(layout.order@.len() as int) =~= layout.order@);
        let filter = if view.filter_mode && view.has_query() {
            Some((copy_text(view.search.as_str()), view.regex, view.invert))
        } else {
            None
        };
        let sort = match view.sort {
            Some(key) => Some((key.column.0, key.direction == Direction::Ascending)),
            None => None,
        };
        SavedView {
            order,
            visible: copy_flags(&layout.visible),
            sort,
            filter,
            case_sensitive: view.case_sensitive,
            delimiter,
        }
    }

    /// Puts what was saved onto a layout and controls. Order and visibility are taken only where
    /// they are for as many columns.
    pub fn apply(&self, layout: &mut GridLayout, view: &mut ViewControls)
        ensures
            is_applied(*self, *old(layout), *old(view), *final(layout), *final(view)),
    {
        if self.order.len() == layout.order.len() {
            let mut order: Vec<ColumnId> = Vec::new();
            for i in 0..self.order.len()
                invariant
                    order@ == numbered_columns(self.order@.take(i as int)),
            {
                order.push(ColumnId(self.order[i]));
                assert(order@ =~= numbered_columns(self.order@.take(i + 1)));
            }
            assert(self.order@.take(self.order@.len() as int) =~= self.order@);
            layout.order = order;
        }
        if self.visible.len() == layout.visible.len() {
            layout.visible = copy_flags(&self.visible);
        }
        view.sort = match self.sort {
            Some((column, ascending)) => Some(
                SortKey {
                    column: ColumnId(column),
                    direction: if ascending {
                        Direction::Ascending
                    } else {
                        Direction::Descending
                    },
                },
            ),
            None => None,
        };
        view.case_sensitive = self.case_sensitive;
        match &self.filter {
            Some((query, regex, invert)) => {
                view.search = copy_text(query.as_str());
                view.regex = *regex;
                view.invert = *invert;
                view.filter_mode = true;
            },
            None => {},
        }
    }
}

/// A copy of flags.
fn copy_flags(flags: &Vec<bool>) -> (copy: Vec<bool>)
    ensures
        copy@ == flags@,
{
    vstd::slice::slice_to_vec(flags.as_slice())
}

/// What was saved and is put onto the layout of as many columns, and onto fresh controls, gives the
/// same order and visibility of columns and the same view as before.
pub proof fn saved_views_come_back(
    layout: GridLayout,
    view: ViewControls,
    delimiter: Option<u8>,
    saved: SavedView,
    opened: GridLayout,
    controls: ViewControls,
    restored: GridLayout,
    shown: ViewControls,
)
    requires
        is_snapshot(saved, layout, view, delimiter),
        opened.order@.len() == layout.order@.len(),
        opened.visible@.len() == layout.visible@.len(),
        !controls.filter_mode,
        is_applied(saved, opened, controls, restored, shown),
    ensures
        restored.order@ == layout.order@,
        restored.visible@ == layout.visible@,
        shown.wanted() == view.wanted(),
        shown.sort == view.sort,
{
    assert(restored.order@ =~= layout.order@);
}

/// The name of the file that keeps the saved view of a source.
pub fn view_file_name(source: &str) -> (name: String)
    ensures
        name@ == crate::text::hex_text(crate::fnv(source.spec_bytes()) as int, 16) + ".json"@,
{
    let mut name = String::new();
    push_hex(&mut name, crate::stable_hash(source), 16);
    append(&mut name, ".json");
    assert(name@ =~= crate::text::hex_text(crate::fnv(source.spec_bytes()) as int, 16) + ".json"@);
    name
}

/// What the head of a source shows counts more than its name: a file that begins with `PAR1` is
/// Parquet, whatever its name, and one whose head is laid out as JSON is JSON. Otherwise the extension
/// tells, in any case, and everything else is delimited text.
pub proof fn heads_count_more_than_names(rest: Seq<u8>, head: Seq<u8>, path: Seq<char>)
    ensures
        format_of(seq![0x50u8, 0x41, 0x52, 0x31] + rest, path) is Parquet,
        head.len() > 0 && head[0] != 0x50 && crate::json::layout_of(head) is Some ==> format_of(
            head,
            path,
        ) is Json,
        head.len() == 0 || head[0] != 0x50 ==> crate::json::layout_of(head) is None ==> {
            &&& crate::path::path_extension(path) is None ==> format_of(head, path) is Delimited
            &&& crate::path::path_extension(path) matches Some(ext) ==> {
                &&& format_of(head, path) is Parquet <==> crate::text::same_letters(
                    ext,
                    seq!['p', 'a', 'r', 'q', 'u', 'e', 't'],
                ) || crate::text::same_letters(ext, seq!['p', 'q', 't'])
                &&& format_of(head, path) is Json <==> crate::text::same_letters(
                    ext,
                    seq!['n', 'd', 'j', 's', 'o', 'n'],
                ) || crate::text::same_letters(ext, seq!['j', 's', 'o', 'n', 'l'])
            }
        },
{
    reveal_strlit("parquet");
    reveal_strlit("pqt");
    reveal_strlit("ndjson");
    reveal_strlit("jsonl");
    let parquet = seq!['p', 'a', 'r', 'q', 'u', 'e', 't'];
    let pqt = seq!['p', 'q', 't'];
    let ndjson = seq!['n', 'd', 'j', 's', 'o', 'n'];
    let jsonl = seq!['j', 's', 'o', 'n', 'l'];
    assert("parquet"@ =~= parquet);
    assert("pqt"@ =~= pqt);
    assert("ndjson"@ =~= ndjson);
    assert("jsonl"@ =~= jsonl);
}

/// Common delimiters have names; other printable ones stand for themselves, and the rest are written
/// as numbers.
pub proof fn delimiters_have_names(delimiter: u8)
    ensures
        friendly(',' as u8) == seq!['c', 'o', 'm', 'm', 'a'],
        friendly('\t' as u8) == seq!['t', 'a', 'b'],
        friendly(';' as u8) == seq!['s', 'e', 'm', 'i', 'c', 'o', 'l', 'o', 'n'],
        friendly('|' as u8) == seq!['p', 'i', 'p', 'e'],
        delimiter != ',' as u8 && delimiter != '\t' as u8 && delimiter != ';' as u8 && delimiter
            != '|' as u8 ==> entered(friendly(delimiter)) == Some(delimiter as int),
        0x20 <= delimiter <= 0x7e ==> written(delimiter) == seq![delimiter as char],
{
    reveal_strlit("comma");
    reveal_strlit("tab");
    reveal_strlit("semicolon");
    reveal_strlit("pipe");
    assert("comma"@ =~= seq!['c', 'o', 'm', 'm', 'a']);
    assert("tab"@ =~= seq!['t', 'a', 'b']);
    assert("semicolon"@ =~= seq!['s', 'e', 'm', 'i', 'c', 'o', 'l', 'o', 'n']);
    assert("pipe"@ =~= seq!['p', 'i', 'p', 'e']);
    assert(',' as u8 == 0x2c && '\t' as u8 == 0x09 && ';' as u8 == 0x3b && '|' as u8 == 0x7c);
    delimiters_read_back(delimiter);
}

/// A delimiter can be entered as one ASCII character, or as `0x` or `\\x` and two hexadecimal digits
/// in either case; nothing else is one.
pub proof fn delimiters_are_entered(c: char, a: int, b: int, input: Seq<char>)
    requires
        0 <= a < 16,
        0 <= b < 16,
    ensures
        (c as u32) < 0x80 ==> entered(seq![c]) == Some(c as int),
        c as u32 >= 0x80 ==> entered(seq![c]) is None,
        entered(seq!['0', 'x', crate::text::hex_digit(a), crate::text::hex_digit(b)]) == Some(
            16 * a + b,
        ),
        entered(seq!['\\', 'x', crate::text::hex_digit(a), crate::text::hex_digit(b)]) == Some(
            16 * a + b,
        ),
        input.len() != 1 && input.len() != 4 ==> entered(input) is None,
{
    lemma_hex_digit(a);
    lemma_hex_digit(b);
}

/// A choice of a delimiter is what it is called; the automatic one is what was detected.
pub proof fn choices_are_what_they_are_called(detected: u8)
    ensures
        fixed_delimiter(DelimiterChoice::Auto { detected }) == Some(detected),
        fixed_delimiter(DelimiterChoice::Comma) == Some(',' as u8),
        fixed_delimiter(DelimiterChoice::Pipe) == Some('|' as u8),
        fixed_delimiter(DelimiterChoice::Semicolon) == Some(';' as u8),
        fixed_delimiter(DelimiterChoice::Tab) == Some('\t' as u8),
        fixed_delimiter(DelimiterChoice::Custom) is None,
{
    assert(',' as u8 == 0x2c && '\t' as u8 == 0x09 && ';' as u8 == 0x3b && '|' as u8 == 0x7c);
}

/// Those columns are shown that are visible, and no others, in the order of all columns: a further
/// visible column is shown last.
pub proof fn visible_columns_are_shown_in_order(
    order: Seq<ColumnId>,
    visible: Seq<bool>,
    column: ColumnId,
)
    ensures
        shown_columns(Seq::empty(), visible).len() == 0,
        visible[column.0 as int] ==> shown_columns(order.push(column), visible) == shown_columns(
            order,
            visible,
        ).push(column),
        !visible[column.0 as int] ==> shown_columns(order.push(column), visible) == shown_columns(
            order,
            visible,
        ),
{
    reveal(Seq::filter);
    assert(order.push(column).drop_last() =~= order);
}

/// A column that is moved leaves the order of the others as it is: without it, the order is the same
/// as before.
pub proof fn other_columns_keep_their_order(
    order: Seq<ColumnId>,
    dragged: ColumnId,
    target: ColumnId,
    after: bool,
)
    requires
        order.no_duplicates(),
    ensures
        reordered(order, dragged, target, after).filter(|c: ColumnId| c != dragged) == order.filter(
            |c: ColumnId| c != dragged,
        ),
{
    let other = |c: ColumnId| c != dragged;
    lemma_place(order, dragged);
    match place_of(order, dragged) {
        Some(from) if dragged != target => {
            let rest = order.remove(from);
            assert(order =~= rest.insert(from, dragged));
            lemma_filter_insert(rest, from, dragged, other);
            lemma_place(rest, target);
            match place_of(rest, target) {
                Some(i) => {
                    lemma_filter_insert(
                        rest,
                        if after {
                            i + 1
                        } else {
                            i
                        },
                        dragged,
                        other,
                    );
                },
                None => {
                    assert(rest.push(dragged) =~= rest.insert(rest.len() as int, dragged));
                    lemma_filter_insert(rest, rest.len() as int, dragged, other);
                },
            }
        },
        _ => {},
    }
}

proof fn lemma_filter_insert(
    s: Seq<ColumnId>,
    at: int,
    column: ColumnId,
    keep: spec_fn(ColumnId) -> bool,
)
    requires
        0 <= at <= s.len(),
        !keep(column),
    ensures
        s.insert(at, column).filter(keep) == s.filter(keep),
    decreases s.len() - at,
{
    reveal(Seq::filter);
    let all = s.insert(at, column);
    if at == s.len() {
        assert(all.drop_last() =~= s);
    } else {
        assert(all.last() == s.last());
        assert(all.drop_last() =~= s.drop_last().insert(at, column));
        lemma_filter_insert(s.drop_last(), at, column, keep);
    }
}

/// A column is shown under its own name, and one that is not there under `col` and its number; the
/// columns of a source start in the order of the source.
pub proof fn columns_are_shown_under_their_names(
    schema: Schema,
    id: ColumnId,
    encoding: TextEncoding,
    count: nat,
    i: int,
)
    ensures
        id.0 < schema.columns@.len() ==> shown_name(schema, id, encoding)
            == crate::encoding::field_display(encoding, schema.columns@[id.0 as int].name@),
        id.0 >= schema.columns@.len() ==> shown_name(schema, id, encoding) == seq!['c', 'o', 'l']
            + crate::text::decimal_text(id.0 as int),
        source_order(count).len() == count,
        0 <= i < count <= u32::MAX ==> source_order(count)[i].0 == i,
{
    reveal_strlit("col");
    assert("col"@ =~= seq!['c', 'o', 'l']);
}

/// A selection holds the rows from where it began to where it leads, both of them included, and no
/// others.
pub proof fn selections_hold_both_ends(anchor: u64, lead: u64, row: u64)
    ensures
        (RowSpan { anchor, lead }).rows().contains(anchor),
        (RowSpan { anchor, lead }).rows().contains(lead),
        (RowSpan { anchor, lead }).rows().contains(row) <==> (anchor <= row <= lead) || (lead <= row
            <= anchor),
{
}

/// Controls hide rows only with a query, and only where hiding is switched on; the filter is then the
/// query with all of its settings.
pub proof fn controls_ask_for_their_query(view: ViewControls)
    ensures
        view.search@.len() == 0 ==> view.wanted() is None,
        !view.filter_mode ==> view.wanted() is None,
        view.filter_mode && view.search@.len() > 0 ==> (view.wanted() matches Some(
            (query, regex, invert, case_sensitive),
        ) && query == view.search@ && regex == view.regex && invert == view.invert && case_sensitive
            == view.case_sensitive),
{
}

/// What was saved keeps the chosen delimiter; order and visibility that are for another number of
/// columns, and a query that was not saved, leave what there is as it is.
pub proof fn saved_views_keep_what_does_not_fit(
    layout: GridLayout,
    view: ViewControls,
    delimiter: Option<u8>,
    saved: SavedView,
    opened: GridLayout,
    controls: ViewControls,
    restored: GridLayout,
    shown: ViewControls,
)
    requires
        is_snapshot(saved, layout, view, delimiter),
        is_applied(saved, opened, controls, restored, shown),
    ensures
        saved.delimiter == delimiter,
        shown.case_sensitive == view.case_sensitive,
        opened.order@.len() != layout.order@.len() ==> restored.order@ == opened.order@,
        opened.visible@.len() != layout.visible@.len() ==> restored.visible@ == opened.visible@,
        !view.hides() ==> shown.search == controls.search && shown.filter_mode
            == controls.filter_mode,
        view.hides() ==> shown.search@ == view.search@ && shown.filter_mode && shown.regex
            == view.regex && shown.invert == view.invert,
        shown.selected == controls.selected,
{
}

/// The name of a column for an export are the bytes of its header without the mark of UTF-8, which
/// belongs to the file.
pub proof fn bare_names_have_no_mark(rest: Seq<u8>, name: Seq<u8>)
    ensures
        bare_name(seq![0xefu8, 0xbb, 0xbf] + rest) == rest,
        name.len() < 3 || name[0] != 0xef || name[1] != 0xbb || name[2] != 0xbf ==> bare_name(name)
            == name,
{
    assert((seq![0xefu8, 0xbb, 0xbf] + rest).skip(3) =~= rest);
}

/// A column that is dropped next to one that is not there goes to the end; one that is not there
/// itself is not moved.
pub proof fn columns_without_a_neighbour_go_last(
    order: Seq<ColumnId>,
    dragged: ColumnId,
    target: ColumnId,
    after: bool,
)
    requires
        !order.contains(target) || !order.contains(dragged),
        dragged != target,
    ensures
        order.contains(dragged) ==> reordered(order, dragged, target, after).last() == dragged,
        !order.contains(dragged) ==> reordered(order, dragged, target, after) == order,
{
    lemma_place(order, dragged);
    if let Some(from) = place_of(order, dragged) {
        assert(order.contains(dragged)) by {
            assert(order[from] == dragged);
        }
        let rest = order.remove(from);
        lemma_place(rest, target);
        if let Some(i) = place_of(rest, target) {
            let k = if i < from {
                i
            } else {
                i + 1
            };
            assert(order[k] == rest[i]);
        }
    }
}

/// A filter with the content that the controls ask for searches for what they hold: the query as it is
/// or as an expression, in its own case where case counts, and inverted where that is set.
pub proof fn wanted_filters_search_for_the_query(view: ViewControls, filter: Option<FilterSpec>)
    requires
        filter_view(filter) == view.wanted(),
    ensures
        filter is Some <==> view.filter_mode && view.search@.len() > 0,
        filter matches Some(f) ==> {
            &&& f.query@ == view.search@
            &&& f.regex == view.regex
            &&& f.invert == view.invert
            &&& f.case_sensitive == view.case_sensitive
        },
{
}

} // verus!
