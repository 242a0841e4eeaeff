//! One JSON value as a row of a table: its top-level fields, and how they are shown.
use serde_json::{Number, Value};
use vstd::prelude::*;
#[allow(unused_imports)]
use vstd::string::StringSliceAdditionalSpecFns;

verus! {

/// A JSON value, as far as a table shows it.
pub enum JsonValue {
    Null,
    Bool(bool),
    /// A number: how it is written, and whether it fits in an `i64` and in a `u64`.
    Number { text: Vec<u8>, signed: bool, unsigned: bool },
    Text(String),
    /// An array or an object, written without white space.
    Compact(Vec<u8>),
}

/// The contents of a JSON value.
pub enum ValueView {
    Null,
    Bool(bool),
    Number { text: Seq<u8>, signed: bool, unsigned: bool },
    Text(Seq<char>),
    Compact(Seq<u8>),
}

impl View for JsonValue {
    type V = ValueView;

    open spec fn view(&self) -> ValueView {
        match *self {
            JsonValue::Null => ValueView::Null,
            JsonValue::Bool(b) => ValueView::Bool(b),
            JsonValue::Number { text, signed, unsigned } => ValueView::Number {
                text: text@,
                signed,
                unsigned,
            },
            JsonValue::Text(s) => ValueView::Text(s@),
            JsonValue::Compact(text) => ValueView::Compact(text@),
        }
    }
}

/// A record: a JSON value, and its fields where it is an object.
pub struct JsonRecord {
    /// The value as a whole.
    pub whole: JsonValue,
    /// The fields of an object, in their order.
    pub fields: Option<Vec<(String, JsonValue)>>,
}

/// The contents of a record.
pub struct RecordView {
    pub whole: ValueView,
    pub fields: Option<Seq<(Seq<char>, ValueView)>>,
}

/// The contents of fields.
pub open spec fn field_views(fields: Seq<(String, JsonValue)>) -> Seq<(Seq<char>, ValueView)> {
    fields.map_values(|f: (String, JsonValue)| (f.0@, f.1@))
}

impl View for JsonRecord {
    type V = RecordView;

    open spec fn view(&self) -> RecordView {
        RecordView {
            whole: self.whole@,
            fields: match self.fields {
                Some(f) => Some(field_views(f@)),
                None => None,
            },
        }
    }
}

/// A parsed JSON value.
#[verifier::external_type_specification]
#[verifier::external_body]
pub struct ExValue(serde_json::Value);

/// A parsed JSON number.
#[verifier::external_type_specification]
#[verifier::external_body]
pub struct ExNumber(serde_json::Number);

/// What a parsed value is, without what an array or an object holds.
pub(crate) enum Kind {
    Null,
    Bool(bool),
    Number(Number),
    Text(String),
    Nested,
}

/// The contents of a [`Kind`].
pub enum KindView {
    Null,
    Bool(bool),
    Number(serde_json::Number),
    Text(Seq<char>),
    Nested,
}

impl Kind {
    /// What it is.
    pub(crate) open spec fn contents(&self) -> KindView {
        match *self {
            Kind::Null => KindView::Null,
            Kind::Bool(b) => KindView::Bool(b),
            Kind::Number(n) => KindView::Number(n),
            Kind::Text(s) => KindView::Text(s@),
            Kind::Nested => KindView::Nested,
        }
    }
}

/// The value that a JSON text writes; nothing where it is no JSON.
pub uninterp spec fn json_value(text: Seq<u8>) -> Option<serde_json::Value>;

/// What a value is.
pub uninterp spec fn value_kind(value: serde_json::Value) -> KindView;

/// The fields of an object, in their order; nothing for another value.
pub uninterp spec fn object_fields(value: serde_json::Value) -> Option<
    Seq<(Seq<char>, serde_json::Value)>,
>;

/// A value written without white space.
pub uninterp spec fn compact_text(value: serde_json::Value) -> Seq<u8>;

/// How a number is written.
pub uninterp spec fn number_text(number: serde_json::Number) -> Seq<u8>;

/// Whether a number is an integer that fits in an `i64`.
pub uninterp spec fn number_signed(number: serde_json::Number) -> bool;

/// Whether a number is an integer that fits in a `u64`.
pub uninterp spec fn number_unsigned(number: serde_json::Number) -> bool;

/// `serde_json::from_slice` reads a JSON text.
#[verifier::external_body]
fn parse_value(text: &[u8]) -> (value: Option<Value>)
    ensures
        value == json_value(text@),
{
    serde_json::from_slice(text).ok()
}

/// `serde_json::Value` tells what it is.
#[verifier::external_body]
fn kind_of(value: &Value) -> (kind: Kind)
    ensures
        kind.contents() == value_kind(*value),
{
    match value {
        Value::Null => Kind::Null,
        Value::Bool(b) => Kind::Bool(*b),
        Value::Number(n) => Kind::Number(n.clone()),
        Value::String(s) => Kind::Text(s.clone()),
        Value::Array(_) => Kind::Nested,
        Value::Object(_) => Kind::Nested,
    }
}

/// The contents of the fields of an object.
pub open spec fn member_views(fields: Seq<(String, Value)>) -> Seq<(Seq<char>, Value)> {
    fields.map_values(|f: (String, Value)| (f.0@, f.1))
}

/// `serde_json::Map` gives its fields in their order.
#[verifier::external_body]
fn fields_of(value: Value) -> (fields: Option<Vec<(String, Value)>>)
    ensures
        match fields {
            Some(f) => object_fields(value) == Some(member_views(f@)),
            None => object_fields(value) is None,
        },
{
    match value {
        Value::Object(map) => Some(map.into_iter().collect()),
        _ => None,
    }
}

/// `serde_json::to_vec` writes a value without white space.
#[verifier::external_body]
fn write_compact(value: &Value) -> (text: Vec<u8>)
    ensures
        text@ == compact_text(*value),
{
    serde_json::to_vec(value).unwrap_or_default()
}

/// `serde_json::Number` is written as `std::fmt::Display` has it.
#[verifier::external_body]
fn write_number(number: &Number) -> (text: Vec<u8>)
    ensures
        text@ == number_text(*number),
{
    number.to_string().into()
}

/// `serde_json::Number::is_i64` says whether a number is an integer that fits in an `i64`.
pub assume_specification[ serde_json::Number::is_i64 ](number: &serde_json::Number) -> (r: bool)
    ensures
        r == number_signed(*number),
;

/// `serde_json::Number::is_u64` says whether a number is an integer that fits in a `u64`.
pub assume_specification[ serde_json::Number::is_u64 ](number: &serde_json::Number) -> (r: bool)
    ensures
        r == number_unsigned(*number),
;

/// A parsed value, as far as a table shows it.
pub open spec fn shown_value(value: serde_json::Value) -> ValueView {
    match value_kind(value) {
        KindView::Null => ValueView::Null,
        KindView::Bool(b) => ValueView::Bool(b),
        KindView::Number(n) => ValueView::Number {
            text: number_text(n),
            signed: number_signed(n),
            unsigned: number_unsigned(n),
        },
        KindView::Text(s) => ValueView::Text(s),
        KindView::Nested => ValueView::Compact(compact_text(value)),
    }
}

/// The record that a JSON text writes; nothing where it is no JSON.
pub open spec fn json_record(text: Seq<u8>) -> Option<RecordView> {
    match json_value(text) {
        Some(value) => Some(
            RecordView {
                whole: shown_value(value),
                fields: match object_fields(value) {
                    Some(fields) => Some(
                        fields.map_values(
                            |f: (Seq<char>, serde_json::Value)| (f.0, shown_value(f.1)),
                        ),
                    ),
                    None => None,
                },
            },
        ),
        None => None,
    }
}

/// A parsed value, as far as a table shows it.
fn show_value(value: &Value) -> (r: JsonValue)
    ensures
        r@ == shown_value(*value),
{
    match kind_of(value) {
        Kind::Null => JsonValue::Null,
        Kind::Bool(b) => JsonValue::Bool(b),
        Kind::Number(n) => JsonValue::Number {
            text: write_number(&n),
            signed: n.is_i64(),
            unsigned: n.is_u64(),
        },
        Kind::Text(s) => JsonValue::Text(s),
        Kind::Nested => JsonValue::Compact(write_compact(value)),
    }
}

/// Reads a record.
pub fn parse_record(text: &[u8]) -> (r: Option<JsonRecord>)
    ensures
        r is Some <==> json_record(text@) is Some,
        r matches Some(record) ==> json_record(text@) == Some(record@),
{
    let value = match parse_value(text) {
        Some(value) => value,
        None => return None,
    };
    let whole = show_value(&value);
    let members = match fields_of(value) {
        Some(members) => members,
        None => return Some(JsonRecord { whole, fields: None }),
    };
    let mut fields: Vec<(String, JsonValue)> = Vec::new();
    for i in 0..members.len()
        invariant
            fields@.len() == i,
            forall|j: int|
                0 <= j < i ==> (#[trigger] fields@[j]).0@ == members@[j].0@ && fields@[j].1@
                    == shown_value(members@[j].1),
    {
        fields.push((members[i].0.clone(), show_value(&members[i].1)));
    }
    let record = JsonRecord { whole, fields: Some(fields) };
    assert(record@.fields->0 =~= (json_record(text@)->0).fields->0);
    Some(record)
}

/// How a value is shown: nothing for `null`, text without quotes, everything else as it is written.
pub open spec fn rendering(value: ValueView) -> Seq<u8> {
    match value {
        ValueView::Null => Seq::empty(),
        ValueView::Bool(b) => if b {
            vstd::utf8::encode_utf8("true"@)
        } else {
            vstd::utf8::encode_utf8("false"@)
        },
        ValueView::Number { text, .. } => text,
        ValueView::Text(s) => vstd::utf8::encode_utf8(s),
        ValueView::Compact(text) => text,
    }
}

/// A truth value is shown as JSON writes it: the letters of `true` or of `false`.
pub proof fn truth_values_are_shown_as_written(text: Seq<u8>, value: serde_json::Value, b: bool)
    requires
        json_value(text) == Some(value),
        value_kind(value) == KindView::Bool(b),
    ensures
        b ==> column_rendering(json_record(text), None) == seq![0x74u8, 0x72, 0x75, 0x65],
        !b ==> column_rendering(json_record(text), None) == seq![0x66u8, 0x61, 0x6c, 0x73, 0x65],
{
    reveal_strlit("true");
    reveal_strlit("false");
    vstd::utf8::is_ascii_chars_encode_utf8("true"@);
    vstd::utf8::is_ascii_chars_encode_utf8("false"@);
    let shown = column_rendering(json_record(text), None);
    if b {
        assert(shown =~= seq![0x74u8, 0x72, 0x75, 0x65]);
    } else {
        assert(shown =~= seq![0x66u8, 0x61, 0x6c, 0x73, 0x65]);
    }
}

/// Nothing is shown of `null`. A text is shown by its characters, without quotes, so that it is
/// read back from the cell; a number and what is nested are shown as they are written.
pub proof fn values_are_shown_as_written(text: Seq<u8>, value: serde_json::Value)
    requires
        json_value(text) == Some(value),
    ensures
        ({
            let shown = column_rendering(json_record(text), None);
            match value_kind(value) {
                KindView::Null => shown.len() == 0,
                KindView::Bool(_) => shown.len() > 0,
                KindView::Number(n) => shown == number_text(n),
                KindView::Text(s) => vstd::utf8::valid_utf8(shown) && vstd::utf8::decode_utf8(shown)
                    == s,
                KindView::Nested => shown == compact_text(value),
            }
        }),
{
    match value_kind(value) {
        KindView::Bool(b) => {
            truth_values_are_shown_as_written(text, value, b);
        },
        KindView::Text(s) => {
            vstd::utf8::encode_utf8_valid_utf8(s);
            vstd::utf8::encode_utf8_decode_utf8(s);
        },
        _ => {},
    }
}

/// The value of a field is that of the first one with its key.
pub proof fn lemma_field_value(fields: Seq<(Seq<char>, ValueView)>, key: Seq<char>, i: int)
    requires
        0 <= i <= fields.len(),
        forall|j: int| 0 <= j < i ==> (#[trigger] fields[j]).0 != key,
    ensures
        i < fields.len() && fields[i].0 == key ==> field_value(fields, key) == Some(fields[i].1),
        i == fields.len() ==> field_value(fields, key) is None,
    decreases i,
{
    if i > 0 {
        assert(fields[0].0 != key);
        let rest = fields.skip(1);
        assert forall|j: int| 0 <= j < i - 1 implies (#[trigger] rest[j]).0 != key by {
            assert(rest[j] == fields[j + 1]);
        }
        lemma_field_value(rest, key, i - 1);
        if i < fields.len() {
            assert(rest[i - 1] == fields[i]);
        }
    }
}

/// A column with a key shows, of an object, what the whole column would show of the field's value:
/// of the first field with that key, whatever its position, and nothing where no field has it.
pub proof fn columns_show_their_fields(
    text: Seq<u8>,
    value: serde_json::Value,
    fields: Seq<(Seq<char>, serde_json::Value)>,
    key: Seq<char>,
    i: int,
)
    requires
        json_value(text) == Some(value),
        object_fields(value) == Some(fields),
        0 <= i <= fields.len(),
        forall|j: int| 0 <= j < i ==> (#[trigger] fields[j]).0 != key,
    ensures
        i == fields.len() ==> column_rendering(json_record(text), Some(key)).len() == 0,
        i < fields.len() && fields[i].0 == key ==> forall|own: Seq<u8>| #[trigger]
            json_value(own) == Some(fields[i].1) ==> column_rendering(json_record(text), Some(key))
                == column_rendering(json_record(own), None),
        i < fields.len() && fields[i].0 == key ==> column_rendering(json_record(text), Some(key))
            == rendering(shown_value(fields[i].1)),
{
    let shown = (json_record(text)->0).fields->0;
    assert forall|j: int| 0 <= j < i implies (#[trigger] shown[j]).0 != key by {
        assert(shown[j].0 == fields[j].0);
    }
    if i < fields.len() {
        assert(shown[i] == (fields[i].0, shown_value(fields[i].1)));
    }
    lemma_field_value(shown, key, i);
}

/// Of a text that is no JSON no column shows anything, and of a value that is no object no column
/// with a key does.
pub proof fn nothing_is_shown_of_what_is_missing(text: Seq<u8>, key: Option<Seq<char>>)
    ensures
        json_value(text) is None ==> column_rendering(json_record(text), key).len() == 0,
        json_value(text) matches Some(value) && object_fields(value) is None && key is Some
            ==> column_rendering(json_record(text), key).len() == 0,
{
}

/// How a value is shown.
pub fn render_value(value: &JsonValue) -> (bytes: Vec<u8>)
    ensures
        bytes@ == rendering(value@),
{
    match value {
        JsonValue::Null => {
            let none: Vec<u8> = Vec::new();
            assert(none@ =~= Seq::empty());
            none
        },
        JsonValue::Bool(b) => if *b {
            vstd::slice::slice_to_vec("true".as_bytes())
        } else {
            vstd::slice::slice_to_vec("false".as_bytes())
        },
        JsonValue::Number { text, .. } => vstd::slice::slice_to_vec(text.as_slice()),
        JsonValue::Text(s) => vstd::slice::slice_to_vec(s.as_str().as_bytes()),
        JsonValue::Compact(text) => vstd::slice::slice_to_vec(text.as_slice()),
    }
}

/// The value of a field; the first one where there are several.
pub open spec fn field_value(fields: Seq<(Seq<char>, ValueView)>, key: Seq<char>) -> Option<ValueView>
    decreases fields.len(),
{
    if fields.len() == 0 {
        None
    } else if fields[0].0 == key {
        Some(fields[0].1)
    } else {
        field_value(fields.skip(1), key)
    }
}

/// How a column of a record is shown: the field with the column's key, or the whole value for a
/// column without a key. Nothing where there is no such field, or no JSON.
pub open spec fn column_rendering(record: Option<RecordView>, key: Option<Seq<char>>) -> Seq<u8> {
    match record {
        None => Seq::empty(),
        Some(r) => match key {
            None => rendering(r.whole),
            Some(k) => match r.fields {
                Some(fields) => match field_value(fields, k) {
                    Some(v) => rendering(v),
                    None => Seq::empty(),
                },
                None => Seq::empty(),
            },
        },
    }
}

/// How a field is shown; nothing where there is none with the key.
fn render_field(fields: &Vec<(String, JsonValue)>, key: &String) -> (bytes: Vec<u8>)
    ensures
        bytes@ == match field_value(field_views(fields@), key@) {
            Some(v) => rendering(v),
            None => Seq::empty(),
        },
{
    let ghost all = field_views(fields@);
    assert(all.skip(0) =~= all);
    let mut i: usize = 0;
    while i < fields.len()
        invariant
            i <= fields@.len(),
            all == field_views(fields@),
            field_value(all, key@) == field_value(all.skip(i as int), key@),
        decreases fields@.len() - i,
    {
        proof {
            assert(all.skip(i as int)[0] == all[i as int]);
            assert(all[i as int] == (fields@[i as int].0@, fields@[i as int].1@));
            assert(all.skip(i as int).skip(1) =~= all.skip(i + 1));
        }
        if fields[i].0 == *key {
            return render_value(&fields[i].1);
        }
        i += 1;
    }
    let none: Vec<u8> = Vec::new();
    assert(none@ =~= Seq::empty());
    none
}

/// How a column of a record is shown.
pub fn render_column(record: &Option<JsonRecord>, key: &Option<String>) -> (bytes: Vec<u8>)
    ensures
        bytes@ == column_rendering(record_view(*record), key_view(*key)),
{
    let none: Vec<u8> = Vec::new();
    assert(none@ =~= Seq::empty());
    match record {
        None => none,
        Some(r) => match key {
            None => render_value(&r.whole),
            Some(k) => match &r.fields {
                None => none,
                Some(fields) => render_field(fields, k),
            },
        },
    }
}

/// The contents of a record, if there is one.
pub open spec fn record_view(record: Option<JsonRecord>) -> Option<RecordView> {
    match record {
        Some(r) => Some(r@),
        None => None,
    }
}

/// The contents of a key, if there is one.
pub open spec fn key_view(key: Option<String>) -> Option<Seq<char>> {
    match key {
        Some(k) => Some(k@),
        None => None,
    }
}

/// What is known of the type of a column from some of its values.
#[derive(Clone, Copy)]
pub struct TypeAcc {
    any: bool,
    all_int: bool,
    all_float: bool,
    all_bool: bool,
}

/// Whether a value is a whole number, or absent.
pub open spec fn is_int_or_null(value: ValueView) -> bool {
    value is Null || (value matches ValueView::Number { signed, unsigned, .. } && (signed
        || unsigned))
}

/// Whether a value is a number, or absent.
pub open spec fn is_number_or_null(value: ValueView) -> bool {
    value is Null || value is Number
}

/// Whether a value is a truth value, or absent.
pub open spec fn is_bool_or_null(value: ValueView) -> bool {
    value is Null || value is Bool
}

/// Whether some field with the given key has a value.
pub open spec fn any_value(entries: Seq<(Seq<char>, ValueView)>, key: Seq<char>) -> bool {
    exists|i: int|
        0 <= i < entries.len() && (#[trigger] entries[i]).0 == key && !(entries[i].1 is Null)
}

/// Whether every field with the given key is a whole number or absent.
pub open spec fn all_int(entries: Seq<(Seq<char>, ValueView)>, key: Seq<char>) -> bool {
    forall|i: int|
        0 <= i < entries.len() && (#[trigger] entries[i]).0 == key ==> is_int_or_null(entries[i].1)
}

/// Whether every field with the given key is a number or absent.
pub open spec fn all_number(entries: Seq<(Seq<char>, ValueView)>, key: Seq<char>) -> bool {
    forall|i: int|
        0 <= i < entries.len() && (#[trigger] entries[i]).0 == key ==> is_number_or_null(
            entries[i].1,
        )
}

/// Whether every field with the given key is a truth value or absent.
pub open spec fn all_bool(entries: Seq<(Seq<char>, ValueView)>, key: Seq<char>) -> bool {
    forall|i: int|
        0 <= i < entries.len() && (#[trigger] entries[i]).0 == key ==> is_bool_or_null(entries[i].1)
}

/// What the fields with the given key look like: a type only where every value fits it.
pub open spec fn key_type(
    entries: Seq<(Seq<char>, ValueView)>,
    key: Seq<char>,
) -> crate::viewport::InferredType {
    if !any_value(entries, key) {
        crate::viewport::InferredType::Text
    } else if all_int(entries, key) {
        crate::viewport::InferredType::Integer
    } else if all_number(entries, key) {
        crate::viewport::InferredType::Float
    } else if all_bool(entries, key) {
        crate::viewport::InferredType::Boolean
    } else {
        crate::viewport::InferredType::Text
    }
}

impl TypeAcc {
    /// Whether this is what the fields with the given key say.
    pub closed spec fn describes(
        &self,
        entries: Seq<(Seq<char>, ValueView)>,
        key: Seq<char>,
    ) -> bool {
        &&& self.any == any_value(entries, key)
        &&& self.all_int == all_int(entries, key)
        &&& self.all_float == all_number(entries, key)
        &&& self.all_bool == all_bool(entries, key)
    }

    /// Before any field with the key.
    pub fn new() -> (r: TypeAcc)
        ensures
            forall|entries: Seq<(Seq<char>, ValueView)>, key: Seq<char>|
                (forall|i: int| 0 <= i < entries.len() ==> (#[trigger] entries[i]).0 != key)
                    ==> #[trigger] r.describes(entries, key),
    {
        TypeAcc { any: false, all_int: true, all_float: true, all_bool: true }
    }

    /// A field with another key changes nothing.
    pub proof fn lemma_other(
        self,
        entries: Seq<(Seq<char>, ValueView)>,
        key: Seq<char>,
        entry: (Seq<char>, ValueView),
    )
        requires
            self.describes(entries, key),
            entry.0 != key,
        ensures
            self.describes(entries.push(entry), key),
    {
        let after = entries.push(entry);
        assert forall|i: int| 0 <= i < entries.len() implies after[i] == entries[i] by {}
        if any_value(entries, key) {
            let i = choose|i: int|
                0 <= i < entries.len() && (#[trigger] entries[i]).0 == key && !(entries[i].1 is Null);
            assert(after[i] == entries[i]);
        }
        assert(all_int(entries, key) == all_int(after, key));
        assert(all_number(entries, key) == all_number(after, key));
        assert(all_bool(entries, key) == all_bool(after, key));
    }

    /// Takes the value of one more field into account.
    pub fn observe(
        &mut self,
        value: &JsonValue,
        Ghost(entries): Ghost<Seq<(Seq<char>, ValueView)>>,
        Ghost(key): Ghost<Seq<char>>,
    )
        requires
            old(self).describes(entries, key),
        ensures
            final(self).describes(entries.push((key, value@)), key),
    {
        let ghost after = entries.push((key, value@));
        match value {
            JsonValue::Null => {},
            JsonValue::Number { signed, unsigned, .. } => {
                self.any = true;
                self.all_bool = false;
                self.all_int = self.all_int && (*signed || *unsigned);
            },
            JsonValue::Bool(_) => {
                self.any = true;
                self.all_int = false;
                self.all_float = false;
            },
            _ => {
                self.any = true;
                self.all_int = false;
                self.all_float = false;
                self.all_bool = false;
            },
        }
        proof {
            assert forall|i: int| 0 <= i < entries.len() implies after[i] == entries[i] by {}
            let last = after[entries.len() as int];
            assert(last == (key, value@));
            if any_value(entries, key) {
                let i = choose|i: int|
                    0 <= i < entries.len() && (#[trigger] entries[i]).0 == key
                        && !(entries[i].1 is Null);
                assert(after[i] == entries[i]);
            }
            assert(all_int(after, key) == (all_int(entries, key) && is_int_or_null(value@)));
            assert(all_number(after, key) == (all_number(entries, key) && is_number_or_null(
                value@,
            )));
            assert(all_bool(after, key) == (all_bool(entries, key) && is_bool_or_null(value@)));
        }
    }

    /// The type of the column.
    pub fn resolve(
        &self,
        Ghost(entries): Ghost<Seq<(Seq<char>, ValueView)>>,
        Ghost(key): Ghost<Seq<char>>,
    ) -> (r: crate::viewport::InferredType)
        requires
            self.describes(entries, key),
        ensures
            r == key_type(entries, key),
    {
        if !self.any {
            crate::viewport::InferredType::Text
        } else if self.all_int {
            crate::viewport::InferredType::Integer
        } else if self.all_float {
            crate::viewport::InferredType::Float
        } else if self.all_bool {
            crate::viewport::InferredType::Boolean
        } else {
            crate::viewport::InferredType::Text
        }
    }
}

/// The contents of a record are those of its value and of each of its fields, in their order.
pub proof fn record_contents_are_those_of_each_field(record: JsonRecord, i: int)
    ensures
        record@.whole == record.whole@,
        record@.fields is Some <==> record.fields is Some,
        record.fields matches Some(fields) ==> {
            &&& (record@.fields->0).len() == fields@.len()
            &&& 0 <= i < fields@.len() ==> record@.fields->0[i] == (fields@[i].0@, fields@[i].1@)
        },
{
}

} // verus!
