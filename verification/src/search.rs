//! Searching the fields of a record.
//!
//! A literal query is escaped and searched for as a regular expression, so that one path serves
//! literals and expressions. A record matches if any of its fields does; `invert` turns that round.
use vstd::prelude::*;
use crate::error::Error;

verus! {

/// A compiled regular expression over bytes.
#[verifier::external_type_specification]
#[verifier::external_body]
pub struct ExRegex(regex::bytes::Regex);

/// The texts that a compiled expression matches.
pub uninterp spec fn language(regex: regex::bytes::Regex) -> Set<Seq<u8>>;

/// The texts that a pattern matches, or what is said of a pattern that does not compile.
pub uninterp spec fn pattern_language(pattern: Seq<char>, ignore_case: bool) -> Result<
    Set<Seq<u8>>,
    Seq<char>,
>;

/// Whether a character means something in a pattern.
pub open spec fn is_meta(c: char) -> bool {
    c == '\\' || c == '.' || c == '+' || c == '*' || c == '?' || c == '(' || c == ')' || c == '|'
        || c == '[' || c == ']' || c == '{' || c == '}' || c == '^' || c == '$' || c == '#' || c
        == '&' || c == '-' || c == '~'
}

/// A text with a backslash before every character that means something in a pattern.
pub open spec fn escaped(text: Seq<char>) -> Seq<char>
    decreases text.len(),
{
    if text.len() == 0 {
        Seq::empty()
    } else if is_meta(text.last()) {
        escaped(text.drop_last()).push('\\').push(text.last())
    } else {
        escaped(text.drop_last()).push(text.last())
    }
}

/// Whether bytes occur in others.
pub open spec fn occurs(part: Seq<u8>, text: Seq<u8>) -> bool {
    exists|i: int| 0 <= i <= text.len() - part.len() && #[trigger] text.subrange(i, i + part.len()) == part
}

/// `regex::escape` puts a backslash before every character that means something in a pattern.
pub assume_specification[ regex::escape ](pattern: &str) -> (r: String)
    ensures
        r@ == escaped(pattern@),
;

/// `regex::bytes::RegexBuilder` compiles a pattern. An escaped text, searched for in its own case,
/// matches where the text occurs. Nothing is stated of which patterns compile: that depends on
/// the size that a pattern compiles to.
#[verifier::external_body]
pub(crate) fn build_regex(pattern: &str, ignore_case: bool) -> (r: Result<
    regex::bytes::Regex,
    String,
>)
    ensures
        match r {
            Ok(regex) => pattern_language(pattern@, ignore_case) == Ok::<Set<Seq<u8>>, Seq<char>>(
                language(regex),
            ),
            Err(message) => pattern_language(pattern@, ignore_case) == Err::<
                Set<Seq<u8>>,
                Seq<char>,
            >(message@),
        },
        r matches Ok(regex) ==> !ignore_case ==> forall|query: Seq<char>, text: Seq<u8>|
            #![trigger escaped(query), language(regex).contains(text)]
            pattern@ == escaped(query) ==> (language(regex).contains(text) <==> occurs(
                vstd::utf8::encode_utf8(query),
                text,
            )),
{
    regex::bytes::RegexBuilder::new(pattern)
        .case_insensitive(ignore_case)
        .build()
        .map_err(|e| e.to_string())
}

/// `regex::bytes::Regex::is_match` says whether an expression matches a text.
pub assume_specification[ regex::bytes::Regex::is_match ](
    regex: &regex::bytes::Regex,
    haystack: &[u8],
) -> (r: bool)
    ensures
        r == language(*regex).contains(haystack@),
;

/// A search, as plain data.
#[derive(Clone, Debug, PartialEq, Eq)]
pub struct FilterSpec {
    /// What to search for: a literal text, or a regular expression where `regex` is set.
    pub query: String,
    /// Whether the query is a regular expression.
    pub regex: bool,
    /// Whether to keep what does not match.
    pub invert: bool,
    /// Whether case counts.
    pub case_sensitive: bool,
}

impl Default for FilterSpec {
    fn default() -> (r: FilterSpec)
        ensures
            r.query@ == Seq::<char>::empty(),
            !r.regex,
            !r.invert,
            !r.case_sensitive,
    {
        FilterSpec { query: String::new(), regex: false, invert: false, case_sensitive: false }
    }
}

impl FilterSpec {
    /// The pattern that the query is searched for as.
    pub open spec fn pattern(&self) -> Seq<char> {
        if self.regex {
            self.query@
        } else {
            escaped(self.query@)
        }
    }

    /// The texts that the query matches, or what is said of a query that does not compile.
    pub open spec fn texts(&self) -> Result<Set<Seq<u8>>, Seq<char>> {
        pattern_language(self.pattern(), !self.case_sensitive)
    }
}

/// Whether a record with the given fields is kept by a search for the given texts.
pub open spec fn keeps(texts: Set<Seq<u8>>, invert: bool, fields: Seq<Seq<u8>>) -> bool {
    (exists|i: int| 0 <= i < fields.len() && texts.contains(#[trigger] fields[i])) != invert
}

/// What `invert` makes of whether some field matches.
pub fn verdict(found: bool, invert: bool) -> (r: bool)
    ensures
        r == (found != invert),
{
    if invert {
        !found
    } else {
        found
    }
}

/// Inverting a search keeps exactly the records that it did not keep.
pub proof fn invert_negates(texts: Set<Seq<u8>>, invert: bool, fields: Seq<Seq<u8>>)
    ensures
        keeps(texts, !invert, fields) == !keeps(texts, invert, fields),
{
}

/// What a query matches does not depend on whether the search is inverted: two searches that agree
/// in the query, in whether it is an expression and in whether case counts match the same texts.
/// Where they differ in `invert`, each record is kept by exactly one of them.
pub proof fn inverting_splits_the_records(a: FilterSpec, b: FilterSpec, fields: Seq<Seq<u8>>)
    requires
        a.query@ == b.query@,
        a.regex == b.regex,
        a.case_sensitive == b.case_sensitive,
    ensures
        a.texts() == b.texts(),
        a.texts() matches Ok(texts) ==> {
            &&& a.invert == b.invert ==> keeps(texts, a.invert, fields) == keeps(
                texts,
                b.invert,
                fields,
            )
            &&& a.invert != b.invert ==> keeps(texts, a.invert, fields) != keeps(
                texts,
                b.invert,
                fields,
            )
        },
{
}

/// A literal query is searched for as the expression that matches just it: as an expression the
/// escaped query matches the same texts, whatever it holds. An expression is searched for as it is
/// written, in its own case where case counts and in any case otherwise.
pub proof fn literals_are_searched_for_escaped(literal: FilterSpec, expression: FilterSpec)
    requires
        !literal.regex,
        expression.regex,
        literal.case_sensitive == expression.case_sensitive,
    ensures
        expression.query@ == escaped(literal.query@) ==> literal.texts() == expression.texts(),
        expression.case_sensitive ==> expression.texts() == pattern_language(
            expression.query@,
            false,
        ),
        !expression.case_sensitive ==> expression.texts() == pattern_language(
            expression.query@,
            true,
        ),
{
}

/// A search keeps a record as soon as one of its fields matches, whatever the field's position, and
/// an inverted one drops it; where no field matches it is the other way round.
pub proof fn any_field_decides(texts: Set<Seq<u8>>, fields: Seq<Seq<u8>>, i: int)
    requires
        0 <= i <= fields.len(),
        forall|j: int| 0 <= j < i ==> !texts.contains(#[trigger] fields[j]),
    ensures
        i < fields.len() && texts.contains(fields[i]) ==> keeps(texts, false, fields) && !keeps(
            texts,
            true,
            fields,
        ),
        i == fields.len() ==> !keeps(texts, false, fields) && keeps(texts, true, fields),
{
}

/// The contents of rows of bytes.
pub open spec fn contents(fields: Seq<Vec<u8>>) -> Seq<Seq<u8>> {
    fields.map_values(|f: Vec<u8>| f@)
}

/// A compiled search.
pub struct Matcher {
    regex: regex::bytes::Regex,
    invert: bool,
}

impl Matcher {
    /// The texts that are searched for.
    pub closed spec fn texts(&self) -> Set<Seq<u8>> {
        language(self.regex)
    }

    /// Whether to keep what does not match.
    pub closed spec fn inverted(&self) -> bool {
        self.invert
    }

    /// Whether a record with the given fields is kept.
    pub open spec fn keeps(&self, fields: Seq<Seq<u8>>) -> bool {
        keeps(self.texts(), self.inverted(), fields)
    }

    /// Compiles a search. A query that does not compile is an `InvalidPattern`. A literal query in
    /// its own case matches the texts in which it occurs.
    pub fn compile(spec: &FilterSpec) -> (r: Result<Matcher, Error>)
        ensures
            match spec.texts() {
                Ok(texts) => {
                    &&& r matches Ok(m)
                    &&& m.texts() == texts
                    &&& m.inverted() == spec.invert
                },
                Err(message) => r matches Err(Error::InvalidPattern(text)) && text@ == message,
            },
            r matches Ok(m) ==> !spec.regex && spec.case_sensitive ==> forall|text: Seq<u8>| #[trigger]
                m.texts().contains(text) <==> occurs(
                    vstd::utf8::encode_utf8(spec.query@),
                    text,
                ),
    {
        let pattern = if spec.regex {
            spec.query.clone()
        } else {
            regex::escape(spec.query.as_str())
        };
        match build_regex(pattern.as_str(), !spec.case_sensitive) {
            Ok(regex) => {
                let m = Matcher { regex, invert: spec.invert };
                assert(pattern@ == spec.pattern());
                assert(!spec.regex ==> pattern@ == escaped(spec.query@));
                Ok(m)
            },
            Err(message) => Err(Error::InvalidPattern(message)),
        }
    }

    /// Whether a field matches.
    pub fn hits(&self, field: &[u8]) -> (r: bool)
        ensures
            r == self.texts().contains(field@),
    {
        self.regex.is_match(field)
    }

    /// Whether a record is kept: some field matches, turned round by `invert`.
    pub fn matches(&self, record: &csv::ByteRecord) -> (r: bool)
        ensures
            r == self.keeps(crate::records::record_fields(*record)),
    {
        let ghost fields = crate::records::record_fields(*record);
        let n: usize = record.len();
        let mut found = false;
        let mut i: usize = 0;
        while i < n && !found
            invariant
                i <= n == fields.len(),
                fields == crate::records::record_fields(*record),
                found <==> exists|k: int|
                    0 <= k < i && self.texts().contains(#[trigger] fields[k]),
            decreases n - i,
        {
            let hit = match record.get(i) {
                Some(field) => self.hits(field),
                None => false,
            };
            if hit {
                assert(self.texts().contains(fields[i as int]));
                found = true;
            }
            i += 1;
        }
        verdict(found, self.invert)
    }

    /// Whether a record with the given fields is kept.
    pub fn matches_any(&self, fields: &[Vec<u8>]) -> (r: bool)
        ensures
            r == self.keeps(contents(fields@)),
    {
        let ghost all = contents(fields@);
        let mut found = false;
        let mut i: usize = 0;
        while i < fields.len() && !found
            invariant
                i <= fields.len() == all.len(),
                all == contents(fields@),
                found <==> exists|k: int| 0 <= k < i && self.texts().contains(#[trigger] all[k]),
            decreases fields.len() - i,
        {
            let hit = self.hits(fields[i].as_slice());
            if hit {
                assert(self.texts().contains(all[i as int]));
                found = true;
            }
            i += 1;
        }
        verdict(found, self.invert)
    }
}

/// The contents of fields are those of each field, in their order.
pub proof fn contents_are_those_of_each_field(fields: Seq<Vec<u8>>, i: int)
    ensures
        contents(fields).len() == fields.len(),
        0 <= i < fields.len() ==> contents(fields)[i] == fields[i]@,
{
}

} // verus!
