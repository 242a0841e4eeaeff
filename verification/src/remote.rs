//! Sources in object stores: which targets are remote, how an object's local copy is named, which
//! options a store is opened with, and how a listing is put together.
use vstd::prelude::*;
#[allow(unused_imports)]
use vstd::string::StringSliceAdditionalSpecFns;
use crate::error::Error;
use crate::gzip::lower_case;
use crate::path::find_last;
use crate::sort::below;
use crate::stable_hash;
use crate::text::{append, chars_of, push_decimal, push_hex, string_of};

verus! {

/// The parts of a URL that the library reads.
pub struct UrlParts {
    /// In lower case, without the colon.
    pub scheme: String,
    /// The bucket, for an object store.
    pub host: Option<String>,
    /// What stands between the slashes of the path; `None` where the path does not start with one.
    pub segments: Option<Vec<String>>,
}

/// The contents of the parts of a URL.
pub struct UrlView {
    pub scheme: Seq<char>,
    pub host: Option<Seq<char>>,
    pub segments: Option<Seq<Seq<char>>>,
}

/// The contents of texts.
pub open spec fn texts(list: Seq<String>) -> Seq<Seq<char>> {
    list.map_values(|s: String| s@)
}

/// The content of a text that may be missing.
pub open spec fn optional(text: Option<String>) -> Option<Seq<char>> {
    match text {
        Some(t) => Some(t@),
        None => None,
    }
}

impl View for UrlParts {
    type V = UrlView;

    open spec fn view(&self) -> UrlView {
        UrlView {
            scheme: self.scheme@,
            host: optional(self.host),
            segments: match self.segments {
                Some(list) => Some(texts(list@)),
                None => None,
            },
        }
    }
}

/// The parts of the URL that a text writes; nothing where it writes none.
pub uninterp spec fn parsed_url(text: Seq<char>) -> Option<UrlView>;

/// `url::Url::parse` reads an absolute URL, `url::Url::scheme`, `host_str` and `path_segments` give
/// its parts; a path has at least one segment. The message of a failure is left open.
#[verifier::external_body]
pub(crate) fn parse_url(text: &str) -> (url: Result<UrlParts, String>)
    ensures
        match url {
            Ok(parts) => parsed_url(text@) == Some(parts@),
            Err(_) => parsed_url(text@) is None,
        },
        url matches Ok(parts) ==> (parts@.segments matches Some(list) ==> list.len() > 0),
{
    let url = url::Url::parse(text).map_err(|e| e.to_string())?;
    Ok(UrlParts {
        scheme: url.scheme().to_owned(),
        host: url.host_str().map(str::to_owned),
        segments: url.path_segments().map(|list| list.map(str::to_owned).collect()),
    })
}

/// The parts of the URL that names a remote location.
pub fn locate(location: &str) -> (url: Result<UrlParts, Error>)
    ensures
        match url {
            Ok(parts) => parsed_url(location@) == Some(parts@),
            Err(e) => parsed_url(location@) is None && e is Remote,
        },
{
    match parse_url(location) {
        Ok(parts) => Ok(parts),
        Err(message) => {
            let mut text = String::new();
            append(&mut text, "invalid URL: ");
            append(&mut text, message.as_str());
            Err(Error::Remote(text))
        },
    }
}

/// Whether a scheme is that of an object store.
pub open spec fn is_remote_scheme(scheme: Seq<char>) -> bool {
    ||| scheme == "s3"@
    ||| scheme == "s3a"@
    ||| scheme == "gs"@
    ||| scheme == "gcs"@
    ||| scheme == "az"@
    ||| scheme == "azure"@
    ||| scheme == "adl"@
    ||| scheme == "abfs"@
    ||| scheme == "abfss"@
    ||| scheme == "http"@
    ||| scheme == "https"@
}

/// Whether a scheme is that of S3.
pub open spec fn is_s3_scheme(scheme: Seq<char>) -> bool {
    scheme == "s3"@ || scheme == "s3a"@
}

/// Whether two texts are equal.
pub fn same_text(a: &str, b: &str) -> (r: bool)
    ensures
        r == (a@ == b@),
{
    let x = chars_of(a);
    let y = chars_of(b);
    if x.len() != y.len() {
        return false;
    }
    for i in 0..x.len()
        invariant
            x@ == a@,
            y@ == b@,
            x.len() == y.len(),
            forall|j: int| 0 <= j < i ==> x@[j] == y@[j],
    {
        if x[i] != y[i] {
            return false;
        }
    }
    assert(x@ =~= y@);
    true
}

/// Whether a scheme is that of an object store.
pub fn remote_scheme(scheme: &str) -> (r: bool)
    ensures
        r == is_remote_scheme(scheme@),
{
    same_text(scheme, "s3") || same_text(scheme, "s3a") || same_text(scheme, "gs") || same_text(
        scheme,
        "gcs",
    ) || same_text(scheme, "az") || same_text(scheme, "azure") || same_text(scheme, "adl")
        || same_text(scheme, "abfs") || same_text(scheme, "abfss") || same_text(scheme, "http")
        || same_text(scheme, "https")
}

/// Whether a scheme is that of S3.
pub fn s3_scheme(scheme: &str) -> (r: bool)
    ensures
        r == is_s3_scheme(scheme@),
{
    same_text(scheme, "s3") || same_text(scheme, "s3a")
}

/// Whether a target names a remote object, rather than a local path.
pub fn is_remote(target: &str) -> (r: bool)
    ensures
        r <==> (parsed_url(target@) is Some && is_remote_scheme(parsed_url(target@)->Some_0.scheme)),
{
    match parse_url(target) {
        Ok(url) => remote_scheme(url.scheme.as_str()),
        Err(_) => false,
    }
}

/// Whether a target is a URL of S3, the only one that AWS credentials are for.
pub fn is_s3(target: &str) -> (r: bool)
    ensures
        r <==> (parsed_url(target@) is Some && is_s3_scheme(parsed_url(target@)->Some_0.scheme)),
{
    match parse_url(target) {
        Ok(url) => s3_scheme(url.scheme.as_str()),
        Err(_) => false,
    }
}

/// Every S3 target is remote.
pub proof fn s3_is_remote(scheme: Seq<char>)
    ensures
        is_s3_scheme(scheme) ==> is_remote_scheme(scheme),
{
}

/// A copy of a text.
pub fn copy_text(text: &str) -> (copy: String)
    ensures
        copy@ == text@,
{
    let chars = chars_of(text);
    string_of(chars.as_slice())
}

/// The bucket of an S3 URL; nothing for other URLs.
pub open spec fn bucket_of(url: UrlView) -> Option<Seq<char>> {
    if is_s3_scheme(url.scheme) {
        url.host
    } else {
        None
    }
}

/// The bucket name of an S3 URL, else `None`.
pub fn s3_bucket(url: &UrlParts) -> (bucket: Option<String>)
    ensures
        optional(bucket) == bucket_of(url@),
{
    if s3_scheme(url.scheme.as_str()) {
        match &url.host {
            Some(host) => Some(copy_text(host.as_str())),
            None => None,
        }
    } else {
        None
    }
}

/// The root that the keys of a store are relative to: scheme and bucket.
pub open spec fn base_of(scheme: Seq<char>, host: Seq<char>) -> Seq<char> {
    scheme + "://"@ + host
}

/// Writes the root that the keys of a store are relative to.
fn base_url(scheme: &str, host: &str) -> (base: String)
    ensures
        base@ == base_of(scheme@, host@),
{
    let mut base = copy_text(scheme);
    append(&mut base, "://");
    append(&mut base, host);
    base
}

/// The segments that are not empty.
pub open spec fn named(segments: Seq<Seq<char>>) -> Seq<Seq<char>>
    decreases segments.len(),
{
    if segments.len() == 0 {
        Seq::empty()
    } else if segments.last().len() == 0 {
        named(segments.drop_last())
    } else {
        named(segments.drop_last()).push(segments.last())
    }
}

/// Segments, each followed by a slash.
pub open spec fn slashed(segments: Seq<Seq<char>>) -> Seq<char>
    decreases segments.len(),
{
    if segments.len() == 0 {
        Seq::empty()
    } else {
        slashed(segments.drop_last()) + segments.last() + "/"@
    }
}

/// The prefix one level up: all but the last of the named segments. Nothing at the root, nor for a
/// URL without a host.
pub open spec fn parent_of(url: UrlView) -> Option<Seq<char>> {
    match (url.segments, url.host) {
        (Some(segments), Some(host)) => {
            let list = named(segments);
            if list.len() == 0 {
                None
            } else {
                Some(base_of(url.scheme, host) + "/"@ + slashed(list.drop_last()))
            }
        },
        _ => None,
    }
}

/// The prefix one level up from a location.
pub fn parent(url: &UrlParts) -> (up: Option<String>)
    ensures
        optional(up) == parent_of(url@),
{
    match (&url.segments, &url.host) {
        (Some(segments), Some(host)) => {
            let ghost all = texts(segments@);
            let mut names: Vec<usize> = Vec::new();
            let ghost mut list: Seq<Seq<char>> = Seq::empty();
            assert(all.take(0) =~= Seq::empty());
            for i in 0..segments.len()
                invariant
                    all == texts(segments@),
                    list == named(all.take(i as int)),
                    names@.len() == list.len(),
                    forall|j: int|
                        0 <= j < names@.len() ==> #[trigger] names@[j] < segments@.len() && all[names@[j] as int]
                            == list[j],
            {
                assert(all.take(i + 1).drop_last() =~= all.take(i as int));
                assert(all.take(i + 1).last() == segments@[i as int]@);
                if chars_of(segments[i].as_str()).len() > 0 {
                    names.push(i);
                    proof {
                        list = list.push(all[i as int]);
                    }
                }
            }
            assert(all.take(all.len() as int) =~= all);
            if names.len() == 0 {
                return None;
            }
            let mut up = base_url(url.scheme.as_str(), host.as_str());
            append(&mut up, "/");
            let ghost base = up@;
            assert(list.take(0) =~= Seq::empty());
            assert(base + slashed(list.take(0)) =~= base);
            for k in 0..(names.len() - 1)
                invariant
                    all == texts(segments@),
                    0 < names@.len() == list.len(),
                    forall|j: int|
                        0 <= j < names@.len() ==> #[trigger] names@[j] < segments@.len() && all[names@[j] as int]
                            == list[j],
                    up@ == base + slashed(list.take(k as int)),
            {
                let at: usize = names[k];
                append(&mut up, segments[at].as_str());
                append(&mut up, "/");
                proof {
                    assert(list.take(k + 1).drop_last() =~= list.take(k as int));
                    assert(list.take(k + 1).last() == segments@[at as int]@);
                    assert(up@ =~= base + slashed(list.take(k + 1)));
                }
            }
            assert(list.take(list.len() - 1) =~= list.drop_last());
            Some(up)
        },
        _ => None,
    }
}

/// The prefix one level up from a location; `None` at the root of a bucket.
pub fn parent_url(location: &str) -> (up: Option<String>)
    ensures
        optional(up) == (match parsed_url(location@) {
            Some(url) => parent_of(url),
            None => None,
        }),
{
    match parse_url(location) {
        Ok(url) => parent(&url),
        Err(_) => None,
    }
}

/// The last segment of a key that is not empty, if there is one.
pub open spec fn last_named(key: Seq<char>) -> Option<Seq<char>>
    decreases key.len(),
    via last_named_decreases
{
    let segment = crate::path::behind_last(key, '/');
    if segment.len() > 0 {
        Some(segment)
    } else {
        match crate::path::before_last(key, '/') {
            Some(front) => last_named(front),
            None => None,
        }
    }
}

#[via_fn]
proof fn last_named_decreases(key: Seq<char>) {
    crate::path::cut_at_last(key, '/');
}

/// The name of a key: its last segment that is not empty, or all of it where there is none.
pub open spec fn key_name(key: Seq<char>) -> Seq<char> {
    match last_named(key) {
        Some(name) => name,
        None => key,
    }
}

/// The last non-empty segment of a key, which is the name it is shown under.
pub fn last_segment(key: &str) -> (name: String)
    ensures
        name@ == key_name(key@),
{
    let chars = chars_of(key);
    let mut end: usize = chars.len();
    assert(chars@.take(end as int) =~= chars@);
    loop
        invariant
            chars@ == key@,
            end <= chars.len(),
            last_named(key@) == last_named(chars@.take(end as int)),
        decreases end,
    {
        let front = vstd::slice::slice_subrange(chars.as_slice(), 0, end);
        assert(front@ =~= chars@.take(end as int));
        match find_last(front, '/') {
            Some(i) => {
                if i + 1 < end {
                    let segment = vstd::slice::slice_subrange(front, i + 1, end);
                    assert(segment@ =~= front@.skip(i + 1));
                    return string_of(segment);
                }
                assert(front@.skip(i + 1) =~= Seq::empty());
                assert(front@.take(i as int) =~= chars@.take(i as int));
                end = i;
            },
            None => {
                if end > 0 {
                    return string_of(front);
                }
                return copy_text(key);
            },
        }
    }
}

/// Whether a character is an ASCII letter or digit.
pub open spec fn is_alphanumeric(c: char) -> bool {
    '0' <= c <= '9' || 'a' <= c <= 'z' || 'A' <= c <= 'Z'
}

/// The extension of a name, in lower case, if it is short and made of letters and digits.
pub open spec fn short_extension(name: Seq<char>) -> Option<Seq<char>> {
    let ext = crate::path::behind_last(name, '.');
    if crate::path::before_last(name, '.') is Some && 0 < ext.len() <= 8 && (forall|i: int|
        0 <= i < ext.len() ==> is_alphanumeric(#[trigger] ext[i])) {
        Some(crate::gzip::lowered(ext))
    } else {
        None
    }
}

/// The extension of the last segment of a URL.
pub open spec fn extension_of(url: Option<UrlView>) -> Option<Seq<char>> {
    match url {
        Some(u) => match u.segments {
            Some(segments) => if segments.len() > 0 {
                short_extension(segments.last())
            } else {
                None
            },
            None => None,
        },
        None => None,
    }
}

/// The extension of a name, in lower case, if it is at most eight letters and digits.
pub fn name_extension(name: &str) -> (ext: Option<String>)
    ensures
        optional(ext) == short_extension(name@),
{
    let chars = chars_of(name);
    let n: usize = chars.len();
    match find_last(chars.as_slice(), '.') {
        Some(i) => {
            let ext = vstd::slice::slice_subrange(chars.as_slice(), i + 1, n);
            assert(ext@ =~= chars@.skip(i + 1));
            if ext.len() == 0 || ext.len() > 8 {
                return None;
            }
            for k in 0..ext.len()
                invariant
                    ext@ == crate::path::behind_last(name@, '.'),
                    forall|j: int| 0 <= j < k ==> is_alphanumeric(#[trigger] ext@[j]),
            {
                let c: char = ext[k];
                if !(('0' <= c && c <= '9') || ('a' <= c && c <= 'z') || ('A' <= c && c <= 'Z')) {
                    assert(!is_alphanumeric(ext@[k as int]));
                    return None;
                }
            }
            let low = lower_case(ext);
            Some(string_of(low.as_slice()))
        },
        None => None,
    }
}

/// The extension of the object that a URL names: short, alphanumeric, in lower case.
pub fn url_extension(target: &str) -> (ext: Option<String>)
    ensures
        optional(ext) == extension_of(parsed_url(target@)),
{
    match parse_url(target) {
        Ok(url) => match &url.segments {
            Some(segments) => {
                let n: usize = segments.len();
                if n == 0 {
                    return None;
                }
                assert(texts(segments@).last() == segments@[n - 1]@);
                name_extension(segments[n - 1].as_str())
            },
            None => None,
        },
        Err(_) => None,
    }
}

/// The name of the local copy of an object.
pub open spec fn object_name(url_hash: u64, id_hash: u64, ext: Option<Seq<char>>) -> Seq<char> {
    let stem = crate::text::hex_text(url_hash as int, 16) + "-"@ + crate::text::hex_text(
        id_hash as int,
        16,
    );
    match ext {
        Some(e) => stem + "."@ + e,
        None => stem,
    }
}

/// The name of the local copy of the object at a URL, as it is when it has the given identity.
pub fn cache_name(target: &str, identity: &str) -> (name: String)
    ensures
        name@ == object_name(
            crate::fnv(target.spec_bytes()),
            crate::fnv(identity.spec_bytes()),
            extension_of(parsed_url(target@)),
        ),
{
    let mut name = String::new();
    push_hex(&mut name, stable_hash(target), 16);
    append(&mut name, "-");
    push_hex(&mut name, stable_hash(identity), 16);
    proof {
        let front = crate::text::hex_text(crate::fnv(target.spec_bytes()) as int, 16);
        assert(Seq::<char>::empty() + front =~= front);
    }
    match url_extension(target) {
        Some(ext) => {
            append(&mut name, ".");
            append(&mut name, ext.as_str());
            name
        },
        None => name,
    }
}

/// What tells one content of an object from another: its tag, or else its size and the time of its
/// last change.
pub fn object_identity(e_tag: Option<String>, size: u64, last_modified: &str) -> (identity: String)
    ensures
        identity@ == (match e_tag {
            Some(tag) => tag@,
            None => crate::text::decimal_text(size as int) + "-"@ + last_modified@,
        }),
{
    match e_tag {
        Some(tag) => tag,
        None => {
            let mut identity = String::new();
            push_decimal(&mut identity, size);
            append(&mut identity, "-");
            append(&mut identity, last_modified);
            proof {
                let digits = crate::text::decimal_text(size as int);
                assert(Seq::<char>::empty() + digits =~= digits);
            }
            identity
        },
    }
}

/// The contents of options.
pub open spec fn pairs(options: Seq<(String, String)>) -> Seq<(Seq<char>, Seq<char>)> {
    options.map_values(|o: (String, String)| (o.0@, o.1@))
}

/// The value that counts for a key: that of its last occurrence.
pub open spec fn effective(
    options: Seq<(Seq<char>, Seq<char>)>,
    key: Seq<char>,
) -> Option<Seq<char>>
    decreases options.len(),
{
    if options.len() == 0 {
        None
    } else if options.last().0 == key {
        Some(options.last().1)
    } else {
        effective(options.drop_last(), key)
    }
}

/// The value at the first occurrence of a key.
pub open spec fn first_value(
    options: Seq<(Seq<char>, Seq<char>)>,
    key: Seq<char>,
) -> Option<Seq<char>>
    decreases options.len(),
{
    if options.len() == 0 {
        None
    } else if options[0].0 == key {
        Some(options[0].1)
    } else {
        first_value(options.drop_first(), key)
    }
}

/// Of options that are laid over others, the upper ones count.
pub proof fn later_options_win(
    lower: Seq<(Seq<char>, Seq<char>)>,
    upper: Seq<(Seq<char>, Seq<char>)>,
    key: Seq<char>,
)
    ensures
        effective(lower + upper, key) == (match effective(upper, key) {
            Some(value) => Some(value),
            None => effective(lower, key),
        }),
    decreases upper.len(),
{
    if upper.len() == 0 {
        assert(lower + upper =~= lower);
    } else {
        assert((lower + upper).last() == upper.last());
        assert((lower + upper).drop_last() =~= lower + upper.drop_last());
        later_options_win(lower, upper.drop_last(), key);
    }
}

/// Lays the options of the application over those of the environment: they come last, so that they
/// count.
pub fn merge_options(env: Vec<(String, String)>, extra: &[(String, String)]) -> (merged: Vec<
    (String, String),
>)
    ensures
        pairs(merged@) == pairs(env@) + pairs(extra@),
        forall|key: Seq<char>| #[trigger]
            effective(pairs(merged@), key) == (match effective(pairs(extra@), key) {
                Some(value) => Some(value),
                None => effective(pairs(env@), key),
            }),
{
    let mut merged = env;
    assert(pairs(merged@) =~= pairs(env@) + pairs(extra@.take(0)));
    for i in 0..extra.len()
        invariant
            pairs(merged@) == pairs(env@) + pairs(extra@.take(i as int)),
    {
        let option = (copy_text(extra[i].0.as_str()), copy_text(extra[i].1.as_str()));
        let ghost before = merged@;
        merged.push(option);
        proof {
            assert(pairs(before.push(option)) =~= pairs(before).push((option.0@, option.1@)));
            assert(pairs(extra@.take(i + 1)) =~= pairs(extra@.take(i as int)).push(
                (extra@[i as int].0@, extra@[i as int].1@),
            ));
            assert(pairs(merged@) =~= pairs(env@) + pairs(extra@.take(i + 1)));
        }
    }
    proof {
        assert(extra@.take(extra@.len() as int) =~= extra@);
        assert forall|key: Seq<char>| #[trigger]
            effective(pairs(merged@), key) == (match effective(pairs(extra@), key) {
                Some(value) => Some(value),
                None => effective(pairs(env@), key),
            }) by {
            later_options_win(pairs(env@), pairs(extra@), key);
        }
    }
    merged
}

/// The value of the first option with a key.
pub fn option_value(options: &[(String, String)], key: &str) -> (value: Option<String>)
    ensures
        optional(value) == first_value(pairs(options@), key@),
{
    let ghost all = pairs(options@);
    assert(all.skip(0) =~= all);
    for i in 0..options.len()
        invariant
            all == pairs(options@),
            first_value(all, key@) == first_value(all.skip(i as int), key@),
    {
        assert(all.skip(i as int)[0] == all[i as int]);
        assert(all.skip(i as int).drop_first() =~= all.skip(i + 1));
        if same_text(options[i].0.as_str(), key) {
            return Some(copy_text(options[i].1.as_str()));
        }
    }
    assert(all.skip(all.len() as int) =~= Seq::empty());
    None
}

/// The bucket whose region has to be found out before its store is opened: that of an S3 URL, unless
/// the options name an endpoint of their own.
pub fn region_bucket(url: &UrlParts, options: &[(String, String)]) -> (bucket: Option<String>)
    ensures
        optional(bucket) == (if first_value(pairs(options@), "aws_endpoint"@) is Some {
            None
        } else {
            bucket_of(url@)
        }),
{
    if option_value(options, "aws_endpoint").is_some() {
        None
    } else {
        s3_bucket(url)
    }
}

/// The options that a store is opened with: those of the environment, over them those of the
/// application, and last the region of the bucket, where it was found out.
pub fn store_options(
    env: Vec<(String, String)>,
    extra: &[(String, String)],
    region: Option<String>,
) -> (options: Vec<(String, String)>)
    ensures
        pairs(options@) == pairs(env@) + pairs(extra@) + (match region {
            Some(r) => seq![("aws_region"@, r@)],
            None => Seq::empty(),
        }),
        region matches Some(r) ==> effective(pairs(options@), "aws_region"@) == Some(r@),
{
    let mut options = merge_options(env, extra);
    let ghost merged = pairs(options@);
    match region {
        Some(r) => {
            let ghost before = options@;
            let option = (copy_text("aws_region"), r);
            options.push(option);
            proof {
                assert(pairs(before.push(option)) =~= pairs(before).push((option.0@, option.1@)));
                assert(merged.push(("aws_region"@, r@)) =~= merged + seq![("aws_region"@, r@)]);
                assert(pairs(options@).last() == ("aws_region"@, r@));
            }
            options
        },
        None => {
            assert(merged + Seq::<(Seq<char>, Seq<char>)>::empty() =~= merged);
            options
        },
    }
}

/// Appends one option.
fn push_option(options: &mut Vec<(String, String)>, key: &str, value: String)
    ensures
        pairs(final(options)@) == pairs(old(options)@).push((key@, value@)),
{
    let option = (copy_text(key), value);
    let ghost before = options@;
    options.push(option);
    assert(pairs(before.push(option)) =~= pairs(before).push((option.0@, option.1@)));
}

/// The options that hand credentials to a store.
pub open spec fn credentials_of(
    key: Seq<char>,
    secret: Seq<char>,
    token: Option<Seq<char>>,
    region: Option<Seq<char>>,
) -> Seq<(Seq<char>, Seq<char>)> {
    let keys = seq![("aws_access_key_id"@, key), ("aws_secret_access_key"@, secret)];
    let with_token = match token {
        Some(t) => keys.push(("aws_session_token"@, t)),
        None => keys,
    };
    match region {
        Some(r) => with_token.push(("aws_region"@, r)),
        None => with_token,
    }
}

/// Credentials as options of a store.
pub fn credential_options(
    access_key_id: String,
    secret_access_key: String,
    session_token: Option<String>,
    region: Option<String>,
) -> (options: Vec<(String, String)>)
    ensures
        pairs(options@) == credentials_of(
            access_key_id@,
            secret_access_key@,
            optional(session_token),
            optional(region),
        ),
{
    let mut options: Vec<(String, String)> = Vec::new();
    assert(pairs(options@) =~= Seq::empty());
    push_option(&mut options, "aws_access_key_id", access_key_id);
    push_option(&mut options, "aws_secret_access_key", secret_access_key);
    proof {
        assert(pairs(options@) =~= seq![
            ("aws_access_key_id"@, access_key_id@),
            ("aws_secret_access_key"@, secret_access_key@),
        ]);
    }
    match session_token {
        Some(token) => push_option(&mut options, "aws_session_token", token),
        None => {},
    }
    match region {
        Some(region) => push_option(&mut options, "aws_region", region),
        None => {},
    }
    options
}

/// How to connect to S3 to find out its buckets.
#[derive(Clone, Debug)]
pub struct S3Auth {
    pub profile: Option<String>,
    pub region: Option<String>,
    pub access_key_id: Option<String>,
    pub secret_access_key: Option<String>,
    pub session_token: Option<String>,
    /// The endpoint of a store that is compatible with S3.
    pub endpoint: Option<String>,
}

impl Default for S3Auth {
    fn default() -> (auth: S3Auth)
        ensures
            auth.profile is None,
            auth.region is None,
            auth.access_key_id is None,
            auth.secret_access_key is None,
            auth.session_token is None,
            auth.endpoint is None,
    {
        S3Auth {
            profile: None,
            region: None,
            access_key_id: None,
            secret_access_key: None,
            session_token: None,
            endpoint: None,
        }
    }
}

impl S3Auth {
    /// The static key and secret, which override the chain of providers; only both together do.
    pub fn static_keys(&self) -> (keys: Option<(String, String)>)
        ensures
            match (self.access_key_id, self.secret_access_key) {
                (Some(key), Some(secret)) => keys matches Some((k, s)) && k@ == key@ && s@
                    == secret@,
                _ => keys is None,
            },
    {
        match (&self.access_key_id, &self.secret_access_key) {
            (Some(key), Some(secret)) => Some(
                (copy_text(key.as_str()), copy_text(secret.as_str())),
            ),
            _ => None,
        }
    }

    /// The endpoint to connect to, unless it is empty.
    pub fn custom_endpoint(&self) -> (endpoint: Option<String>)
        ensures
            optional(endpoint) == (match self.endpoint {
                Some(e) => if e@.len() > 0 {
                    Some(e@)
                } else {
                    None
                },
                None => None,
            }),
    {
        match &self.endpoint {
            Some(endpoint) => {
                let chars = chars_of(endpoint.as_str());
                if chars.len() > 0 {
                    Some(string_of(chars.as_slice()))
                } else {
                    None
                }
            },
            None => None,
        }
    }
}

/// One entry of a listing: a prefix to go into, or an object to open.
#[derive(Clone, Debug, PartialEq, Eq)]
pub struct DirEntry {
    /// The full URL.
    pub url: String,
    /// The name that is shown.
    pub name: String,
    /// Whether this is a prefix.
    pub is_dir: bool,
    /// The size of an object in bytes.
    pub size: Option<u64>,
}

/// The contents of an entry.
pub struct EntryView {
    pub url: Seq<char>,
    pub name: Seq<char>,
    pub is_dir: bool,
    pub size: Option<u64>,
}

impl View for DirEntry {
    type V = EntryView;

    open spec fn view(&self) -> EntryView {
        EntryView { url: self.url@, name: self.name@, is_dir: self.is_dir, size: self.size }
    }
}

/// The contents of entries.
pub open spec fn entry_views(entries: Seq<DirEntry>) -> Seq<EntryView> {
    entries.map_values(|e: DirEntry| e@)
}

/// The immediate children of a remote prefix: folders first, then files, each by name.
#[derive(Clone, Debug, PartialEq, Eq)]
pub struct DirListing {
    pub entries: Vec<DirEntry>,
}

impl Default for DirListing {
    fn default() -> (listing: DirListing)
        ensures
            listing.entries@ == Seq::<DirEntry>::empty(),
    {
        DirListing { entries: Vec::new() }
    }
}

/// Whether a name comes before another: byte by byte in UTF-8.
pub open spec fn name_below(a: Seq<char>, b: Seq<char>) -> bool {
    crate::sort::bytes_below(vstd::utf8::encode_utf8(a), vstd::utf8::encode_utf8(b))
}

/// How many of the first entries have names that are not behind a name.
pub open spec fn place_of(entries: Seq<EntryView>, name: Seq<char>) -> nat
    decreases entries.len(),
{
    if entries.len() == 0 || !name_below(name, entries.last().name) {
        entries.len()
    } else {
        place_of(entries.drop_last(), name)
    }
}

/// Entries by name; those of one name stay as they were.
pub open spec fn by_name(entries: Seq<EntryView>) -> Seq<EntryView>
    decreases entries.len(),
{
    if entries.len() == 0 {
        Seq::empty()
    } else {
        let front = by_name(entries.drop_last());
        front.insert(place_of(front, entries.last().name) as int, entries.last())
    }
}

proof fn lemma_place(entries: Seq<EntryView>, name: Seq<char>)
    ensures
        place_of(entries, name) <= entries.len(),
        forall|i: int|
            place_of(entries, name) <= i < entries.len() ==> name_below(name, #[trigger] entries[i].name),
        place_of(entries, name) > 0 ==> !name_below(
            name,
            entries[place_of(entries, name) - 1].name,
        ),
    decreases entries.len(),
{
    if entries.len() > 0 && name_below(name, entries.last().name) {
        lemma_place(entries.drop_last(), name);
        let p = place_of(entries, name);
        assert forall|i: int| p <= i < entries.len() implies name_below(
            name,
            #[trigger] entries[i].name,
        ) by {
            if i < entries.len() - 1 {
                assert(entries.drop_last()[i] == entries[i]);
            }
        }
        if p > 0 {
            assert(entries.drop_last()[p - 1] == entries[p - 1]);
        }
    }
}

/// Ordering a listing by name keeps its entries.
pub proof fn ordering_keeps_entries(entries: Seq<EntryView>)
    ensures
        by_name(entries).to_multiset() == entries.to_multiset(),
        by_name(entries).len() == entries.len(),
    decreases entries.len(),
{
    if entries.len() > 0 {
        let front = by_name(entries.drop_last());
        let last = entries.last();
        ordering_keeps_entries(entries.drop_last());
        lemma_place(front, last.name);
        vstd::seq_lib::to_multiset_insert(front, place_of(front, last.name) as int, last);
        vstd::seq_lib::to_multiset_build(entries.drop_last(), last);
        assert(entries =~= entries.drop_last().push(last));
        assert(by_name(entries).to_multiset() =~= entries.to_multiset());
    } else {
        assert(entries =~= Seq::empty());
    }
}

/// A listing that was ordered by name is in order: no entry comes before an earlier one.
pub proof fn listing_is_in_order(entries: Seq<EntryView>)
    ensures
        forall|i: int, j: int|
            0 <= i < j < by_name(entries).len() ==> !name_below(
                #[trigger] by_name(entries)[j].name,
                #[trigger] by_name(entries)[i].name,
            ),
    decreases entries.len(),
{
    if entries.len() > 0 {
        let front = by_name(entries.drop_last());
        let last = entries.last();
        let p = place_of(front, last.name) as int;
        let list = by_name(entries);
        listing_is_in_order(entries.drop_last());
        lemma_place(front, last.name);
        assert forall|i: int, j: int| 0 <= i < j < list.len() implies !name_below(
            #[trigger] list[j].name,
            #[trigger] list[i].name,
        ) by {
            let x = vstd::utf8::encode_utf8(list[i].name);
            let y = vstd::utf8::encode_utf8(list[j].name);
            let e = vstd::utf8::encode_utf8(last.name);
            if i < p && j < p {
                assert(list[i] == front[i] && list[j] == front[j]);
            } else if i < p && j == p {
                let z = vstd::utf8::encode_utf8(front[p - 1].name);
                assert(list[i] == front[i]);
                assert(!name_below(last.name, front[p - 1].name));
                if i < p - 1 {
                    assert(!name_below(front[p - 1].name, front[i].name));
                    crate::sort::lemma_bytes_ordered(e, z, x);
                }
            } else if i < p {
                assert(list[i] == front[i] && list[j] == front[j - 1]);
            } else if i == p {
                assert(list[j] == front[j - 1]);
                assert(name_below(last.name, front[j - 1].name));
                crate::sort::lemma_bytes_asymmetric(e, y);
            } else {
                assert(list[i] == front[i - 1] && list[j] == front[j - 1]);
            }
        }
    }
}

/// Puts an entry behind all that do not come behind it.
fn insert_entry(entries: &mut Vec<DirEntry>, entry: DirEntry)
    ensures
        entry_views(final(entries)@) == entry_views(old(entries)@).insert(
            place_of(entry_views(old(entries)@), entry@.name) as int,
            entry@,
        ),
{
    let ghost views = entry_views(entries@);
    let mut at: usize = entries.len();
    assert(views.take(at as int) =~= views);
    while at > 0 && below(entry.name.as_str().as_bytes(), entries[at - 1].name.as_str().as_bytes())
        invariant
            at <= entries.len(),
            *entries == *old(entries),
            views == entry_views(entries@),
            place_of(views, entry@.name) == place_of(views.take(at as int), entry@.name),
        decreases at,
    {
        proof {
            assert(views.take(at as int).last() == entries@[at - 1]@);
            assert(views.take(at as int).drop_last() =~= views.take(at - 1));
        }
        at -= 1;
    }
    proof {
        if at > 0 {
            assert(views.take(at as int).last() == entries@[at - 1]@);
        }
        lemma_place(views, entry@.name);
        assert(place_of(views, entry@.name) == at);
    }
    let ghost before = entries@;
    entries.insert(at, entry);
    assert(entry_views(before.insert(at as int, entry)) =~= entry_views(before).insert(
        at as int,
        entry@,
    ));
}

/// Orders entries by name.
fn order_entries(entries: Vec<DirEntry>) -> (ordered: Vec<DirEntry>)
    ensures
        entry_views(ordered@) == by_name(entry_views(entries@)),
{
    let mut ordered: Vec<DirEntry> = Vec::new();
    let ghost views = entry_views(entries@);
    assert(views.take(0) =~= Seq::empty());
    assert(entry_views(ordered@) =~= Seq::empty());
    for entry in it: entries
        invariant
            it.seq() == entries@,
            views == entry_views(entries@),
            entry_views(ordered@) == by_name(views.take(it.index())),
    {
        proof {
            let k = it.index();
            assert(views.take(k + 1).last() == entry@);
            assert(views.take(k + 1).drop_last() =~= views.take(k));
        }
        insert_entry(&mut ordered, entry);
    }
    assert(views.take(views.len() as int) =~= views);
    ordered
}

/// The folder that stands for a bucket.
pub open spec fn bucket_entry(name: Seq<char>) -> EntryView {
    EntryView { url: "s3://"@ + name + "/"@, name, is_dir: true, size: None }
}

/// The buckets of an account as folders, by name.
pub fn buckets_to_listing(names: Vec<String>) -> (listing: DirListing)
    ensures
        entry_views(listing.entries@) == by_name(
            texts(names@).map_values(|name: Seq<char>| bucket_entry(name)),
        ),
{
    let mut entries: Vec<DirEntry> = Vec::new();
    let ghost all = texts(names@).map_values(|name: Seq<char>| bucket_entry(name));
    assert(entry_views(entries@) =~= all.take(0));
    for i in 0..names.len()
        invariant
            all == texts(names@).map_values(|name: Seq<char>| bucket_entry(name)),
            entry_views(entries@) == all.take(i as int),
    {
        let mut url = copy_text("s3://");
        append(&mut url, names[i].as_str());
        append(&mut url, "/");
        let entry = DirEntry { url, name: copy_text(names[i].as_str()), is_dir: true, size: None };
        proof {
            assert(entry@ == all[i as int]);
            assert(entry_views(entries@.push(entry)) =~= entry_views(entries@).push(entry@));
            assert(all.take(i + 1) =~= all.take(i as int).push(all[i as int]));
        }
        entries.push(entry);
    }
    assert(all.take(all.len() as int) =~= all);
    DirListing { entries: order_entries(entries) }
}

/// The folder that stands for a prefix of a store.
pub open spec fn folder_entry(base: Seq<char>, key: Seq<char>) -> EntryView {
    EntryView { url: base + "/"@ + key + "/"@, name: key_name(key), is_dir: true, size: None }
}

/// The file that stands for an object of a store.
pub open spec fn file_entry(base: Seq<char>, key: Seq<char>, size: u64) -> EntryView {
    EntryView { url: base + "/"@ + key, name: key_name(key), is_dir: false, size: Some(size) }
}

/// The files for objects; one without a name stands for the prefix itself and is left out.
pub open spec fn file_entries(base: Seq<char>, objects: Seq<(Seq<char>, u64)>) -> Seq<EntryView>
    decreases objects.len(),
{
    if objects.len() == 0 {
        Seq::empty()
    } else {
        let front = file_entries(base, objects.drop_last());
        let (key, size) = objects.last();
        if key_name(key).len() == 0 {
            front
        } else {
            front.push(file_entry(base, key, size))
        }
    }
}

/// The contents of objects: their keys and sizes.
pub open spec fn object_views(objects: Seq<(String, u64)>) -> Seq<(Seq<char>, u64)> {
    objects.map_values(|o: (String, u64)| (o.0@, o.1))
}

/// The root of the store that a URL names.
pub open spec fn store_base(url: UrlView) -> Seq<char> {
    base_of(
        url.scheme,
        match url.host {
            Some(host) => host,
            None => ""@,
        },
    )
}

/// The children of a remote prefix: the common prefixes as folders, then the objects as files, each
/// group by name.
pub fn listing(url: &UrlParts, prefixes: &[String], objects: &[(String, u64)]) -> (listing:
    DirListing)
    ensures
        entry_views(listing.entries@) == by_name(
            texts(prefixes@).map_values(|key: Seq<char>| folder_entry(store_base(url@), key)),
        ) + by_name(file_entries(store_base(url@), object_views(objects@))),
{
    let base = match &url.host {
        Some(host) => base_url(url.scheme.as_str(), host.as_str()),
        None => base_url(url.scheme.as_str(), ""),
    };
    let ghost b = store_base(url@);
    assert(base@ == b);
    let mut folders: Vec<DirEntry> = Vec::new();
    let ghost all = texts(prefixes@).map_values(|key: Seq<char>| folder_entry(b, key));
    assert(entry_views(folders@) =~= all.take(0));
    for i in 0..prefixes.len()
        invariant
            base@ == b,
            all == texts(prefixes@).map_values(|key: Seq<char>| folder_entry(b, key)),
            entry_views(folders@) == all.take(i as int),
    {
        let mut target = copy_text(base.as_str());
        append(&mut target, "/");
        append(&mut target, prefixes[i].as_str());
        append(&mut target, "/");
        let entry = DirEntry {
            url: target,
            name: last_segment(prefixes[i].as_str()),
            is_dir: true,
            size: None,
        };
        proof {
            assert(entry@ == all[i as int]);
            assert(entry_views(folders@.push(entry)) =~= entry_views(folders@).push(entry@));
            assert(all.take(i + 1) =~= all.take(i as int).push(all[i as int]));
        }
        folders.push(entry);
    }
    assert(all.take(all.len() as int) =~= all);
    let mut files: Vec<DirEntry> = Vec::new();
    let ghost objs = object_views(objects@);
    assert(objs.take(0) =~= Seq::empty());
    assert(entry_views(files@) =~= Seq::empty());
    for i in 0..objects.len()
        invariant
            base@ == b,
            objs == object_views(objects@),
            entry_views(files@) == file_entries(b, objs.take(i as int)),
    {
        let key = objects[i].0.as_str();
        let name = last_segment(key);
        proof {
            assert(objs.take(i + 1).drop_last() =~= objs.take(i as int));
            assert(objs.take(i + 1).last() == (objects@[i as int].0@, objects@[i as int].1));
        }
        if chars_of(name.as_str()).len() > 0 {
            let mut target = copy_text(base.as_str());
            append(&mut target, "/");
            append(&mut target, key);
            let entry = DirEntry { url: target, name, is_dir: false, size: Some(objects[i].1) };
            proof {
                assert(entry@ == file_entry(b, key@, objects@[i as int].1));
                assert(entry_views(files@.push(entry)) =~= entry_views(files@).push(entry@));
            }
            files.push(entry);
        }
    }
    assert(objs.take(objs.len() as int) =~= objs);
    let mut entries = order_entries(folders);
    let mut rest = order_entries(files);
    let ghost first = entries@;
    let ghost second = rest@;
    entries.append(&mut rest);
    assert(entry_views(first + second) =~= entry_views(first) + entry_views(second));
    DirListing { entries }
}

/// The prefix one level up has all named segments but the last, each followed by a slash; at the root
/// there is none. A segment without a name makes no difference.
pub proof fn parents_have_all_but_the_last_segment(
    url: UrlView,
    segments: Seq<Seq<char>>,
    host: Seq<char>,
    last: Seq<char>,
)
    requires
        url.host == Some(host),
        url.segments == Some(segments.push(last)),
        last.len() > 0,
    ensures
        parent_of(url) == Some(url.scheme + seq![':', '/', '/'] + host + seq!['/'] + slashed(
            named(segments),
        )),
        slashed(Seq::empty()).len() == 0,
        named(Seq::empty()).len() == 0,
        slashed(segments.push(last)) == slashed(segments) + last + seq!['/'],
        named(segments.push(last)) == named(segments).push(last),
        named(segments.push(Seq::empty())) == named(segments),
        parent_of(UrlView { segments: Some(Seq::empty()), ..url }) is None,
{
    reveal_strlit("://");
    reveal_strlit("/");
    assert("://"@ =~= seq![':', '/', '/']);
    assert("/"@ =~= seq!['/']);
    let all = segments.push(last);
    assert(all.drop_last() =~= segments);
    assert(segments.push(Seq::empty()).drop_last() =~= segments);
    assert(named(all).drop_last() =~= named(segments));
}

/// Only URLs of S3 have a bucket, and it is their host.
pub proof fn buckets_are_hosts(url: UrlView)
    ensures
        url.scheme == seq!['s', '3'] || url.scheme == seq!['s', '3', 'a'] ==> bucket_of(url)
            == url.host,
        url.scheme != seq!['s', '3'] && url.scheme != seq!['s', '3', 'a'] ==> bucket_of(url) is None,
{
    reveal_strlit("s3");
    reveal_strlit("s3a");
    assert("s3"@ =~= seq!['s', '3']);
    assert("s3a"@ =~= seq!['s', '3', 'a']);
}

/// The name of a key is its last segment: what stands behind its last slash, or before slashes at its
/// end.
pub proof fn keys_are_named_by_their_last_segment(front: Seq<char>, name: Seq<char>)
    requires
        !name.contains('/'),
        name.len() > 0,
    ensures
        key_name(name) == name,
        key_name(front.push('/') + name) == name,
        key_name((front.push('/') + name).push('/')) == name,
{
    let key = front.push('/') + name;
    crate::path::lemma_behind(front, name, '/');
    assert(last_named(name) == Some(name));
    assert(last_named(key) == Some(name));
    let none = Seq::<char>::empty();
    crate::path::lemma_behind(key, none, '/');
    let slashed = key.push('/');
    assert(key.push('/') + none =~= slashed);
    assert(crate::path::behind_last(slashed, '/').len() == 0);
    assert(crate::path::before_last(slashed, '/') == Some(key));
    assert(last_named(slashed) == last_named(key));
}

/// A folder of a listing is opened by its own URL and has no size; a file is opened by the URL of its
/// object and has that object's size.
pub proof fn entries_lead_to_their_objects(base: Seq<char>, key: Seq<char>, size: u64, bucket: Seq<char>)
    ensures
        ({
            let folder = folder_entry(base, key);
            &&& folder.is_dir
            &&& folder.size is None
            &&& folder.url == base + seq!['/'] + key + seq!['/']
            &&& folder.name == key_name(key)
        }),
        ({
            let file = file_entry(base, key, size);
            &&& !file.is_dir
            &&& file.size == Some(size)
            &&& file.url == base + seq!['/'] + key
            &&& file.name == key_name(key)
        }),
        ({
            let entry = bucket_entry(bucket);
            &&& entry.is_dir
            &&& entry.size is None
            &&& entry.url == seq!['s', '3', ':', '/', '/'] + bucket + seq!['/']
            &&& entry.name == bucket
        }),
{
    reveal_strlit("/");
    reveal_strlit("s3://");
    assert("/"@ =~= seq!['/']);
    assert("s3://"@ =~= seq!['s', '3', ':', '/', '/']);
}

/// Every object with a name is listed as a file, in the order in which it was given.
pub proof fn every_named_object_is_listed(
    base: Seq<char>,
    objects: Seq<(Seq<char>, u64)>,
    key: Seq<char>,
    size: u64,
)
    ensures
        file_entries(base, Seq::empty()).len() == 0,
        key_name(key).len() > 0 ==> file_entries(base, objects.push((key, size))) == file_entries(
            base,
            objects,
        ).push(file_entry(base, key, size)),
        key_name(key).len() == 0 ==> file_entries(base, objects.push((key, size))) == file_entries(
            base,
            objects,
        ),
{
    assert(objects.push((key, size)).drop_last() =~= objects);
}

/// Of options with one key the last one counts, and options with other keys do not matter.
pub proof fn the_last_option_counts(
    options: Seq<(Seq<char>, Seq<char>)>,
    key: Seq<char>,
    value: Seq<char>,
    other: Seq<char>,
)
    requires
        other != key,
    ensures
        effective(Seq::empty(), key) is None,
        effective(options.push((key, value)), key) == Some(value),
        effective(options.push((other, value)), key) == effective(options, key),
{
    assert(options.push((key, value)).drop_last() =~= options);
    assert(options.push((other, value)).drop_last() =~= options);
}

/// Credentials are handed over under the names that a store asks for: the key and the secret always,
/// a token and a region where there are any.
pub proof fn credentials_are_handed_over(
    key: Seq<char>,
    secret: Seq<char>,
    token: Option<Seq<char>>,
    region: Option<Seq<char>>,
)
    ensures
        ({
            let options = credentials_of(key, secret, token, region);
            &&& effective(options, "aws_access_key_id"@) == Some(key)
            &&& effective(options, "aws_secret_access_key"@) == Some(secret)
            &&& effective(options, "aws_session_token"@) == token
            &&& effective(options, "aws_region"@) == region
        }),
{
    reveal_strlit("aws_access_key_id");
    reveal_strlit("aws_secret_access_key");
    reveal_strlit("aws_session_token");
    reveal_strlit("aws_region");
    let a = "aws_access_key_id"@;
    let b = "aws_secret_access_key"@;
    let c = "aws_session_token"@;
    let d = "aws_region"@;
    assert(a.len() == 17 && b.len() == 21 && c.len() == 17 && d.len() == 10);
    assert(a[4] == 'a' && c[4] == 's');
    let none = Seq::<(Seq<char>, Seq<char>)>::empty();
    let keys = seq![(a, key), (b, secret)];
    assert(keys =~= none.push((a, key)).push((b, secret)));
    let first = none.push((a, key));
    assert(first.drop_last() =~= none);
    assert(first.push((b, secret)).drop_last() =~= first);
    let with_token = match token {
        Some(t) => keys.push((c, t)),
        None => keys,
    };
    if let Some(t) = token {
        assert(with_token.drop_last() =~= keys);
    }
    if let Some(r) = region {
        assert(with_token.push((d, r)).drop_last() =~= with_token);
    }
    reveal_with_fuel(effective, 5);
}

/// The schemes of object stores, and of plain web servers, are remote; `file` and others are not.
pub proof fn remote_schemes_are_known(scheme: Seq<char>)
    ensures
        is_remote_scheme(scheme) <==> seq![
            seq!['s', '3'],
            seq!['s', '3', 'a'],
            seq!['g', 's'],
            seq!['g', 'c', 's'],
            seq!['a', 'z'],
            seq!['a', 'z', 'u', 'r', 'e'],
            seq!['a', 'd', 'l'],
            seq!['a', 'b', 'f', 's'],
            seq!['a', 'b', 'f', 's', 's'],
            seq!['h', 't', 't', 'p'],
            seq!['h', 't', 't', 'p', 's'],
        ].contains(scheme),
{
    reveal_strlit("s3");
    reveal_strlit("s3a");
    reveal_strlit("gs");
    reveal_strlit("gcs");
    reveal_strlit("az");
    reveal_strlit("azure");
    reveal_strlit("adl");
    reveal_strlit("abfs");
    reveal_strlit("abfss");
    reveal_strlit("http");
    reveal_strlit("https");
    let all = seq![
        seq!['s', '3'],
        seq!['s', '3', 'a'],
        seq!['g', 's'],
        seq!['g', 'c', 's'],
        seq!['a', 'z'],
        seq!['a', 'z', 'u', 'r', 'e'],
        seq!['a', 'd', 'l'],
        seq!['a', 'b', 'f', 's'],
        seq!['a', 'b', 'f', 's', 's'],
        seq!['h', 't', 't', 'p'],
        seq!['h', 't', 't', 'p', 's'],
    ];
    assert("s3"@ =~= all[0]);
    assert("s3a"@ =~= all[1]);
    assert("gs"@ =~= all[2]);
    assert("gcs"@ =~= all[3]);
    assert("az"@ =~= all[4]);
    assert("azure"@ =~= all[5]);
    assert("adl"@ =~= all[6]);
    assert("abfs"@ =~= all[7]);
    assert("abfss"@ =~= all[8]);
    assert("http"@ =~= all[9]);
    assert("https"@ =~= all[10]);
}

/// The extension of the last segment of a URL counts where it has one to eight letters and digits; it
/// is then taken in lower case.
pub proof fn short_extensions_are_taken(stem: Seq<char>, ext: Seq<char>)
    requires
        !ext.contains('.'),
    ensures
        0 < ext.len() <= 8 && (forall|i: int|
            0 <= i < ext.len() ==> ('0' <= #[trigger] ext[i] <= '9') || ('a' <= ext[i] <= 'z') || ('A'
                <= ext[i] <= 'Z')) ==> short_extension(stem.push('.') + ext) == Some(
            crate::gzip::lowered(ext),
        ),
        ext.len() == 0 || ext.len() > 8 ==> short_extension(stem.push('.') + ext) is None,
        short_extension(ext) is None,
{
    crate::path::lemma_behind(stem, ext, '.');
}

/// Of options that are looked up by name, the first one with the name is found.
pub proof fn the_first_option_is_found(
    options: Seq<(Seq<char>, Seq<char>)>,
    key: Seq<char>,
    i: int,
)
    requires
        0 <= i <= options.len(),
        forall|j: int| 0 <= j < i ==> (#[trigger] options[j]).0 != key,
    ensures
        i < options.len() && options[i].0 == key ==> first_value(options, key) == Some(options[i].1),
        i == options.len() ==> first_value(options, key) is None,
    decreases i,
{
    if i > 0 {
        assert(options[0].0 != key);
        let rest = options.drop_first();
        assert forall|j: int| 0 <= j < i - 1 implies (#[trigger] rest[j]).0 != key by {
            assert(rest[j] == options[j + 1]);
        }
        the_first_option_is_found(rest, key, i - 1);
        if i < options.len() {
            assert(rest[i - 1] == options[i]);
        }
    }
}

/// The root of a store is its scheme and its host; the extension of a URL is that of its last segment.
pub proof fn urls_are_read_by_their_parts(
    url: UrlView,
    host: Seq<char>,
    segments: Seq<Seq<char>>,
    last: Seq<char>,
)
    requires
        url.host == Some(host),
        url.segments == Some(segments.push(last)),
    ensures
        store_base(url) == url.scheme + seq![':', '/', '/'] + host,
        extension_of(Some(url)) == short_extension(last),
        extension_of(None) is None,
{
    reveal_strlit("://");
    assert("://"@ =~= seq![':', '/', '/']);
    assert(segments.push(last).last() == last);
}

/// The local copies of one object have the same name only if its identity is the same: an object that
/// changed is fetched anew.
pub proof fn changed_objects_have_other_copies(
    url_hash: u64,
    id: u64,
    other: u64,
    ext: Option<Seq<char>>,
)
    requires
        object_name(url_hash, id, ext) == object_name(url_hash, other, ext),
    ensures
        id == other,
{
    lemma_sixteen();
    let front = crate::text::hex_text(url_hash as int, 16) + "-"@;
    let a = crate::text::hex_text(id as int, 16);
    let b = crate::text::hex_text(other as int, 16);
    lemma_hex_len(id as int, 16);
    lemma_hex_len(other as int, 16);
    let x = object_name(url_hash, id, ext);
    let y = object_name(url_hash, other, ext);
    let n = front.len() as int;
    assert(x.subrange(n, n + 16) =~= a);
    assert(y.subrange(n, n + 16) =~= b);
    crate::text::hex_texts_tell_numbers_apart(id as int, other as int, 16);
}

proof fn lemma_hex_len(n: int, width: nat)
    ensures
        crate::text::hex_text(n, width).len() == width,
    decreases width,
{
    if width > 0 {
        lemma_hex_len(n / 16, (width - 1) as nat);
    }
}

proof fn lemma_sixteen()
    ensures
        vstd::arithmetic::power::pow(16, 16) == 0x1_0000_0000_0000_0000,
{
    reveal_with_fuel(vstd::arithmetic::power::pow, 17);
    assert(16int * 16 * 16 * 16 * 16 * 16 * 16 * 16 * 16 * 16 * 16 * 16 * 16 * 16 * 16 * 16
        == 0x1_0000_0000_0000_0000) by (nonlinear_arith);
}

/// The contents of texts, of options, of objects and of a listing are those of each of them, in their
/// order.
pub proof fn contents_are_those_of_each(
    list: Seq<String>,
    options: Seq<(String, String)>,
    objects: Seq<(String, u64)>,
    entries: Seq<DirEntry>,
    i: int,
)
    ensures
        texts(list).len() == list.len(),
        0 <= i < list.len() ==> texts(list)[i] == list[i]@,
        pairs(options).len() == options.len(),
        0 <= i < options.len() ==> pairs(options)[i] == (options[i].0@, options[i].1@),
        object_views(objects).len() == objects.len(),
        0 <= i < objects.len() ==> object_views(objects)[i] == (objects[i].0@, objects[i].1),
        entry_views(entries).len() == entries.len(),
        0 <= i < entries.len() ==> {
            let entry = entry_views(entries)[i];
            &&& entry.url == entries[i].url@
            &&& entry.name == entries[i].name@
            &&& entry.is_dir == entries[i].is_dir
            &&& entry.size == entries[i].size
        },
{
}

} // verus!
