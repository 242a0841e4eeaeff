//! Gzip sources. A compressed source is decompressed once, in full, and the plain copy is what the
//! tables read; the copy is named after the source's path, size and modification time.
use vstd::prelude::*;
#[allow(unused_imports)]
use vstd::string::StringSliceAdditionalSpecFns;
use crate::cancel::{is_stopped, CancellationToken};
use crate::error::Error;
use crate::path::{extension, last_name};
use crate::stable_hash;
use crate::text::{append, chars_of, push_decimal, push_hex, string_of, to_lower};

verus! {

/// The two bytes that a gzip stream starts with.
pub const GZIP_MAGIC: [u8; 2] = [0x1f, 0x8b];

/// How many plain bytes are decoded at a time.
pub const CHUNK: usize = 0x1_0000;

/// Whether the first bytes of a source are those of a gzip stream. The name of the source plays no
/// part.
pub fn is_gzip(head: &[u8]) -> (r: bool)
    ensures
        r == (head@.len() >= 2 && head@[0] == 0x1f && head@[1] == 0x8b),
{
    head.len() >= 2 && head[0] == GZIP_MAGIC[0] && head[1] == GZIP_MAGIC[1]
}

#[verifier::external_type_specification]
#[verifier::external_body]
#[verifier::reject_recursive_types(R)]
pub struct ExMultiGzDecoder<R>(flate2::read::MultiGzDecoder<R>);

/// The plain bytes that a decoder still has to give, and whether its stream ends intact behind them.
pub uninterp spec fn ahead(decoder: flate2::read::MultiGzDecoder<&[u8]>) -> (Seq<u8>, bool);

/// How many of the compressed bytes a decoder has not fetched yet.
pub uninterp spec fn unfetched(decoder: flate2::read::MultiGzDecoder<&[u8]>) -> nat;

/// The plain bytes of a gzip stream, of all its members, up to where it breaks; and whether it does
/// not break.
pub uninterp spec fn gunzipped(bytes: Seq<u8>) -> (Seq<u8>, bool);

/// `flate2::read::MultiGzDecoder::new`: a decoder over a whole gzip stream, which has all of the
/// stream's plain bytes ahead. It may have fetched compressed bytes already.
#[verifier::external_body]
fn open_stream<'a>(bytes: &'a [u8]) -> (decoder: flate2::read::MultiGzDecoder<&'a [u8]>)
    ensures
        ahead(decoder) == gunzipped(bytes@),
        unfetched(decoder) <= bytes@.len(),
{
    flate2::read::MultiGzDecoder::new(bytes)
}

/// `flate2::read::MultiGzDecoder`'s `read`: gives the next plain bytes, nothing only at the end of an
/// intact stream, and fails only on a stream that is not intact. How many bytes one call gives is
/// left open, and so is what a decoder that has failed gives later, and the message.
#[verifier::external_body]
fn read_chunk(decoder: &mut flate2::read::MultiGzDecoder<&[u8]>, chunk: &mut [u8]) -> (read: Result<
    usize,
    String,
>)
    requires
        old(chunk)@.len() > 0,
    ensures
        final(chunk)@.len() == old(chunk)@.len(),
        unfetched(*final(decoder)) <= unfetched(*old(decoder)),
        match read {
            Ok(n) => {
                &&& n <= final(chunk)@.len()
                &&& n <= ahead(*old(decoder)).0.len()
                &&& final(chunk)@.take(n as int) == ahead(*old(decoder)).0.take(n as int)
                &&& ahead(*final(decoder)) == (
                    ahead(*old(decoder)).0.skip(n as int),
                    ahead(*old(decoder)).1,
                )
                &&& n == 0 ==> ahead(*old(decoder)) == (Seq::<u8>::empty(), true)
            },
            Err(_) => !ahead(*old(decoder)).1,
        },
{
    std::io::Read::read(decoder, chunk).map_err(|e| e.to_string())
}

/// `flate2::read::MultiGzDecoder::get_ref`: the compressed bytes that were not fetched yet, of which
/// this is the number.
#[verifier::external_body]
fn count_unfetched(decoder: &flate2::read::MultiGzDecoder<&[u8]>) -> (n: usize)
    ensures
        n == unfetched(*decoder),
{
    decoder.get_ref().len()
}

/// A gzip stream that is being decompressed chunk by chunk.
pub struct Decompressor<'a> {
    decoder: flate2::read::MultiGzDecoder<&'a [u8]>,
    total: usize,
    done: bool,
    source: Ghost<Seq<u8>>,
    given: Ghost<Seq<u8>>,
}

impl<'a> Decompressor<'a> {
    /// The compressed bytes.
    pub closed spec fn source(&self) -> Seq<u8> {
        self.source@
    }

    /// The plain bytes that were given so far.
    pub closed spec fn given(&self) -> Seq<u8> {
        self.given@
    }

    /// How many compressed bytes are behind.
    pub closed spec fn behind(&self) -> int {
        if self.done {
            self.total as int
        } else {
            self.total - unfetched(self.decoder)
        }
    }

    /// Whether all has been given.
    pub closed spec fn done(&self) -> bool {
        self.done
    }

    /// How many plain bytes are yet to come.
    pub closed spec fn left(&self) -> nat {
        ahead(self.decoder).0.len()
    }

    /// What was given and what is ahead make up the stream.
    pub closed spec fn wf(&self) -> bool {
        &&& self.total == self.source@.len()
        &&& unfetched(self.decoder) <= self.total
        &&& gunzipped(self.source@).0 == self.given@ + ahead(self.decoder).0
        &&& gunzipped(self.source@).1 == ahead(self.decoder).1
        &&& self.done ==> gunzipped(self.source@) == (self.given@, true)
    }

    /// Starts to decompress a stream.
    pub fn new(bytes: &'a [u8]) -> (d: Decompressor<'a>)
        ensures
            d.wf(),
            d.source() == bytes@,
            d.given() == Seq::<u8>::empty(),
            !d.done(),
    {
        let total: usize = bytes.len();
        let decoder = open_stream(bytes);
        proof {
            assert(Seq::<u8>::empty() + ahead(decoder).0 =~= ahead(decoder).0);
        }
        Decompressor {
            decoder,
            total,
            done: false,
            source: Ghost(bytes@),
            given: Ghost(Seq::empty()),
        }
    }

    /// How many compressed bytes are behind: all of them once the last plain byte was given.
    pub fn consumed(&self) -> (n: u64)
        requires
            self.wf(),
        ensures
            n == self.behind(),
            n <= self.source().len(),
            self.done() ==> n == self.source().len(),
    {
        if self.done {
            self.total as u64
        } else {
            (self.total - count_unfetched(&self.decoder)) as u64
        }
    }

    /// Appends the next plain bytes; `false` where there are none left. Fails only where the stream
    /// is broken, or `cancel` was given and raised.
    pub fn step(&mut self, out: &mut Vec<u8>, cancel: Option<&CancellationToken>) -> (more: Result<
        bool,
        Error,
    >)
        requires
            old(self).wf(),
        ensures
            final(self).source() == old(self).source(),
            old(self).behind() <= final(self).behind() <= final(self).source().len() || more is Err,
            match more {
                Ok(more) => {
                    let chunk = final(out)@.skip(old(out)@.len() as int);
                    &&& final(self).wf()
                    &&& final(out)@ == old(out)@ + chunk
                    &&& final(self).given() == old(self).given() + chunk
                    &&& more ==> chunk.len() > 0 && final(self).left() < old(self).left()
                    &&& !more ==> chunk.len() == 0 && final(self).done()
                },
                Err(Error::Io(_)) => *final(out) == *old(out) && !gunzipped(old(self).source()).1,
                Err(e) => {
                    &&& e is Cancelled && cancel is Some
                    &&& *final(self) == *old(self) && *final(out) == *old(out)
                },
            },
    {
        if is_stopped(cancel) {
            return Err(Error::Cancelled);
        }
        if self.done {
            assert(out@.skip(out@.len() as int) =~= Seq::empty());
            assert(self.given() + Seq::<u8>::empty() =~= self.given());
            return Ok(false);
        }
        let mut chunk: Vec<u8> = vec![0; CHUNK];
        let ghost before = *self;
        let ghost was = out@;
        match read_chunk(&mut self.decoder, chunk.as_mut_slice()) {
            Ok(n) => {
                proof {
                    let plain = ahead(before.decoder).0;
                    assert(plain.take(n as int) + plain.skip(n as int) =~= plain);
                    let given = before.given@ + plain.take(n as int);
                    assert(given + plain.skip(n as int) =~= before.given@ + plain);
                }
                if n == 0 {
                    self.done = true;
                    proof {
                        assert(before.given@ + Seq::<u8>::empty() =~= before.given@);
                        assert(out@.skip(out@.len() as int) =~= Seq::empty());
                        assert(out@ + Seq::<u8>::empty() =~= out@);
                    }
                    return Ok(false);
                }
                let read = vstd::slice::slice_subrange(chunk.as_slice(), 0, n);
                out.extend_from_slice(read);
                proof {
                    assert(read@ =~= ahead(before.decoder).0.take(n as int));
                    self.given@ = before.given@ + read@;
                    assert(out@.skip(was.len() as int) =~= read@);
                }
                Ok(true)
            },
            Err(message) => {
                let mut text = String::new();
                append(&mut text, "gzip decode failed: ");
                append(&mut text, message.as_str());
                Err(Error::Io(text))
            },
        }
    }
}

/// Decompresses a whole gzip stream. Fails where the stream is broken, or `cancel` was given and
/// raised.
pub fn decompress(bytes: &[u8], cancel: Option<&CancellationToken>) -> (plain: Result<Vec<u8>, Error>)
    ensures
        match plain {
            Ok(p) => gunzipped(bytes@) == (p@, true),
            Err(Error::Io(_)) => !gunzipped(bytes@).1,
            Err(e) => e is Cancelled && cancel is Some,
        },
{
    let mut stream = Decompressor::new(bytes);
    let mut out: Vec<u8> = Vec::new();
    loop
        invariant
            stream.wf(),
            stream.source() == bytes@,
            stream.given() == out@,
        decreases stream.left(),
    {
        let more = stream.step(&mut out, cancel)?;
        if !more {
            return Ok(out);
        }
    }
}

/// A path without the extension `gz` in lower or upper case.
pub open spec fn without_gz(name: Seq<char>) -> Seq<char> {
    if name.len() >= 3 && (name.skip(name.len() - 3) == ".gz"@ || name.skip(name.len() - 3)
        == ".GZ"@) {
        name.take(name.len() - 3)
    } else {
        name
    }
}

/// Characters with their ASCII capitals in lower case.
pub open spec fn lowered(s: Seq<char>) -> Seq<char> {
    s.map_values(|c: char| crate::text::lower(c))
}

/// The extension, in lower case, that a path has below the suffix of the compression.
pub open spec fn plain_extension(path: Seq<char>) -> Option<Seq<char>> {
    match crate::path::file_name(path) {
        Some(name) => match crate::path::path_extension(without_gz(name)) {
            Some(ext) => if ext.len() > 0 {
                Some(lowered(ext))
            } else {
                None
            },
            None => None,
        },
        None => None,
    }
}

/// Characters with their ASCII capitals in lower case.
pub fn lower_case(chars: &[char]) -> (r: Vec<char>)
    ensures
        r@ == lowered(chars@),
{
    let mut out: Vec<char> = Vec::new();
    for i in 0..chars.len()
        invariant
            out@ == lowered(chars@.take(i as int)),
    {
        out.push(to_lower(chars[i]));
        assert(lowered(chars@.take(i + 1)) =~= lowered(chars@.take(i as int)).push(
            crate::text::lower(chars@[i as int]),
        ));
    }
    assert(chars@.take(chars@.len() as int) =~= chars@);
    out
}

/// The extension beneath the `.gz` suffix of a path (`logs.tsv.gz` has `tsv`), if any.
pub fn inner_extension(path: &str) -> (ext: Option<String>)
    ensures
        match ext {
            Some(e) => plain_extension(path@) == Some(e@),
            None => plain_extension(path@) is None,
        },
{
    proof {
        reveal_strlit(".gz");
        reveal_strlit(".GZ");
    }
    let chars = chars_of(path);
    match last_name(chars.as_slice()) {
        Some(name) => {
            let n: usize = name.len();
            let packed: bool = n >= 3 && name[n - 3] == '.' && ((name[n - 2] == 'g' && name[n - 1]
                == 'z') || (name[n - 2] == 'G' && name[n - 1] == 'Z'));
            proof {
                if n >= 3 {
                    let tail = name@.skip(n - 3);
                    assert(tail == ".gz"@ ==> tail[0] == '.' && tail[1] == 'g' && tail[2] == 'z');
                    assert(tail == ".GZ"@ ==> tail[0] == '.' && tail[1] == 'G' && tail[2] == 'Z');
                    assert(tail[0] == '.' && tail[1] == 'g' && tail[2] == 'z' ==> tail =~= ".gz"@);
                    assert(tail[0] == '.' && tail[1] == 'G' && tail[2] == 'Z' ==> tail =~= ".GZ"@);
                }
            }
            let end: usize = if packed {
                n - 3
            } else {
                n
            };
            let inner = vstd::slice::slice_subrange(name.as_slice(), 0, end);
            assert(inner@ =~= without_gz(name@));
            match extension(inner) {
                Some(ext) => if ext.len() > 0 {
                    let low = lower_case(ext.as_slice());
                    Some(string_of(low.as_slice()))
                } else {
                    None
                },
                None => None,
            }
        },
        None => None,
    }
}

/// The name of the plain copy of a source: the hash of its path, its size and its modification time
/// in seconds, and the extension below the suffix of the compression.
pub open spec fn copy_name(hash: u64, size: u64, mtime: u64, ext: Option<Seq<char>>) -> Seq<char> {
    let stem = crate::text::hex_text(hash as int, 16) + "-"@ + crate::text::decimal_text(
        size as int,
    ) + "-"@ + crate::text::decimal_text(mtime as int);
    match ext {
        Some(e) => stem + "."@ + e,
        None => stem,
    }
}

/// The name of the file that holds the plain copy of the source at `path`.
pub fn cache_name(path: &str, size: u64, mtime: u64) -> (name: String)
    ensures
        name@ == copy_name(crate::fnv(path.spec_bytes()), size, mtime, plain_extension(path@)),
{
    let mut name = String::new();
    push_hex(&mut name, stable_hash(path), 16);
    append(&mut name, "-");
    push_decimal(&mut name, size);
    append(&mut name, "-");
    push_decimal(&mut name, mtime);
    proof {
        let hash = crate::fnv(path.spec_bytes());
        assert(Seq::<char>::empty() + crate::text::hex_text(hash as int, 16)
            =~= crate::text::hex_text(hash as int, 16));
    }
    match inner_extension(path) {
        Some(ext) => {
            append(&mut name, ".");
            append(&mut name, ext.as_str());
            name
        },
        None => name,
    }
}

/// Two texts that are cut at their first `c` are equal only if their parts are.
proof fn lemma_first_cut(a: Seq<char>, x: Seq<char>, b: Seq<char>, y: Seq<char>, c: char)
    requires
        forall|i: int| 0 <= i < a.len() ==> a[i] != c,
        forall|i: int| 0 <= i < b.len() ==> b[i] != c,
        a.push(c) + x == b.push(c) + y,
    ensures
        a == b,
        x == y,
{
    let s = a.push(c) + x;
    let t = b.push(c) + y;
    assert(s[a.len() as int] == c && t[b.len() as int] == c);
    if a.len() < b.len() {
        assert(t[a.len() as int] == b[a.len() as int]);
    } else if b.len() < a.len() {
        assert(s[b.len() as int] == a[b.len() as int]);
    }
    assert(a =~= s.take(a.len() as int));
    assert(b =~= t.take(b.len() as int));
    assert(x =~= s.skip(a.len() as int + 1));
    assert(y =~= t.skip(b.len() as int + 1));
}

/// Texts that are put together as names of copies, from the same front and rest, are equal only if
/// the two numbers are.
proof fn lemma_same_numbers(
    front: Seq<char>,
    s1: Seq<char>,
    m1: Seq<char>,
    s2: Seq<char>,
    m2: Seq<char>,
    rest: Seq<char>,
)
    requires
        forall|i: int| 0 <= i < s1.len() ==> s1[i] != '-',
        forall|i: int| 0 <= i < s2.len() ==> s2[i] != '-',
        front + "-"@ + s1 + "-"@ + m1 + rest == front + "-"@ + s2 + "-"@ + m2 + rest,
    ensures
        s1 == s2,
        m1 == m2,
{
    reveal_strlit("-");
    assert("-"@ =~= seq!['-']);
    let one = front + "-"@ + s1 + "-"@ + m1 + rest;
    let two = front + "-"@ + s2 + "-"@ + m2 + rest;
    let cut = front.len() as int + 1;
    assert(one.skip(cut) =~= s1.push('-') + (m1 + rest));
    assert(two.skip(cut) =~= s2.push('-') + (m2 + rest));
    lemma_first_cut(s1, m1 + rest, s2, m2 + rest, '-');
    assert((m1 + rest).len() == m1.len() + rest.len());
    assert((m2 + rest).len() == m2.len() + rest.len());
    assert(m1 =~= (m1 + rest).take(m1.len() as int));
    assert(m2 =~= (m2 + rest).take(m2.len() as int));
}

/// The plain copies of one path have the same name only if the source had the same size and
/// modification time: a source that changed is decompressed anew.
pub proof fn changed_sources_have_other_copies(
    hash: u64,
    ext: Option<Seq<char>>,
    size: u64,
    mtime: u64,
    other_size: u64,
    other_mtime: u64,
)
    requires
        copy_name(hash, size, mtime, ext) == copy_name(hash, other_size, other_mtime, ext),
    ensures
        size == other_size,
        mtime == other_mtime,
{
    let front = crate::text::hex_text(hash as int, 16);
    let s1 = crate::text::decimal_text(size as int);
    let s2 = crate::text::decimal_text(other_size as int);
    let m1 = crate::text::decimal_text(mtime as int);
    let m2 = crate::text::decimal_text(other_mtime as int);
    crate::text::decimal_text_reads_back(size as int);
    crate::text::decimal_text_reads_back(other_size as int);
    crate::text::decimal_text_reads_back(mtime as int);
    crate::text::decimal_text_reads_back(other_mtime as int);
    match ext {
        Some(e) => {
            let stem1 = front + "-"@ + s1 + "-"@ + m1;
            let stem2 = front + "-"@ + s2 + "-"@ + m2;
            assert(stem1 + "."@ + e =~= stem1 + ("."@ + e));
            assert(stem2 + "."@ + e =~= stem2 + ("."@ + e));
            lemma_same_numbers(front, s1, m1, s2, m2, "."@ + e);
        },
        None => {
            let stem1 = front + "-"@ + s1 + "-"@ + m1;
            let stem2 = front + "-"@ + s2 + "-"@ + m2;
            assert(stem1 + Seq::<char>::empty() =~= stem1);
            assert(stem2 + Seq::<char>::empty() =~= stem2);
            lemma_same_numbers(front, s1, m1, s2, m2, Seq::empty());
        },
    }
}

/// The plain copy of a source.
pub struct Unpacked {
    /// The name of the copy.
    pub name: String,
    /// The plain bytes.
    pub content: Vec<u8>,
    /// How many compressed bytes are behind.
    pub consumed: u64,
}

/// Whether this is the plain copy of a source, of which a copy may have been kept: it is named after
/// the source, holds what was kept or else the plain bytes, and the whole source is behind.
pub open spec fn is_unpacked(
    kept: Option<Seq<u8>>,
    path: Seq<char>,
    hash: u64,
    compressed: Seq<u8>,
    mtime: u64,
    copy: Unpacked,
) -> bool {
    &&& copy.name@ == copy_name(hash, compressed.len() as u64, mtime, plain_extension(path))
    &&& copy.consumed == compressed.len()
    &&& match kept {
        Some(content) => copy.content@ == content,
        None => gunzipped(compressed) == (copy.content@, true),
    }
}

/// The plain copy of a source. One that was kept is used again; otherwise the source is decompressed,
/// which fails where the stream is broken, or `cancel` was given and raised.
pub fn unpack(
    path: &str,
    compressed: &[u8],
    mtime: u64,
    kept: Option<Vec<u8>>,
    cancel: Option<&CancellationToken>,
) -> (r: Result<Unpacked, Error>)
    ensures
        match r {
            Ok(copy) => is_unpacked(
                match kept {
                    Some(content) => Some(content@),
                    None => None,
                },
                path@,
                crate::fnv(path.spec_bytes()),
                compressed@,
                mtime,
                copy,
            ),
            Err(Error::Io(_)) => kept is None && !gunzipped(compressed@).1,
            Err(e) => kept is None && e is Cancelled && cancel is Some,
        },
{
    let consumed: u64 = compressed.len() as u64;
    let name = cache_name(path, consumed, mtime);
    let content = match kept {
        Some(content) => content,
        None => match decompress(compressed, cancel) {
            Ok(content) => content,
            Err(e) => return Err(e),
        },
    };
    Ok(Unpacked { name, content, consumed })
}

/// A source is decompressed once: its copy holds the plain bytes, under a plain name, which leads out
/// of no directory, with the extension that the source has below the suffix of the compression, and
/// with the whole source behind; and asked for again, the copy that was kept comes under the same
/// name with the same bytes.
pub proof fn a_source_is_unpacked_once(
    path: Seq<char>,
    hash: u64,
    compressed: Seq<u8>,
    mtime: u64,
    first: Unpacked,
    second: Unpacked,
)
    requires
        is_unpacked(None, path, hash, compressed, mtime, first),
        is_unpacked(Some(first.content@), path, hash, compressed, mtime, second),
    ensures
        gunzipped(compressed) == (first.content@, true),
        crate::path::file_name(first.name@) == Some(first.name@),
        crate::path::path_extension(first.name@) == plain_extension(path),
        first.consumed == compressed.len(),
        second.name@ == first.name@,
        second.content@ == first.content@,
        second.consumed == compressed.len(),
{
    lemma_copy_extension(path, hash, compressed.len() as u64, mtime);
}

/// Whether a character does not occur in a text.
spec fn lacks(s: Seq<char>, c: char) -> bool {
    forall|i: int| 0 <= i < s.len() ==> #[trigger] s[i] != c
}

proof fn lemma_hex_lacks(n: int, digits: nat, c: char)
    requires
        c == '.' || c == '/',
    ensures
        lacks(crate::text::hex_text(n, digits), c),
    decreases digits,
{
    if digits > 0 {
        lemma_hex_lacks(n / 16, (digits - 1) as nat, c);
    }
}

/// The name of a path holds no slash.
proof fn lemma_file_name(path: Seq<char>)
    ensures
        crate::path::file_name(path) matches Some(name) ==> lacks(name, '/'),
    decreases path.len(),
{
    let segment = crate::path::behind_last(path, '/');
    crate::path::cut_at_last(path, '/');
    assert(lacks(segment, '/')) by {
        assert forall|i: int| 0 <= i < segment.len() implies #[trigger] segment[i] != '/' by {
            assert(segment.contains(segment[i]));
        }
    }
    if segment.len() == 0 || segment == seq!['.'] {
        if let Some(front) = crate::path::before_last(path, '/') {
            assert(front.len() < path.len());
            lemma_file_name(front);
        }
    }
}

/// The extension of a path holds neither a dot nor a slash.
proof fn lemma_extension(path: Seq<char>)
    ensures
        crate::path::path_extension(path) matches Some(ext) ==> lacks(ext, '.') && lacks(ext, '/'),
{
    lemma_file_name(path);
    if let Some(name) = crate::path::file_name(path) {
        let ext = crate::path::behind_last(name, '.');
        crate::path::cut_at_last(name, '.');
        if let Some(front) = crate::path::before_last(name, '.') {
            assert forall|i: int| 0 <= i < ext.len() implies #[trigger] ext[i] != '.' && ext[i]
                != '/' by {
                assert(ext.contains(ext[i]));
                assert(name[front.len() + 1 + i] == ext[i]);
            }
        }
    }
}

/// A text without a character is behind the last one as a whole, also where something that ends in
/// the character stands before it.
proof fn lemma_behind_last(front: Option<Seq<char>>, rest: Seq<char>, c: char)
    requires
        lacks(rest, c),
    ensures
        ({
            let s = match front {
                Some(f) => f.push(c) + rest,
                None => rest,
            };
            crate::path::behind_last(s, c) == rest && crate::path::before_last(s, c) == front
        }),
    decreases rest.len(),
{
    let s = match front {
        Some(f) => f.push(c) + rest,
        None => rest,
    };
    if rest.len() == 0 {
        if let Some(f) = front {
            assert(s =~= f.push(c));
            assert(s.drop_last() =~= f);
        }
        assert(crate::path::behind_last(s, c) =~= rest);
    } else {
        lemma_behind_last(front, rest.drop_last(), c);
        assert(s.drop_last() =~= match front {
            Some(f) => f.push(c) + rest.drop_last(),
            None => rest.drop_last(),
        });
        assert(s.last() == rest.last());
        assert(rest.drop_last().push(rest.last()) =~= rest);
    }
}

/// The name of a copy is a plain one, and has the extension that the source has below the suffix of the compression.
proof fn lemma_copy_extension(path: Seq<char>, hash: u64, size: u64, mtime: u64)
    ensures
        ({
            let name = copy_name(hash, size, mtime, plain_extension(path));
            &&& crate::path::file_name(name) == Some(name)
            &&& crate::path::path_extension(name) == plain_extension(path)
        }),
{
    reveal_strlit("-");
    reveal_strlit(".");
    let ext = plain_extension(path);
    let front = crate::text::hex_text(hash as int, 16);
    let (s, m) = (crate::text::decimal_text(size as int), crate::text::decimal_text(mtime as int));
    let stem = front + "-"@ + s + "-"@ + m;
    let name = copy_name(hash, size, mtime, ext);
    lemma_hex_lacks(hash as int, 16, '.');
    lemma_hex_lacks(hash as int, 16, '/');
    crate::text::decimal_text_reads_back(size as int);
    crate::text::decimal_text_reads_back(mtime as int);
    assert(lacks(s, '.') && lacks(s, '/') && lacks(m, '.') && lacks(m, '/'));
    assert(lacks(stem, '.') && lacks(stem, '/'));
    assert(stem.len() >= 3);
    if let Some(below) = crate::path::file_name(path) {
        lemma_extension(without_gz(below));
    }
    match ext {
        Some(e) => {
            assert(lacks(e, '.') && lacks(e, '/'));
            assert(name =~= stem.push('.') + e);
            lemma_behind_last(Some(stem), e, '.');
        },
        None => lemma_behind_last(None, stem, '.'),
    }
    assert(lacks(name, '/'));
    lemma_behind_last(None, name, '/');
}

/// The suffix of the compression is taken off a name, in lower or in upper case, and nothing else is.
pub proof fn only_the_suffix_is_taken_off(stem: Seq<char>, name: Seq<char>)
    ensures
        without_gz(stem + seq!['.', 'g', 'z']) == stem,
        without_gz(stem + seq!['.', 'G', 'Z']) == stem,
        name.len() > 0 && name.last() != 'z' && name.last() != 'Z' ==> without_gz(name) == name,
        name.len() < 3 ==> without_gz(name) == name,
{
    reveal_strlit(".gz");
    reveal_strlit(".GZ");
    assert(".gz"@ =~= seq!['.', 'g', 'z']);
    assert(".GZ"@ =~= seq!['.', 'G', 'Z']);
    let lower = stem + seq!['.', 'g', 'z'];
    let upper = stem + seq!['.', 'G', 'Z'];
    let n = stem.len() as int;
    assert(lower.len() == n + 3 && upper.len() == n + 3);
    assert(lower.skip(n) =~= ".gz"@);
    assert(upper.skip(n) =~= ".GZ"@);
    assert(lower.take(n) =~= stem);
    assert(upper.take(n) =~= stem);
    assert(without_gz(lower) == stem);
    assert(without_gz(upper) == stem);
    if name.len() >= 3 {
        let end = name.skip(name.len() - 3);
        assert(end[2] == name.last());
        assert(".gz"@[2] == 'z');
        assert(".GZ"@[2] == 'Z');
        if name.last() != 'z' && name.last() != 'Z' {
            assert(end != ".gz"@ && end != ".GZ"@);
            assert(without_gz(name) == name);
        }
    }
}

/// The extension below the suffix of the compression is that of the name without the suffix, in lower
/// case.
pub proof fn extensions_stand_below_the_suffix(front: Seq<char>, stem: Seq<char>, ext: Seq<char>)
    requires
        !stem.contains('/'),
        !ext.contains('/'),
        !ext.contains('.'),
        stem.len() > 0,
        ext.len() > 0,
    ensures
        plain_extension(front.push('/') + (stem.push('.') + ext + seq!['.', 'g', 'z'])) == Some(
            lowered(ext),
        ),
{
    let plain = stem.push('.') + ext;
    let name = plain + seq!['.', 'g', 'z'];
    assert forall|k: int| 0 <= k < name.len() implies name[k] != '/' by {
        if k < stem.len() {
            assert(name[k] == stem[k]);
        } else if stem.len() < k < plain.len() {
            assert(name[k] == ext[k - stem.len() - 1]);
        }
    }
    assert(!name.contains('/'));
    assert(name.len() >= 5);
    crate::path::names_stand_behind_the_last_slash(front, name);
    only_the_suffix_is_taken_off(plain, name);
    assert(plain != seq!['.', '.']) by {
        assert(plain.last() == ext.last());
        assert(ext[ext.len() - 1] != '.');
    }
    crate::path::extensions_stand_behind_the_last_dot(front, stem, ext);
}

} // verus!
