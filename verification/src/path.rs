//! Slash-separated paths as text: the last name of a path, the extension of a name, and whether two
//! paths are the same.
use vstd::prelude::*;
use crate::text::{chars_of, string_of};

verus! {

/// The part of a text behind the last `c`: all of it where `c` does not occur.
pub open spec fn behind_last(s: Seq<char>, c: char) -> Seq<char>
    decreases s.len(),
{
    if s.len() == 0 || s.last() == c {
        Seq::empty()
    } else {
        behind_last(s.drop_last(), c).push(s.last())
    }
}

/// The part of a text before the last `c`, if `c` occurs.
pub open spec fn before_last(s: Seq<char>, c: char) -> Option<Seq<char>>
    decreases s.len(),
{
    if s.len() == 0 {
        None
    } else if s.last() == c {
        Some(s.drop_last())
    } else {
        before_last(s.drop_last(), c)
    }
}

/// Cutting a text at its last `c` and putting it together again gives the text.
pub proof fn cut_at_last(s: Seq<char>, c: char)
    ensures
        match before_last(s, c) {
            Some(front) => s == front.push(c) + behind_last(s, c),
            None => s == behind_last(s, c),
        },
        !behind_last(s, c).contains(c),
        before_last(s, c) is None ==> !s.contains(c),
        before_last(s, c) is Some ==> s.contains(c),
    decreases s.len(),
{
    if s.len() > 0 && s.last() != c {
        cut_at_last(s.drop_last(), c);
        let tail = behind_last(s.drop_last(), c);
        assert(s =~= s.drop_last().push(s.last()));
        match before_last(s.drop_last(), c) {
            Some(front) => {
                assert(s =~= front.push(c) + tail.push(s.last()));
                assert(s[front.len() as int] == c);
            },
            None => {
                assert(s =~= tail.push(s.last()));
            },
        }
        assert forall|i: int| 0 <= i < tail.push(s.last()).len() implies tail.push(s.last())[i]
            != c by {
            if i < tail.len() {
                assert(tail.contains(tail[i]));
            }
        }
    } else if s.len() > 0 {
        assert(s =~= s.drop_last().push(c) + Seq::<char>::empty());
        assert(s[s.len() - 1] == c);
    }
}

/// Where the last `c` stands.
pub(crate) fn find_last(chars: &[char], c: char) -> (at: Option<usize>)
    ensures
        match at {
            Some(i) => i < chars@.len() && before_last(chars@, c) == Some(chars@.take(i as int))
                && behind_last(chars@, c) == chars@.skip(i + 1),
            None => before_last(chars@, c) is None && behind_last(chars@, c) == chars@,
        },
{
    let mut end: usize = chars.len();
    assert(chars@.take(end as int) =~= chars@);
    assert(chars@.skip(end as int) =~= Seq::empty());
    assert(behind_last(chars@, c) =~= behind_last(chars@.take(end as int), c) + chars@.skip(
        end as int,
    ));
    while end > 0
        invariant
            end <= chars.len(),
            before_last(chars@, c) == before_last(chars@.take(end as int), c),
            behind_last(chars@, c) == behind_last(chars@.take(end as int), c) + chars@.skip(
                end as int,
            ),
        decreases end,
    {
        let ghost front = chars@.take(end as int);
        assert(front.drop_last() =~= chars@.take(end - 1));
        assert(front.last() == chars@[end - 1]);
        if chars[end - 1] == c {
            assert(Seq::<char>::empty() + chars@.skip(end as int) =~= chars@.skip(end as int));
            return Some(end - 1);
        }
        assert(behind_last(front, c) + chars@.skip(end as int) =~= behind_last(
            front.drop_last(),
            c,
        ) + chars@.skip(end - 1));
        end -= 1;
    }
    assert(chars@.take(0) =~= Seq::empty());
    assert(Seq::<char>::empty() + chars@.skip(0) =~= chars@);
    None
}

/// The last name of a path. A path that ends in a slash or in a segment `.` is read up to there; one
/// that comes to nothing, or to `..`, has no name.
pub open spec fn file_name(path: Seq<char>) -> Option<Seq<char>>
    decreases path.len(),
    via file_name_decreases
{
    let segment = behind_last(path, '/');
    if segment.len() == 0 || segment == seq!['.'] {
        match before_last(path, '/') {
            Some(front) => file_name(front),
            None => None,
        }
    } else if segment == seq!['.', '.'] {
        None
    } else {
        Some(segment)
    }
}

#[via_fn]
proof fn file_name_decreases(path: Seq<char>) {
    cut_at_last(path, '/');
}

/// The last name of a path; see [`file_name`].
pub fn last_name(path: &[char]) -> (name: Option<Vec<char>>)
    ensures
        match name {
            Some(n) => file_name(path@) == Some(n@),
            None => file_name(path@) is None,
        },
{
    let mut end: usize = path.len();
    assert(path@.take(end as int) =~= path@);
    loop
        invariant
            end <= path.len(),
            file_name(path@) == file_name(path@.take(end as int)),
        decreases end,
    {
        let front = vstd::slice::slice_subrange(path, 0, end);
        assert(front@ =~= path@.take(end as int));
        match find_last(front, '/') {
            Some(i) => {
                let segment = vstd::slice::slice_subrange(front, i + 1, end);
                assert(segment@ =~= front@.skip(i + 1));
                if segment.len() == 0 || (segment.len() == 1 && segment[0] == '.') {
                    assert(segment@.len() == 1 ==> segment@ =~= seq!['.']);
                    assert(front@.take(i as int) =~= path@.take(i as int));
                    end = i;
                } else if segment.len() == 2 && segment[0] == '.' && segment[1] == '.' {
                    assert(segment@ =~= seq!['.', '.']);
                    return None;
                } else {
                    return Some(vstd::slice::slice_to_vec(segment));
                }
            },
            None => {
                if front.len() == 0 || (front.len() == 1 && front[0] == '.') {
                    assert(front@.len() == 1 ==> front@ =~= seq!['.']);
                    return None;
                } else if front.len() == 2 && front[0] == '.' && front[1] == '.' {
                    assert(front@ =~= seq!['.', '.']);
                    return None;
                } else {
                    return Some(vstd::slice::slice_to_vec(front));
                }
            },
        }
    }
}

/// The extension of a path: what follows the last dot of its last name. A name without a dot has
/// none, nor has one whose only dot is its first character.
pub open spec fn path_extension(path: Seq<char>) -> Option<Seq<char>> {
    match file_name(path) {
        Some(name) => match before_last(name, '.') {
            Some(stem) => if stem.len() > 0 {
                Some(behind_last(name, '.'))
            } else {
                None
            },
            None => None,
        },
        None => None,
    }
}

/// The extension of a path; see [`path_extension`].
pub fn extension(path: &[char]) -> (ext: Option<Vec<char>>)
    ensures
        match ext {
            Some(e) => path_extension(path@) == Some(e@),
            None => path_extension(path@) is None,
        },
{
    match last_name(path) {
        Some(name) => {
            let end: usize = name.len();
            match find_last(name.as_slice(), '.') {
                Some(i) => if i > 0 {
                    let ext = vstd::slice::slice_subrange(name.as_slice(), i + 1, end);
                    assert(ext@ =~= name@.skip(i + 1));
                    Some(vstd::slice::slice_to_vec(ext))
                } else {
                    None
                },
                None => None,
            }
        },
        None => None,
    }
}

/// The name under which a path is shown: its last name, or all of it where it has none.
pub fn recent_name(path: &str) -> (name: String)
    ensures
        name@ == (match file_name(path@) {
            Some(n) => n,
            None => path@,
        }),
{
    let chars = chars_of(path);
    match last_name(chars.as_slice()) {
        Some(name) => string_of(name.as_slice()),
        None => string_of(chars.as_slice()),
    }
}

/// Whether a segment of a path counts: it is neither empty nor `.`.
pub open spec fn counts(segment: Seq<char>) -> bool {
    segment.len() > 0 && segment != seq!['.']
}

/// A segment in a list, if it counts.
pub open spec fn listed(segment: Seq<char>) -> Seq<Seq<char>> {
    if counts(segment) {
        seq![segment]
    } else {
        Seq::empty()
    }
}

/// The segments of a path that count, of which `current` was read of the first one.
pub open spec fn segments_from(path: Seq<char>, current: Seq<char>) -> Seq<Seq<char>>
    decreases path.len(),
{
    if path.len() == 0 {
        listed(current)
    } else if path[0] == '/' {
        listed(current) + segments_from(path.drop_first(), Seq::empty())
    } else {
        segments_from(path.drop_first(), current.push(path[0]))
    }
}

/// Whether a path starts at the root.
pub open spec fn is_rooted(path: Seq<char>) -> bool {
    path.len() > 0 && path[0] == '/'
}

/// Whether a path starts with the segment `.`.
pub open spec fn starts_here(path: Seq<char>) -> bool {
    path.len() > 0 && path[0] == '.' && (path.len() == 1 || path[1] == '/')
}

/// What a path is compared by: where it starts, and its segments that count.
pub open spec fn path_key(path: Seq<char>) -> (bool, bool, Seq<Seq<char>>) {
    (is_rooted(path), starts_here(path), segments_from(path, Seq::empty()))
}

/// Adds a segment that was read, if it counts.
fn list_segment(segments: &mut Vec<String>, current: &Vec<char>)
    ensures
        crate::remote::texts(final(segments)@) == crate::remote::texts(old(segments)@) + listed(
            current@,
        ),
{
    if current.len() > 0 && !(current.len() == 1 && current[0] == '.') {
        let segment = string_of(current.as_slice());
        assert(counts(current@));
        segments.push(segment);
        assert(crate::remote::texts(segments@) =~= crate::remote::texts(old(segments)@) + listed(
            current@,
        ));
    } else {
        assert(current@.len() == 1 ==> current@ =~= seq!['.']);
        assert(crate::remote::texts(segments@) =~= crate::remote::texts(old(segments)@) + listed(
            current@,
        ));
    }
}

/// The segments of a path that count.
pub fn segments(path: &str) -> (r: Vec<String>)
    ensures
        crate::remote::texts(r@) == segments_from(path@, Seq::empty()),
{
    let chars = chars_of(path);
    let mut r: Vec<String> = Vec::new();
    let mut current: Vec<char> = Vec::new();
    let ghost all = segments_from(path@, Seq::empty());
    assert(chars@.skip(0) =~= chars@);
    assert(current@ =~= Seq::empty());
    assert(crate::remote::texts(r@) + all =~= all);
    for i in 0..chars.len()
        invariant
            chars@ == path@,
            all == segments_from(path@, Seq::empty()),
            all == crate::remote::texts(r@) + segments_from(chars@.skip(i as int), current@),
    {
        let c: char = chars[i];
        let ghost before = crate::remote::texts(r@);
        proof {
            assert(chars@.skip(i as int)[0] == c);
            assert(chars@.skip(i as int).drop_first() =~= chars@.skip(i + 1));
        }
        if c == '/' {
            list_segment(&mut r, &current);
            proof {
                let rest = segments_from(chars@.skip(i + 1), Seq::empty());
                assert(before + (listed(current@) + rest) =~= before + listed(current@) + rest);
            }
            current = Vec::new();
            assert(current@ =~= Seq::empty());
        } else {
            current.push(c);
        }
    }
    assert(chars@.skip(chars@.len() as int) =~= Seq::empty());
    list_segment(&mut r, &current);
    r
}

/// Whether two paths are the same, segment by segment: repeated slashes, slashes at the end and
/// segments `.` behind the start make no difference.
pub fn same_path(a: &str, b: &str) -> (r: bool)
    ensures
        r == (path_key(a@) == path_key(b@)),
{
    let x = chars_of(a);
    let y = chars_of(b);
    if rooted(x.as_slice()) != rooted(y.as_slice()) || here(x.as_slice()) != here(y.as_slice()) {
        return false;
    }
    let left = segments(a);
    let right = segments(b);
    let ghost (ls, rs) = (crate::remote::texts(left@), crate::remote::texts(right@));
    if left.len() != right.len() {
        assert(ls.len() != rs.len());
        return false;
    }
    for i in 0..left.len()
        invariant
            left@.len() == right@.len(),
            ls == crate::remote::texts(left@),
            rs == crate::remote::texts(right@),
            ls == segments_from(a@, Seq::empty()),
            rs == segments_from(b@, Seq::empty()),
            forall|j: int| 0 <= j < i ==> ls[j] == rs[j],
    {
        assert(ls[i as int] == left@[i as int]@ && rs[i as int] == right@[i as int]@);
        if !crate::remote::same_text(left[i].as_str(), right[i].as_str()) {
            return false;
        }
    }
    assert(ls =~= rs);
    true
}

/// Whether a path starts at the root.
fn rooted(path: &[char]) -> (r: bool)
    ensures
        r == is_rooted(path@),
{
    path.len() > 0 && path[0] == '/'
}

/// Whether a path starts with the segment `.`.
fn here(path: &[char]) -> (r: bool)
    ensures
        r == starts_here(path@),
{
    path.len() > 0 && path[0] == '.' && (path.len() == 1 || path[1] == '/')
}

/// A text without a character is behind the last one as a whole, also where something that ends in the
/// character stands before it.
pub proof fn lemma_behind(front: Seq<char>, rest: Seq<char>, c: char)
    requires
        !rest.contains(c),
    ensures
        behind_last(front.push(c) + rest, c) == rest,
        before_last(front.push(c) + rest, c) == Some(front),
        behind_last(rest, c) == rest,
        before_last(rest, c) is None,
    decreases rest.len(),
{
    let s = front.push(c) + rest;
    if rest.len() == 0 {
        assert(s =~= front.push(c));
        assert(front.push(c).drop_last() =~= front);
        assert(rest =~= Seq::empty());
    } else {
        let x = rest.last();
        assert(rest[rest.len() - 1] == x);
        assert(x != c);
        let shorter = rest.drop_last();
        assert forall|d: char| shorter.contains(d) implies rest.contains(d) by {
            let k = shorter.index_of(d);
            assert(rest[k] == d);
        }
        lemma_behind(front, shorter, c);
        assert(s.last() == x);
        assert(s.drop_last() =~= front.push(c) + shorter);
        assert(shorter.push(x) =~= rest);
    }
}

/// A path ends in its name: what stands behind its last slash, if that is neither empty nor `.` nor
/// `..`, whatever stands before. A slash or `/.` at the end makes no difference, and after `..` there
/// is no name.
pub proof fn names_stand_behind_the_last_slash(front: Seq<char>, name: Seq<char>)
    requires
        !name.contains('/'),
        name.len() > 0,
        name != seq!['.'],
    ensures
        name != seq!['.', '.'] ==> file_name(name) == Some(name),
        name != seq!['.', '.'] ==> file_name(front.push('/') + name) == Some(name),
        name == seq!['.', '.'] ==> file_name(front.push('/') + name) is None,
        file_name(name.push('/')) == file_name(name),
        file_name(name.push('/').push('.')) == file_name(name),
{
    lemma_behind(front, name, '/');
    let none = Seq::<char>::empty();
    lemma_behind(name, none, '/');
    assert(name.push('/') + none =~= name.push('/'));
    let dot = seq!['.'];
    assert(!dot.contains('/')) by {
        if dot.contains('/') {
            let k = dot.index_of('/');
            assert(dot[k] == '/');
        }
    }
    lemma_behind(name, dot, '/');
    assert(name.push('/') + dot =~= name.push('/').push('.'));
}

/// An extension is what stands behind the last dot of a name, if something stands before that dot.
pub proof fn extensions_stand_behind_the_last_dot(front: Seq<char>, stem: Seq<char>, ext: Seq<char>)
    requires
        !stem.contains('/'),
        !ext.contains('/'),
        !ext.contains('.'),
        stem.len() > 0,
        stem.push('.') + ext != seq!['.', '.'],
    ensures
        path_extension(stem.push('.') + ext) == Some(ext),
        path_extension(front.push('/') + (stem.push('.') + ext)) == Some(ext),
        !stem.contains('.') ==> path_extension(stem) is None,
        ext.len() > 0 ==> path_extension(front.push('/') + seq!['.'] + ext) is None,
{
    let name = stem.push('.') + ext;
    assert forall|k: int| 0 <= k < name.len() implies name[k] != '/' by {
        if k < stem.len() {
            assert(name[k] == stem[k]);
        } else if k > stem.len() {
            assert(name[k] == ext[k - stem.len() - 1]);
        }
    }
    assert(!name.contains('/'));
    assert(name.len() >= 2);
    names_stand_behind_the_last_slash(front, name);
    lemma_behind(stem, ext, '.');
    if !stem.contains('.') {
        if stem == seq!['.'] {
            assert(stem[0] == '.');
        }
        if stem == seq!['.', '.'] {
            assert(stem[0] == '.');
        }
        names_stand_behind_the_last_slash(front, stem);
        lemma_behind(Seq::empty(), stem, '.');
    }
    let hidden = seq!['.'] + ext;
    let none = Seq::<char>::empty();
    assert forall|k: int| 0 <= k < hidden.len() implies hidden[k] != '/' by {
        if k > 0 {
            assert(hidden[k] == ext[k - 1]);
        }
    }
    assert(!hidden.contains('/'));
    assert(front.push('/') + seq!['.'] + ext =~= front.push('/') + hidden);
    if ext.len() > 0 {
        assert(ext[0] != '.');
        assert(hidden[1] == ext[0]);
        assert(hidden != seq!['.']);
        assert(hidden != seq!['.', '.']);
        names_stand_behind_the_last_slash(front, hidden);
        lemma_behind(none, ext, '.');
        assert(none.push('.') + ext =~= hidden);
    }
}

proof fn lemma_segment(segment: Seq<char>, rest: Seq<char>, current: Seq<char>)
    requires
        !segment.contains('/'),
    ensures
        segments_from(segment.push('/') + rest, current) == listed(current + segment) + segments_from(
            rest,
            Seq::empty(),
        ),
        segments_from(segment, current) == listed(current + segment),
    decreases segment.len(),
{
    let path = segment.push('/') + rest;
    if segment.len() == 0 {
        assert(path.drop_first() =~= rest);
        assert(current + segment =~= current);
    } else {
        assert(segment[0] != '/') by {
            assert(segment.contains(segment[0]));
        }
        let tail = segment.drop_first();
        assert forall|d: char| tail.contains(d) implies segment.contains(d) by {
            let k = tail.index_of(d);
            assert(segment[k + 1] == d);
        }
        assert(path.drop_first() =~= tail.push('/') + rest);
        assert(current.push(segment[0]) + tail =~= current + segment);
        lemma_segment(tail, rest, current.push(segment[0]));
    }
}

/// Two paths are the same where they have the same segments, apart from empty ones and `.`, and start
/// in the same place: a segment that is put before a path is one more segment of it, unless it is
/// empty or `.`, and any other difference in a segment makes another path.
pub proof fn paths_are_compared_by_segments(segment: Seq<char>, rest: Seq<char>, path: Seq<char>)
    requires
        !segment.contains('/'),
    ensures
        segment.len() == 0 || segment == seq!['.'] ==> path_key(segment.push('/') + rest).2
            == path_key(rest).2,
        segment.len() > 0 && segment != seq!['.'] ==> path_key(segment.push('/') + rest).2 == seq![
            segment,
        ] + path_key(rest).2,
        segment.len() > 0 && segment != seq!['.'] ==> path_key(segment).2 == seq![segment],
        path_key(path).0 <==> path.len() > 0 && path[0] == '/',
        path_key(path).1 <==> path == seq!['.'] || (path.len() >= 2 && path[0] == '.' && path[1]
            == '/'),
{
    let none = Seq::<char>::empty();
    lemma_segment(segment, rest, none);
    assert(none + segment =~= segment);
    assert(listed(segment).len() == 0 ==> listed(segment) + segments_from(rest, none)
        =~= segments_from(rest, none));
    if path.len() == 1 && path[0] == '.' {
        assert(path =~= seq!['.']);
    }
}

} // verus!
