//! The list of sources that were opened last.
use vstd::prelude::*;
use crate::path::same_path;
use crate::remote::copy_text;
use crate::text::{append, chars_of, string_of};

verus! {

/// How many sources the list holds.
pub const RECENT: usize = 10;

/// A list without a source, however its path is written.
pub open spec fn without(list: Seq<Seq<char>>, path: Seq<char>) -> Seq<Seq<char>>
    decreases list.len(),
{
    if list.len() == 0 {
        list
    } else if crate::path::path_key(list.last()) == crate::path::path_key(path) {
        without(list.drop_last(), path)
    } else {
        without(list.drop_last(), path).push(list.last())
    }
}

/// The list after a source was opened: it comes first, once, and the list keeps its length limit.
pub open spec fn opened(list: Seq<Seq<char>>, path: Seq<char>) -> Seq<Seq<char>> {
    let all = seq![path] + without(list, path);
    if all.len() <= RECENT {
        all
    } else {
        all.take(RECENT as int)
    }
}

/// Puts a source at the front of the list.
pub fn add(recent: &mut Vec<String>, path: &str)
    ensures
        crate::remote::texts(final(recent)@) == opened(crate::remote::texts(old(recent)@), path@),
{
    let ghost list = crate::remote::texts(recent@);
    let mut kept: Vec<String> = Vec::new();
    kept.push(copy_text(path));
    assert(list.take(0) =~= Seq::empty());
    assert(crate::remote::texts(kept@) =~= seq![path@] + without(list.take(0), path@));
    for i in 0..recent.len()
        invariant
            *recent == *old(recent),
            list == crate::remote::texts(recent@),
            crate::remote::texts(kept@) == seq![path@] + without(list.take(i as int), path@),
    {
        proof {
            assert(list.take(i + 1).drop_last() =~= list.take(i as int));
            assert(list.take(i + 1).last() == recent@[i as int]@);
        }
        if !same_path(recent[i].as_str(), path) {
            let copy = copy_text(recent[i].as_str());
            let ghost before = kept@;
            kept.push(copy);
            proof {
                assert(crate::remote::texts(before.push(copy)) =~= crate::remote::texts(
                    before,
                ).push(copy@));
                assert(crate::remote::texts(kept@) =~= seq![path@] + without(
                    list.take(i + 1),
                    path@,
                ));
            }
        }
    }
    assert(list.take(list.len() as int) =~= list);
    let ghost all = kept@;
    kept.truncate(RECENT);
    proof {
        if all.len() > RECENT {
            assert(crate::remote::texts(kept@) =~= crate::remote::texts(all).take(RECENT as int));
        }
    }
    *recent = kept;
}

/// Whether no two sources of a list are the same path.
pub open spec fn distinct(list: Seq<Seq<char>>) -> bool {
    forall|i: int, j: int|
        0 <= i < j < list.len() ==> crate::path::path_key(#[trigger] list[i]) != crate::path::path_key(#[trigger] list[j])
}

proof fn lemma_without(list: Seq<Seq<char>>, path: Seq<char>)
    ensures
        forall|i: int|
            0 <= i < without(list, path).len() ==> crate::path::path_key(#[trigger] without(list, path)[i])
                != crate::path::path_key(path) && list.contains(without(list, path)[i]),
        forall|x: Seq<char>|
            crate::path::path_key(x) != crate::path::path_key(path) && list.contains(x) ==> #[trigger] without(
                list,
                path,
            ).contains(x),
        distinct(list) ==> distinct(without(list, path)),
    decreases list.len(),
{
    if list.len() > 0 {
        let front = list.drop_last();
        let rest = without(front, path);
        let all = without(list, path);
        lemma_without(front, path);
        assert forall|i: int| 0 <= i < all.len() implies crate::path::path_key(#[trigger] all[i]) != crate::path::path_key(
            path,
        ) && list.contains(all[i]) by {
            if i < rest.len() {
                assert(rest[i] == all[i]);
                let k = choose|k: int| 0 <= k < front.len() && front[k] == rest[i];
                assert(list[k] == all[i]);
            } else {
                assert(list[list.len() - 1] == all[i]);
            }
        }
        assert forall|x: Seq<char>|
            crate::path::path_key(x) != crate::path::path_key(path) && list.contains(x) implies #[trigger] all.contains(
            x,
        ) by {
            let i = choose|i: int| 0 <= i < list.len() && list[i] == x;
            if i < front.len() {
                assert(front[i] == x);
                assert(rest.contains(x));
                let k = choose|k: int| 0 <= k < rest.len() && rest[k] == x;
                assert(all[k] == x);
            } else {
                assert(all.last() == x);
            }
        }
        if distinct(list) {
            assert(distinct(front));
            assert forall|i: int, j: int| 0 <= i < j < all.len() implies crate::path::path_key(
                #[trigger] all[i],
            ) != crate::path::path_key(#[trigger] all[j]) by {
                assert(rest[i] == all[i]);
                if j < rest.len() {
                    assert(rest[j] == all[j]);
                } else {
                    let k = choose|k: int| 0 <= k < front.len() && front[k] == rest[i];
                    assert(list[k] == all[i]);
                    assert(list[list.len() - 1] == all[j]);
                }
            }
        }
    }
}

/// A source that is opened is first in the list; the list names no path twice, and none that was not
/// in it before, and while there is room it loses none but the one that was opened.
pub proof fn opened_source_comes_first(list: Seq<Seq<char>>, path: Seq<char>)
    requires
        distinct(list),
    ensures
        opened(list, path)[0] == path,
        0 < opened(list, path).len() <= RECENT,
        distinct(opened(list, path)),
        forall|i: int|
            0 < i < opened(list, path).len() ==> list.contains(#[trigger] opened(list, path)[i]),
        list.len() < RECENT ==> forall|x: Seq<char>|
            crate::path::path_key(x) != crate::path::path_key(path) && list.contains(x) ==> #[trigger] opened(
                list,
                path,
            ).contains(x),
{
    lemma_without(list, path);
    lemma_without_len(list, path);
    let rest = without(list, path);
    let all = seq![path] + rest;
    assert(forall|i: int| 0 < i < all.len() ==> #[trigger] all[i] == rest[i - 1]);
    assert forall|i: int, j: int| 0 <= i < j < all.len() implies crate::path::path_key(#[trigger] all[i])
        != crate::path::path_key(#[trigger] all[j]) by {
        assert(all[j] == rest[j - 1]);
        if i > 0 {
            assert(all[i] == rest[i - 1]);
        }
    }
    assert forall|i: int| 0 < i < opened(list, path).len() implies list.contains(
        #[trigger] opened(list, path)[i],
    ) by {
        assert(opened(list, path)[i] == rest[i - 1]);
    }
    if list.len() < RECENT {
        assert forall|x: Seq<char>|
            crate::path::path_key(x) != crate::path::path_key(path) && list.contains(x) implies #[trigger] opened(
            list,
            path,
        ).contains(x) by {
            assert(rest.contains(x));
            let k = choose|k: int| 0 <= k < rest.len() && rest[k] == x;
            assert(opened(list, path)[k + 1] == x);
        }
    }
}

proof fn lemma_without_len(list: Seq<Seq<char>>, path: Seq<char>)
    ensures
        without(list, path).len() <= list.len(),
    decreases list.len(),
{
    if list.len() > 0 {
        lemma_without_len(list.drop_last(), path);
    }
}

/// Texts with a line end between them.
pub open spec fn joined(list: Seq<Seq<char>>) -> Seq<char>
    decreases list.len(),
{
    if list.len() == 0 {
        Seq::empty()
    } else if list.len() == 1 {
        list[0]
    } else {
        joined(list.drop_last()) + "\n"@ + list.last()
    }
}

/// The list as it is stored: a source to a line.
pub fn stored(recent: &Vec<String>) -> (text: String)
    ensures
        text@ == joined(crate::remote::texts(recent@)),
{
    let mut text = String::new();
    let ghost list = crate::remote::texts(recent@);
    assert(list.take(0) =~= Seq::empty());
    for i in 0..recent.len()
        invariant
            list == crate::remote::texts(recent@),
            text@ == joined(list.take(i as int)),
    {
        if i > 0 {
            append(&mut text, "\n");
        }
        append(&mut text, recent[i].as_str());
        proof {
            assert(list.take(i + 1).drop_last() =~= list.take(i as int));
            assert(list.take(i + 1).last() == recent@[i as int]@);
            if i == 0 {
                assert(list.take(0) =~= Seq::empty());
                assert(text@ =~= recent@[0]@);
            }
        }
    }
    assert(list.take(list.len() as int) =~= list);
    text
}

/// A line without the carriage return that it ends with.
pub open spec fn bare_line(line: Seq<char>) -> Seq<char> {
    if line.len() > 0 && line.last() == '\r' {
        line.drop_last()
    } else {
        line
    }
}

/// The lines of a text, of which `current` was read of the last one. Behind the last line end an
/// empty line does not count.
pub open spec fn lines_from(text: Seq<char>, current: Seq<char>) -> Seq<Seq<char>>
    decreases text.len(),
{
    if text.len() == 0 {
        if current.len() == 0 {
            Seq::empty()
        } else {
            seq![current]
        }
    } else if text[0] == '\n' {
        seq![bare_line(current)] + lines_from(text.drop_first(), Seq::empty())
    } else {
        lines_from(text.drop_first(), current.push(text[0]))
    }
}

/// Reads the list as it was stored: a source to a line.
pub fn read(text: &str) -> (recent: Vec<String>)
    ensures
        crate::remote::texts(recent@) == lines_from(text@, Seq::empty()),
{
    let chars = chars_of(text);
    let mut recent: Vec<String> = Vec::new();
    let mut current: Vec<char> = Vec::new();
    assert(chars@.skip(0) =~= chars@);
    assert(crate::remote::texts(recent@) =~= Seq::empty());
    assert(Seq::<Seq<char>>::empty() + lines_from(chars@, Seq::empty()) =~= lines_from(
        chars@,
        Seq::empty(),
    ));
    assert(current@ =~= Seq::empty());
    for i in 0..chars.len()
        invariant
            chars@ == text@,
            lines_from(text@, Seq::empty()) == crate::remote::texts(recent@) + lines_from(
                chars@.skip(i as int),
                current@,
            ),
    {
        let c: char = chars[i];
        proof {
            assert(chars@.skip(i as int)[0] == c);
            assert(chars@.skip(i as int).drop_first() =~= chars@.skip(i + 1));
        }
        if c == '\n' {
            let n: usize = current.len();
            let end: usize = if n > 0 && current[n - 1] == '\r' {
                n - 1
            } else {
                n
            };
            let line = vstd::slice::slice_subrange(current.as_slice(), 0, end);
            assert(line@ =~= bare_line(current@));
            let name = string_of(line);
            let ghost before = recent@;
            recent.push(name);
            proof {
                assert(crate::remote::texts(before.push(name)) =~= crate::remote::texts(
                    before,
                ).push(name@));
                let rest = lines_from(chars@.skip(i + 1), Seq::empty());
                assert(crate::remote::texts(before) + (seq![name@] + rest)
                    =~= crate::remote::texts(before).push(name@) + rest);
            }
            current = Vec::new();
            assert(current@ =~= Seq::empty());
        } else {
            current.push(c);
        }
    }
    assert(chars@.skip(chars@.len() as int) =~= Seq::empty());
    let ghost listed = crate::remote::texts(recent@);
    if current.len() > 0 {
        let name = string_of(current.as_slice());
        let ghost before = recent@;
        recent.push(name);
        proof {
            assert(crate::remote::texts(before.push(name)) =~= listed.push(name@));
            assert(listed + seq![name@] =~= listed.push(name@));
        }
    } else {
        assert(listed + Seq::<Seq<char>>::empty() =~= listed);
    }
    recent
}

/// Whether a name fits in a line.
pub open spec fn is_line(name: Seq<char>) -> bool {
    &&& forall|i: int| 0 <= i < name.len() ==> name[i] != '\n'
    &&& name.len() > 0 ==> name.last() != '\r'
}

proof fn lemma_line(a: Seq<char>, current: Seq<char>, rest: Seq<char>)
    requires
        forall|i: int| 0 <= i < a.len() ==> a[i] != '\n',
    ensures
        lines_from(a + seq!['\n'] + rest, current) == seq![bare_line(current + a)] + lines_from(
            rest,
            Seq::empty(),
        ),
    decreases a.len(),
{
    let text = a + seq!['\n'] + rest;
    if a.len() == 0 {
        assert(text[0] == '\n');
        assert(text.drop_first() =~= rest);
        assert(current + a =~= current);
    } else {
        assert(text[0] == a[0]);
        assert(text.drop_first() =~= a.drop_first() + seq!['\n'] + rest);
        assert(current.push(a[0]) + a.drop_first() =~= current + a);
        lemma_line(a.drop_first(), current.push(a[0]), rest);
    }
}

proof fn lemma_last_line(a: Seq<char>, current: Seq<char>)
    requires
        forall|i: int| 0 <= i < a.len() ==> a[i] != '\n',
        (current + a).len() > 0,
    ensures
        lines_from(a, current) == seq![current + a],
    decreases a.len(),
{
    if a.len() == 0 {
        assert(current + a =~= current);
    } else {
        assert(current.push(a[0]) + a.drop_first() =~= current + a);
        lemma_last_line(a.drop_first(), current.push(a[0]));
    }
}

proof fn lemma_joined_front(list: Seq<Seq<char>>)
    requires
        list.len() >= 2,
    ensures
        joined(list) == list[0] + "\n"@ + joined(list.drop_first()),
    decreases list.len(),
{
    let front = list.drop_last();
    let rest = list.drop_first();
    if list.len() == 2 {
        assert(rest[0] == list[1]);
        assert(front[0] == list[0]);
        assert(joined(front) == list[0]);
        assert(joined(rest) == list[1]);
    } else {
        lemma_joined_front(front);
        assert(front.drop_first() =~= rest.drop_last());
        assert(joined(rest) == joined(rest.drop_last()) + "\n"@ + rest.last());
        assert(joined(list) =~= list[0] + "\n"@ + joined(rest));
    }
}

/// A list that is stored reads back, if its names fit in lines and the last one is not empty.
pub proof fn stored_list_reads_back(list: Seq<Seq<char>>)
    requires
        forall|i: int| 0 <= i < list.len() ==> is_line(#[trigger] list[i]),
        list.len() > 0 ==> list.last().len() > 0,
    ensures
        lines_from(joined(list), Seq::empty()) == list,
    decreases list.len(),
{
    reveal_strlit("\n");
    let none = Seq::<char>::empty();
    if list.len() == 0 {
        assert(lines_from(joined(list), none) =~= list);
    } else if list.len() == 1 {
        assert(none + list[0] =~= list[0]);
        assert(is_line(list[0]));
        lemma_last_line(list[0], none);
        assert(lines_from(joined(list), none) =~= list);
    } else {
        let rest = list.drop_first();
        lemma_joined_front(list);
        assert("\n"@ =~= seq!['\n']);
        assert(is_line(list[0]));
        assert forall|i: int| 0 <= i < rest.len() implies is_line(#[trigger] rest[i]) by {
            assert(rest[i] == list[i + 1]);
        }
        stored_list_reads_back(rest);
        lemma_line(list[0], none, joined(rest));
        assert(none + list[0] =~= list[0]);
        assert(seq![list[0]] + rest =~= list);
    }
}

/// The list after a source was opened begins with it, and goes on with the others in their order, as
/// many as there is room for among ten: all that are other paths come where they came before, one
/// behind another.
pub proof fn other_sources_keep_their_order(list: Seq<Seq<char>>, path: Seq<char>, next: Seq<char>)
    ensures
        opened(Seq::empty(), path) == seq![path],
        opened(list, path).len() <= 10,
        list.len() < 9 && crate::path::path_key(next) != crate::path::path_key(path) ==> opened(
            list.push(next),
            path,
        ) == opened(list, path).push(next),
        crate::path::path_key(next) == crate::path::path_key(path) ==> opened(list.push(next), path)
            == opened(list, path),
        opened(list, path).len() == 10 ==> opened(list.push(next), path) == opened(list, path),
{
    assert(list.push(next).drop_last() =~= list);
    lemma_without_len(list, path);
    let before = seq![path] + without(list, path);
    let after = seq![path] + without(list.push(next), path);
    if crate::path::path_key(next) == crate::path::path_key(path) {
        assert(after == before);
    } else {
        assert(after =~= before.push(next));
    }
    assert(opened(Seq::empty(), path) =~= seq![path]);
    if before.len() < 10 {
        assert(opened(list, path) == before);
    } else {
        assert(before.take(10) =~= after.take(10));
        assert(before.len() == 10 ==> before.take(10) =~= before);
    }
}

/// A stored list is read line by line, whether its lines end in a line feed or in a carriage return and
/// a line feed; behind the last line end nothing is read.
pub proof fn lines_are_read_with_either_end(name: Seq<char>, rest: Seq<char>)
    requires
        forall|i: int| 0 <= i < name.len() ==> name[i] != '\n' && name[i] != '\r',
    ensures
        lines_from(name + seq!['\n'] + rest, Seq::empty()) == seq![name] + lines_from(
            rest,
            Seq::empty(),
        ),
        lines_from(name + seq!['\r', '\n'] + rest, Seq::empty()) == seq![name] + lines_from(
            rest,
            Seq::empty(),
        ),
        lines_from(Seq::empty(), Seq::empty()).len() == 0,
{
    let none = Seq::<char>::empty();
    lemma_line(name, none, rest);
    assert(none + name =~= name);
    assert(bare_line(name) == name) by {
        if name.len() > 0 {
            assert(name[name.len() - 1] != '\r');
        }
    }
    let long = name.push('\r');
    lemma_line(long, none, rest);
    assert(none + long =~= long);
    assert(long.drop_last() =~= name);
    assert(bare_line(long) == name);
    assert(long + seq!['\n'] + rest =~= name + seq!['\r', '\n'] + rest);
}

} // verus!
