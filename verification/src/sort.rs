//! Sorting rows by a column.
//!
//! Two keys compare as numbers where both are numbers, and byte by byte otherwise, so `10` comes
//! behind `9`. Rows whose keys are equal stay in the order of the source.
use std::cmp::Ordering;
use vstd::prelude::*;
use crate::number::number_place;
use crate::text::trimmed_field;

verus! {

/// Which end of a column comes first.
#[derive(Clone, Copy, Debug, PartialEq, Eq, Structural)]
pub enum Direction {
    /// Smallest first.
    Ascending,
    /// Largest first.
    Descending,
}

impl Default for Direction {
    fn default() -> (r: Direction)
        ensures
            r == Direction::Ascending,
    {
        Direction::Ascending
    }
}

/// Where a field stands among the numbers; nothing for a field that is no number, and `Some(None)`
/// for the undefined number.
pub open spec fn number_of(field: Seq<u8>) -> Option<Option<int>> {
    match crate::text::field_text(field) {
        Some(text) => match crate::number::numeral(text) {
            Some(number) => Some(crate::number::place(number)),
            None => None,
        },
        None => None,
    }
}

/// Whether bytes come before others in the order of a dictionary.
pub open spec fn bytes_below(a: Seq<u8>, b: Seq<u8>) -> bool
    decreases a.len(),
{
    if b.len() == 0 {
        false
    } else if a.len() == 0 {
        true
    } else if a[0] != b[0] {
        a[0] < b[0]
    } else {
        bytes_below(a.drop_first(), b.drop_first())
    }
}

/// Whether a key is smaller than another.
pub open spec fn key_below(a: Seq<u8>, b: Seq<u8>) -> bool {
    match (number_of(a), number_of(b)) {
        (Some(x), Some(y)) => x is Some && y is Some && x->0 < y->0,
        _ => bytes_below(a, b),
    }
}

/// Whether a key comes before another in the given direction.
pub open spec fn comes_before(a: Seq<u8>, b: Seq<u8>, direction: Direction) -> bool {
    match direction {
        Direction::Ascending => key_below(a, b),
        Direction::Descending => key_below(b, a),
    }
}

/// Of two keys, at most one comes before the other.
pub proof fn keys_are_asymmetric(a: Seq<u8>, b: Seq<u8>, direction: Direction)
    ensures
        comes_before(a, b, direction) ==> !comes_before(b, a, direction),
{
    lemma_bytes_asymmetric(a, b);
    lemma_bytes_asymmetric(b, a);
}

/// Turning the direction round turns every comparison round.
pub proof fn descending_is_ascending_reversed(a: Seq<u8>, b: Seq<u8>)
    ensures
        comes_before(a, b, Direction::Descending) == comes_before(b, a, Direction::Ascending),
{
}

pub proof fn lemma_bytes_asymmetric(a: Seq<u8>, b: Seq<u8>)
    ensures
        bytes_below(a, b) ==> !bytes_below(b, a),
    decreases a.len(),
{
    if a.len() > 0 && b.len() > 0 && a[0] == b[0] {
        lemma_bytes_asymmetric(a.drop_first(), b.drop_first());
    }
}

/// What does not come before a second text, which does not come before a third one, does not come
/// before the third one either.
pub proof fn lemma_bytes_ordered(a: Seq<u8>, b: Seq<u8>, c: Seq<u8>)
    ensures
        !bytes_below(a, b) && !bytes_below(b, c) ==> !bytes_below(a, c),
    decreases a.len(),
{
    if a.len() > 0 && b.len() > 0 && c.len() > 0 && a[0] == b[0] && b[0] == c[0] {
        lemma_bytes_ordered(a.drop_first(), b.drop_first(), c.drop_first());
    }
}

/// Whether a field writes the finite number `n / d`, with white space around it or not.
pub open spec fn writes(field: Seq<u8>, n: int, d: int) -> bool {
    &&& crate::text::field_text(field) matches Some(text)
    &&& crate::number::numeral(text) matches Some(number)
    &&& crate::number::is_fraction(number, n, d)
}

/// Numbers come in their order: of two fields that write numbers, the one with the larger number
/// does not come first when ascending, and where the binary64 numbers nearest to them differ, the
/// one with the smaller number comes first. Fields that write the same number are level.
pub proof fn numbers_come_in_their_order(a: Seq<u8>, b: Seq<u8>, n: int, d: int, m: int, e: int)
    requires
        writes(a, n, d),
        writes(b, m, e),
    ensures
        n * e <= m * d ==> !comes_before(b, a, Direction::Ascending) && !comes_before(
            a,
            b,
            Direction::Descending,
        ),
        n * e <= m * d && !(exists|k: int|
            crate::number::is_nearest(n, d, k) && crate::number::is_nearest(m, e, k))
            ==> comes_before(a, b, Direction::Ascending) && comes_before(
            b,
            a,
            Direction::Descending,
        ),
        n * e == m * d ==> !comes_before(a, b, Direction::Ascending) && !comes_before(
            b,
            a,
            Direction::Descending,
        ),
{
    let s = crate::text::field_text(a)->0;
    let t = crate::text::field_text(b)->0;
    crate::number::finite_numbers_stand_at_the_nearest(s, n, d);
    crate::number::finite_numbers_stand_at_the_nearest(t, m, e);
    let j = crate::number::place(crate::number::numeral(s)->0)->0;
    let k = crate::number::place(crate::number::numeral(t)->0)->0;
    if n * e <= m * d {
        crate::number::rounding_keeps_order(n, d, m, e, j, k);
    }
    if n * e == m * d {
        crate::number::rounding_keeps_order(m, e, n, d, k, j);
    }
}

/// Whole numbers up to two to the power of 53 come in their exact order, below zero as above it.
pub proof fn whole_numbers_come_in_their_order(a: Seq<u8>, b: Seq<u8>, m: int, n: int)
    requires
        writes(a, m, 1),
        writes(b, n, 1),
        -0x20_0000_0000_0000 <= m <= 0x20_0000_0000_0000,
        -0x20_0000_0000_0000 <= n <= 0x20_0000_0000_0000,
    ensures
        comes_before(a, b, Direction::Ascending) <==> m < n,
        comes_before(a, b, Direction::Descending) <==> n < m,
{
    let s = crate::text::field_text(a)->0;
    let t = crate::text::field_text(b)->0;
    crate::number::finite_numbers_stand_at_the_nearest(s, m, 1);
    crate::number::finite_numbers_stand_at_the_nearest(t, n, 1);
    let j = crate::number::place(crate::number::numeral(s)->0)->0;
    let k = crate::number::place(crate::number::numeral(t)->0)->0;
    if m < n {
        crate::number::whole_numbers_stand_apart(m, n, j, k);
    } else if n < m {
        crate::number::whole_numbers_stand_apart(n, m, k, j);
    } else {
        crate::number::rounding_keeps_order(m, 1, n, 1, j, k);
        crate::number::rounding_keeps_order(n, 1, m, 1, k, j);
    }
}

/// A number below zero comes before every number above zero, unless both are so small that the
/// nearest binary64 number is zero.
pub proof fn negative_numbers_come_first(a: Seq<u8>, b: Seq<u8>, n: int, d: int, m: int, e: int)
    requires
        writes(a, n, d),
        writes(b, m, e),
        n < 0 < m,
        !(crate::number::is_nearest(n, d, 0) && crate::number::is_nearest(m, e, 0)),
    ensures
        comes_before(a, b, Direction::Ascending),
        comes_before(b, a, Direction::Descending),
{
    assert(n * e <= m * d) by (nonlinear_arith)
        requires
            n < 0 < m,
            d > 0,
            e > 0,
    ;
    assert forall|k: int| crate::number::is_nearest(n, d, k) && crate::number::is_nearest(
        m,
        e,
        k,
    ) implies false by {
        assert(-k >= 0 && k >= 0);
    }
    numbers_come_in_their_order(a, b, n, d, m, e);
}

/// Infinity comes behind every finite number and its negation before, where they are not the
/// nearest; the undefined number is level with every number.
pub proof fn endless_numbers_come_at_the_ends(a: Seq<u8>, b: Seq<u8>, n: int, d: int)
    requires
        writes(a, n, d),
        crate::text::field_text(b) is Some,
    ensures
        crate::number::numeral(crate::text::field_text(b)->0) == Some(
            crate::number::Numeral::Infinite { negative: false },
        ) ==> !comes_before(b, a, Direction::Ascending) && (comes_before(
            a,
            b,
            Direction::Ascending,
        ) <==> !crate::number::is_nearest(n, d, 0x7ff0_0000_0000_0000)),
        crate::number::numeral(crate::text::field_text(b)->0) == Some(
            crate::number::Numeral::Infinite { negative: true },
        ) ==> !comes_before(a, b, Direction::Ascending) && (comes_before(
            b,
            a,
            Direction::Ascending,
        ) <==> !crate::number::is_nearest(n, d, -0x7ff0_0000_0000_0000)),
        crate::number::numeral(crate::text::field_text(b)->0) == Some(
            crate::number::Numeral::Undefined,
        ) ==> !comes_before(a, b, Direction::Ascending) && !comes_before(
            b,
            a,
            Direction::Ascending,
        ),
{
    let s = crate::text::field_text(a)->0;
    crate::number::finite_numbers_stand_at_the_nearest(s, n, d);
    let k = crate::number::place(crate::number::numeral(s)->0)->0;
    let end = 0x7ff0_0000_0000_0000int;
    if crate::number::is_nearest(n, d, end) {
        crate::number::rounding_keeps_order(n, d, n, d, k, end);
        crate::number::rounding_keeps_order(n, d, n, d, end, k);
    }
    if crate::number::is_nearest(n, d, -end) {
        crate::number::rounding_keeps_order(n, d, n, d, k, -end);
        crate::number::rounding_keeps_order(n, d, n, d, -end, k);
    }
}

/// Fields that are not both numbers come in the order of a dictionary: the first byte in which they
/// differ decides, and of a field and a longer one that starts with it the shorter one comes first.
pub proof fn other_keys_come_in_dictionary_order(a: Seq<u8>, b: Seq<u8>, k: int)
    requires
        !(crate::text::field_text(a) matches Some(text) && crate::number::numeral(text) is Some)
            || !(crate::text::field_text(b) matches Some(text) && crate::number::numeral(
            text,
        ) is Some),
        0 <= k <= a.len(),
        k <= b.len(),
        forall|j: int| 0 <= j < k ==> a[j] == #[trigger] b[j],
    ensures
        k < a.len() && k < b.len() && a[k] < b[k] ==> comes_before(a, b, Direction::Ascending)
            && !comes_before(b, a, Direction::Ascending) && comes_before(
            b,
            a,
            Direction::Descending,
        ),
        k == a.len() && k < b.len() ==> comes_before(a, b, Direction::Ascending) && !comes_before(
            b,
            a,
            Direction::Ascending,
        ),
        k == a.len() && k == b.len() ==> !comes_before(a, b, Direction::Ascending)
            && !comes_before(a, b, Direction::Descending),
{
    lemma_first_difference(a, b, k);
    lemma_first_difference(b, a, k);
}

proof fn lemma_first_difference(a: Seq<u8>, b: Seq<u8>, k: int)
    requires
        0 <= k <= a.len(),
        k <= b.len(),
        forall|j: int| 0 <= j < k ==> a[j] == #[trigger] b[j],
    ensures
        k == a.len() ==> bytes_below(a, b) == (k < b.len()),
        k == b.len() ==> !bytes_below(a, b),
        k < a.len() && k < b.len() && a[k] != b[k] ==> bytes_below(a, b) == (a[k] < b[k]),
    decreases k,
{
    if k > 0 {
        assert(a[0] == b[0]);
        let x = a.drop_first();
        let y = b.drop_first();
        assert forall|j: int| 0 <= j < k - 1 implies x[j] == #[trigger] y[j] by {
            assert(y[j] == b[j + 1]);
        }
        lemma_first_difference(x, y, k - 1);
    }
}

/// A key, read once for many comparisons.
pub struct Key {
    bytes: Vec<u8>,
    number: Option<Option<i64>>,
}

impl View for Key {
    type V = Seq<u8>;

    closed spec fn view(&self) -> Seq<u8> {
        self.bytes@
    }
}

impl Key {
    /// Whether the number belongs to the bytes.
    pub closed spec fn wf(&self) -> bool {
        match self.number {
            None => number_of(self.bytes@) is None,
            Some(None) => number_of(self.bytes@) == Some(None::<int>),
            Some(Some(k)) => number_of(self.bytes@) == Some(Some(k as int)),
        }
    }

    /// Reads a key.
    pub fn new(bytes: Vec<u8>) -> (key: Key)
        ensures
            key.wf(),
            key@ == bytes@,
    {
        let number = match trimmed_field(bytes.as_slice()) {
            Some(text) => number_place(text.as_slice()),
            None => None,
        };
        Key { bytes, number }
    }

    /// Whether this key is smaller than another.
    pub fn below(&self, other: &Key) -> (r: bool)
        requires
            self.wf(),
            other.wf(),
        ensures
            r == key_below(self@, other@),
    {
        match (self.number, other.number) {
            (Some(Some(x)), Some(Some(y))) => x < y,
            (Some(_), Some(_)) => false,
            _ => below(self.bytes.as_slice(), other.bytes.as_slice()),
        }
    }

    /// Whether this key comes before another.
    pub fn before(&self, other: &Key, direction: Direction) -> (r: bool)
        requires
            self.wf(),
            other.wf(),
        ensures
            r == comes_before(self@, other@, direction),
    {
        match direction {
            Direction::Ascending => self.below(other),
            Direction::Descending => other.below(self),
        }
    }
}

/// Whether bytes come before others in the order of a dictionary.
pub(crate) fn below(a: &[u8], b: &[u8]) -> (r: bool)
    ensures
        r == bytes_below(a@, b@),
{
    let mut i: usize = 0;
    assert(a@.skip(0) =~= a@);
    assert(b@.skip(0) =~= b@);
    while i < a.len() && i < b.len() && a[i] == b[i]
        invariant
            i <= a.len(),
            i <= b.len(),
            bytes_below(a@, b@) == bytes_below(a@.skip(i as int), b@.skip(i as int)),
        decreases a.len() - i,
    {
        proof {
            let x = a@.skip(i as int);
            let y = b@.skip(i as int);
            assert(x[0] == a@[i as int] && y[0] == b@[i as int]);
            assert(x.drop_first() =~= a@.skip(i + 1));
            assert(y.drop_first() =~= b@.skip(i + 1));
        }
        i += 1;
    }
    if i == b.len() {
        false
    } else if i == a.len() {
        true
    } else {
        assert(a@.skip(i as int)[0] == a@[i as int]);
        assert(b@.skip(i as int)[0] == b@[i as int]);
        a[i] < b[i]
    }
}

/// Compares two key fields.
pub fn compare_keys(a: &[u8], b: &[u8], direction: Direction) -> (order: Ordering)
    ensures
        order is Less <==> comes_before(a@, b@, direction),
        order is Greater <==> comes_before(b@, a@, direction),
{
    let x = Key::new(vstd::slice::slice_to_vec(a));
    let y = Key::new(vstd::slice::slice_to_vec(b));
    proof {
        keys_are_asymmetric(a@, b@, direction);
    }
    if x.before(&y, direction) {
        Ordering::Less
    } else if y.before(&x, direction) {
        Ordering::Greater
    } else {
        Ordering::Equal
    }
}

/// The contents of keys.
pub open spec fn key_bytes(keys: Seq<Key>) -> Seq<Seq<u8>> {
    keys.map_values(|k: Key| k@)
}

/// Whether the comparison orders the keys: what does not come before a second key, which does not
/// come before a third one, does not come before the third one either. Keys that mix numbers with
/// other text need not be ordered in this sense.
pub open spec fn ordered(keys: Seq<Seq<u8>>, direction: Direction) -> bool {
    forall|a: int, b: int, c: int|
        #![trigger comes_before(keys[b], keys[a], direction), comes_before(keys[c], keys[b], direction)]
        0 <= a < keys.len() && 0 <= b < keys.len() && 0 <= c < keys.len() && !comes_before(
            keys[b],
            keys[a],
            direction,
        ) && !comes_before(keys[c], keys[b], direction) ==> !comes_before(
            keys[c],
            keys[a],
            direction,
        )
}

/// Whether the key at one position may stand before the key at another: it does not come behind
/// it, and of equal keys the one that was first stays first.
pub open spec fn in_order(keys: Seq<Seq<u8>>, direction: Direction, x: usize, y: usize) -> bool {
    &&& !comes_before(keys[y as int], keys[x as int], direction)
    &&& comes_before(keys[x as int], keys[y as int], direction) || x < y
}

/// The positions from `lo` to `hi`.
pub open spec fn positions(lo: int, hi: int) -> Seq<usize> {
    Seq::new((hi - lo) as nat, |i: int| (lo + i) as usize)
}

/// Whether a list of positions is in order.
pub open spec fn is_sorted(keys: Seq<Seq<u8>>, direction: Direction, list: Seq<usize>) -> bool {
    forall|i: int, j: int|
        0 <= i < j < list.len() ==> in_order(
            keys,
            direction,
            #[trigger] list[i],
            #[trigger] list[j],
        )
}

spec fn within(list: Seq<usize>, lo: int, hi: int) -> bool {
    forall|i: int| 0 <= i < list.len() ==> lo <= #[trigger] list[i] < hi
}

proof fn lemma_multiset_push(a: Seq<usize>, x: usize)
    ensures
        a.push(x).to_multiset() == a.to_multiset().insert(x),
{
    broadcast use vstd::seq_lib::group_to_multiset_ensures;

    assert(a.push(x).to_multiset() =~= a.to_multiset().insert(x));
}

/// Merges two lists that are in order.
fn merge(
    keys: &Vec<Key>,
    direction: Direction,
    left: &Vec<usize>,
    right: &Vec<usize>,
    Ghost(lo): Ghost<int>,
    Ghost(mid): Ghost<int>,
    Ghost(hi): Ghost<int>,
) -> (out: Vec<usize>)
    requires
        forall|i: int| 0 <= i < keys@.len() ==> (#[trigger] keys@[i]).wf(),
        0 <= lo <= mid <= hi <= keys@.len(),
        within(left@, lo, mid),
        within(right@, mid, hi),
        left@.len() + right@.len() <= usize::MAX,
    ensures
        out@.to_multiset() == left@.to_multiset().add(right@.to_multiset()),
        within(out@, lo, hi),
        out@.len() == left@.len() + right@.len(),
        ordered(key_bytes(keys@), direction) && is_sorted(key_bytes(keys@), direction, left@)
            && is_sorted(key_bytes(keys@), direction, right@) ==> is_sorted(
            key_bytes(keys@),
            direction,
            out@,
        ),
{
    let ghost ks = key_bytes(keys@);
    let ghost sorted = ordered(ks, direction) && is_sorted(ks, direction, left@) && is_sorted(
        ks,
        direction,
        right@,
    );
    let mut out: Vec<usize> = Vec::new();
    let mut i: usize = 0;
    let mut j: usize = 0;
    proof {
        assert(left@.take(0) =~= Seq::empty());
        assert(right@.take(0) =~= Seq::empty());
        assert(out@.to_multiset() =~= left@.take(0).to_multiset().add(right@.take(0).to_multiset()))
            by {
            broadcast use vstd::seq_lib::group_to_multiset_ensures;

        }
    }
    while i < left.len() || j < right.len()
        invariant
            ks == key_bytes(keys@),
            sorted == (ordered(ks, direction) && is_sorted(ks, direction, left@) && is_sorted(
                ks,
                direction,
                right@,
            )),
            forall|i: int| 0 <= i < keys@.len() ==> (#[trigger] keys@[i]).wf(),
            0 <= lo <= mid <= hi <= keys@.len(),
            within(left@, lo, mid),
            within(right@, mid, hi),
            left@.len() + right@.len() <= usize::MAX,
            i <= left.len(),
            j <= right.len(),
            out@.len() == i + j,
            within(out@, lo, hi),
            out@.to_multiset() == left@.take(i as int).to_multiset().add(
                right@.take(j as int).to_multiset(),
            ),
            sorted ==> is_sorted(ks, direction, out@),
            sorted ==> forall|a: int, b: int|
                0 <= a < out@.len() && i <= b < left@.len() ==> in_order(
                    ks,
                    direction,
                    #[trigger] out@[a],
                    #[trigger] left@[b],
                ),
            sorted ==> forall|a: int, b: int|
                0 <= a < out@.len() && j <= b < right@.len() ==> in_order(
                    ks,
                    direction,
                    #[trigger] out@[a],
                    #[trigger] right@[b],
                ),
        decreases left.len() - i + right.len() - j,
    {
        let take_right = if i == left.len() {
            true
        } else if j == right.len() {
            false
        } else {
            assert(ks[right@[j as int] as int] == keys@[right@[j as int] as int]@);
            assert(ks[left@[i as int] as int] == keys@[left@[i as int] as int]@);
            keys[right[j]].before(&keys[left[i]], direction)
        };
        let next: usize = if take_right {
            right[j]
        } else {
            left[i]
        };
        proof {
            lemma_multiset_push(out@, next);
            if take_right {
                lemma_multiset_push(right@.take(j as int), next);
                assert(right@.take(j + 1) =~= right@.take(j as int).push(next));
                assert(out@.push(next).to_multiset() =~= left@.take(i as int).to_multiset().add(
                    right@.take(j + 1).to_multiset(),
                ));
            } else {
                lemma_multiset_push(left@.take(i as int), next);
                assert(left@.take(i + 1) =~= left@.take(i as int).push(next));
                assert(out@.push(next).to_multiset() =~= left@.take(i + 1).to_multiset().add(
                    right@.take(j as int).to_multiset(),
                ));
            }
            if sorted {
                if take_right {
                    assert forall|b: int| i <= b < left@.len() implies in_order(
                        ks,
                        direction,
                        next,
                        #[trigger] left@[b],
                    ) by {
                        let r = ks[next as int];
                        let l = ks[left@[i as int] as int];
                        let x = ks[left@[b] as int];
                        keys_are_asymmetric(r, l, direction);
                        keys_are_asymmetric(x, x, direction);
                        if b > i {
                            assert(in_order(ks, direction, left@[i as int], left@[b]));
                        }
                        assert(!comes_before(l, r, direction));
                        assert(!comes_before(x, l, direction));
                        assert(!comes_before(x, r, direction));
                        if !comes_before(r, x, direction) {
                            assert(!comes_before(r, l, direction));
                        }
                    }
                    assert forall|b: int| j < b < right@.len() implies in_order(
                        ks,
                        direction,
                        next,
                        #[trigger] right@[b],
                    ) by {
                        assert(in_order(ks, direction, right@[j as int], right@[b]));
                    }
                } else {
                    assert forall|b: int| j <= b < right@.len() implies in_order(
                        ks,
                        direction,
                        next,
                        #[trigger] right@[b],
                    ) by {
                        let l = ks[next as int];
                        let r = ks[right@[j as int] as int];
                        let y = ks[right@[b] as int];
                        keys_are_asymmetric(y, y, direction);
                        if b > j {
                            assert(in_order(ks, direction, right@[j as int], right@[b]));
                        }
                        assert(!comes_before(r, l, direction));
                        assert(!comes_before(y, r, direction));
                        assert(!comes_before(y, l, direction));
                    }
                    assert forall|b: int| i < b < left@.len() implies in_order(
                        ks,
                        direction,
                        next,
                        #[trigger] left@[b],
                    ) by {
                        assert(in_order(ks, direction, left@[i as int], left@[b]));
                    }
                }
                assert forall|a: int, b: int| 0 <= a < b < out@.push(next).len() implies in_order(
                    ks,
                    direction,
                    #[trigger] out@.push(next)[a],
                    #[trigger] out@.push(next)[b],
                ) by {
                    if b < out@.len() {
                        assert(in_order(ks, direction, out@[a], out@[b]));
                    } else if take_right {
                        assert(in_order(ks, direction, out@[a], right@[j as int]));
                    } else {
                        assert(in_order(ks, direction, out@[a], left@[i as int]));
                    }
                }
            }
        }
        out.push(next);
        if take_right {
            j += 1;
        } else {
            i += 1;
        }
    }
    proof {
        assert(left@.take(left@.len() as int) =~= left@);
        assert(right@.take(right@.len() as int) =~= right@);
    }
    out
}

/// The positions from `lo` to `hi`, in the order of their keys.
fn sort_range(keys: &Vec<Key>, direction: Direction, lo: usize, hi: usize) -> (out: Vec<usize>)
    requires
        forall|i: int| 0 <= i < keys@.len() ==> (#[trigger] keys@[i]).wf(),
        lo <= hi <= keys@.len(),
    ensures
        out@.to_multiset() == positions(lo as int, hi as int).to_multiset(),
        within(out@, lo as int, hi as int),
        out@.len() == hi - lo,
        ordered(key_bytes(keys@), direction) ==> is_sorted(key_bytes(keys@), direction, out@),
    decreases hi - lo,
{
    if hi - lo <= 1 {
        let mut out: Vec<usize> = Vec::new();
        if hi > lo {
            out.push(lo);
        }
        assert(out@ =~= positions(lo as int, hi as int));
        return out;
    }
    let mid: usize = lo + (hi - lo) / 2;
    let left = sort_range(keys, direction, lo, mid);
    let right = sort_range(keys, direction, mid, hi);
    let out = merge(
        keys,
        direction,
        &left,
        &right,
        Ghost(lo as int),
        Ghost(mid as int),
        Ghost(hi as int),
    );
    proof {
        let a = positions(lo as int, mid as int);
        let b = positions(mid as int, hi as int);
        assert(positions(lo as int, hi as int) =~= a + b);
        vstd::seq_lib::lemma_multiset_commutative(a, b);
    }
    out
}

/// The positions of the keys in the order of the keys: a permutation of all positions, and in
/// order where the comparison orders the keys.
pub fn sorted_positions(keys: &Vec<Key>, direction: Direction) -> (out: Vec<usize>)
    requires
        forall|i: int| 0 <= i < keys@.len() ==> (#[trigger] keys@[i]).wf(),
    ensures
        out@.to_multiset() == positions(0, keys@.len() as int).to_multiset(),
        out@.len() == keys@.len(),
        forall|i: int| 0 <= i < out@.len() ==> #[trigger] out@[i] < keys@.len(),
        ordered(key_bytes(keys@), direction) ==> is_sorted(key_bytes(keys@), direction, out@),
{
    sort_range(keys, direction, 0, keys.len())
}

/// Keys that are all numbers, and none of them the undefined one, are ordered by the comparison.
pub proof fn numbers_are_ordered(keys: Seq<Seq<u8>>, direction: Direction)
    requires
        forall|i: int|
            0 <= i < keys.len() ==> (crate::text::field_text(#[trigger] keys[i]) matches Some(text)
                && (crate::number::numeral(text) matches Some(number) && !(number is Undefined))),
    ensures
        ordered(keys, direction),
{
    assert forall|i: int| 0 <= i < keys.len() implies (number_of(#[trigger] keys[i]) matches Some(
        place,
    ) && place is Some) by {}
}

/// Keys none of which is a number are ordered by the comparison.
pub proof fn texts_are_ordered(keys: Seq<Seq<u8>>, direction: Direction)
    requires
        forall|i: int|
            0 <= i < keys.len() ==> !(crate::text::field_text(#[trigger] keys[i]) matches Some(text)
                && crate::number::numeral(text) is Some),
    ensures
        ordered(keys, direction),
{
    assert forall|a: int, b: int, c: int|
        0 <= a < keys.len() && 0 <= b < keys.len() && 0 <= c < keys.len() && !(
        #[trigger] comes_before(keys[b], keys[a], direction)) && !(#[trigger] comes_before(
            keys[c],
            keys[b],
            direction,
        )) implies !comes_before(keys[c], keys[a], direction) by {
        lemma_bytes_ordered(keys[c], keys[b], keys[a]);
        lemma_bytes_ordered(keys[a], keys[b], keys[c]);
    }
}

} // verus!
