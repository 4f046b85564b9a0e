//! A bounded top list of `(key, count)` pairs, kept by linear sifting.
//!
//! A reducer holds at most [`CAPACITY`] entries, ordered by decreasing
//! count.  Inserting a key that is already present takes it out and sifts
//! it in again with the counts added; a new key goes in before the first
//! entry with a smaller count, dropping the last entry when the list grows
//! past the capacity, or is appended when there is room.

use crate::ranker::my_hashmap::{count_of, lemma_key_at};
use vstd::prelude::*;

verus! {

/// The number of entries a top list keeps.
pub const CAPACITY: usize = 100;

/// A `(key, count)` pair as the contracts see it.
pub type Entry = (Seq<char>, u64);

/// The abstract form of a vector of `(String, u64)` pairs.
pub open spec fn pairs_view(v: Seq<(String, u64)>) -> Seq<Entry> {
    v.map_values(|p: (String, u64)| (p.0@, p.1))
}

/// No key occurs twice.
pub open spec fn keys_distinct(s: Seq<Entry>) -> bool {
    forall|i: int, j: int| 0 <= i < s.len() && 0 <= j < s.len() && i != j ==> s[i].0 != s[j].0
}

/// `k` is one of the keys.
pub open spec fn has_key(s: Seq<Entry>, k: Seq<char>) -> bool {
    exists|i: int| 0 <= i < s.len() && s[i].0 == k
}

/// The position of key `k` (meaningful when `has_key(s, k)`).
pub open spec fn key_index(s: Seq<Entry>, k: Seq<char>) -> int {
    choose|i: int| 0 <= i < s.len() && s[i].0 == k
}

/// Some entry has a count smaller than `v`.
pub open spec fn has_smaller(s: Seq<Entry>, v: u64) -> bool {
    exists|i: int| 0 <= i < s.len() && s[i].1 < v
}

/// `i` is the first position whose count is smaller than `v`.
pub open spec fn is_first_smaller(s: Seq<Entry>, v: u64, i: int) -> bool {
    &&& 0 <= i < s.len()
    &&& s[i].1 < v
    &&& forall|j: int| 0 <= j < i ==> s[j].1 >= v
}

/// The first position whose count is smaller than `v` (meaningful when
/// `has_smaller(s, v)`).
pub open spec fn first_smaller(s: Seq<Entry>, v: u64) -> int {
    choose|i: int| is_first_smaller(s, v, i)
}

/// What the top list holds: at most `CAPACITY` entries, no key twice.
pub open spec fn top_list_inv(s: Seq<Entry>) -> bool {
    &&& s.len() <= CAPACITY
    &&& keys_distinct(s)
}

/// Adding `v` to the count of `k` does not overflow.
pub open spec fn insert_fits(s: Seq<Entry>, k: Seq<char>, v: u64) -> bool {
    has_key(s, k) ==> s[key_index(s, k)].1 + v <= u64::MAX
}

/// The top list after sifting in a key that it does not hold: before the
/// first smaller count (the last entry dropping out past the capacity), or
/// at the end while there is room.
pub open spec fn sift_new(s: Seq<Entry>, k: Seq<char>, v: u64) -> Seq<Entry> {
    if has_smaller(s, v) {
        let t = s.insert(first_smaller(s, v), (k, v));
        if t.len() > CAPACITY {
            t.drop_last()
        } else {
            t
        }
    } else if s.len() < CAPACITY {
        s.push((k, v))
    } else {
        s
    }
}

/// The top list after inserting `(k, v)` into `s`: a key already present is
/// taken out and sifted in again with the two counts added.
pub open spec fn sift_insert(s: Seq<Entry>, k: Seq<char>, v: u64) -> Seq<Entry> {
    if has_key(s, k) {
        let i = key_index(s, k);
        sift_new(s.remove(i), k, (s[i].1 + v) as u64)
    } else {
        sift_new(s, k, v)
    }
}

/// Counts never increase along the list.
pub open spec fn sorted_desc(s: Seq<Entry>) -> bool {
    forall|i: int, j: int| 0 <= i <= j < s.len() ==> s[i].1 >= s[j].1
}

/// Where key `k` stands in `v`, if anywhere.
fn find_key(v: &Vec<(String, u64)>, k: &String) -> (r: Option<usize>)
    requires
        keys_distinct(pairs_view(v@)),
    ensures
        match r {
            Some(i) => i < v@.len() && has_key(pairs_view(v@), k@) && key_index(pairs_view(v@), k@)
                == i && pairs_view(v@)[i as int].0 == k@,
            None => !has_key(pairs_view(v@), k@),
        },
{
    let ghost s = pairs_view(v@);
    let n = v.len();
    let mut i: usize = 0;
    while i < n
        invariant
            n == v@.len(),
            s == pairs_view(v@),
            keys_distinct(s),
            0 <= i <= n,
            forall|j: int| 0 <= j < i ==> s[j].0 != k@,
        decreases n - i,
    {
        assert(s[i as int] == (v@[i as int].0@, v@[i as int].1));
        if v[i].0 == *k {
            assert(s[i as int].0 == k@);
            assert(key_index(s, k@) == i as int);
            return Some(i);
        }
        i += 1;
    }
    None
}

/// Sifts a key that the list does not hold into it.
fn sift_new_into(vec: &mut Vec<(String, u64)>, elem: (String, u64))
    requires
        !has_key(pairs_view(old(vec)@), elem.0@),
    ensures
        pairs_view(final(vec)@) == sift_new(pairs_view(old(vec)@), elem.0@, elem.1),
{
    let ghost s0 = pairs_view(vec@);
    let ghost k = elem.0@;
    let ghost v = elem.1;
    let n = vec.len();
    let mut j: usize = 0;
    while j < n
        invariant
            n == vec@.len(),
            pairs_view(vec@) == s0,
            s0 == pairs_view(old(vec)@),
            k == elem.0@,
            v == elem.1,
            0 <= j <= n,
            forall|m: int| 0 <= m < j ==> s0[m].1 >= v,
        decreases n - j,
    {
        assert(s0[j as int] == (vec@[j as int].0@, vec@[j as int].1));
        if vec[j].1 < elem.1 {
            proof {
                assert(is_first_smaller(s0, v, j as int));
                let c = first_smaller(s0, v);
                assert(is_first_smaller(s0, v, c));
                if c < j {
                    assert(s0[c].1 >= v);
                }
                if c > j {
                    assert(s0[j as int].1 >= v);
                }
                assert(c == j as int);
            }
            vec.insert(j, elem);
            let ghost t = s0.insert(j as int, (k, v));
            assert forall|m: int| 0 <= m < t.len() implies #[trigger] pairs_view(vec@)[m] == t[m] by {
                if m < j {
                    assert(pairs_view(vec@)[m] == s0[m]);
                } else if m > j {
                    assert(pairs_view(vec@)[m] == s0[m - 1]);
                }
            }
            assert(pairs_view(vec@) =~= t);
            if vec.len() > CAPACITY {
                vec.pop();
                assert(pairs_view(vec@) =~= t.drop_last());
            }
            return;
        }
        j += 1;
    }
    assert(!has_smaller(s0, v));
    if vec.len() < CAPACITY {
        vec.push(elem);
        assert(pairs_view(vec@) =~= s0.push((k, v)));
    }
}

/// A top list of at most [`CAPACITY`] distinct keys with their counts.
pub struct MyVec {
    vec: Vec<(String, u64)>,
}

impl View for MyVec {
    type V = Seq<Entry>;

    closed spec fn view(&self) -> Seq<Entry> {
        pairs_view(self.vec@)
    }
}

impl MyVec {
    #[verifier::type_invariant]
    closed spec fn wf(self) -> bool {
        top_list_inv(pairs_view(self.vec@))
    }

    /// An empty top list.
    pub fn new() -> (r: Self)
        ensures
            r@ == Seq::<Entry>::empty(),
    {
        let r = MyVec { vec: Vec::new() };
        assert(pairs_view(r.vec@) =~= Seq::<Entry>::empty());
        r
    }

    /// Whether inserting `elem` would not overflow a count.
    pub fn fits(&self, elem: &(String, u64)) -> (r: bool)
        ensures
            r == insert_fits(self@, elem.0@, elem.1),
            top_list_inv(self@),
    {
        proof {
            use_type_invariant(self);
        }
        match find_key(&self.vec, &elem.0) {
            Some(i) => elem.1 <= u64::MAX - self.vec[i].1,
            None => true,
        }
    }

    /// Inserts a pair: a key already present is taken out and sifted in again
    /// with the counts added; a new key is sifted in before the first smaller
    /// count (dropping the last entry past the capacity), or appended while
    /// there is room.
    pub fn insert(&mut self, elem: (String, u64))
        requires
            insert_fits(old(self)@, elem.0@, elem.1),
        ensures
            final(self)@ == sift_insert(old(self)@, elem.0@, elem.1),
            top_list_inv(old(self)@),
            top_list_inv(final(self)@),
    {
        proof {
            use_type_invariant(&*self);
        }
        let ghost s0 = self@;
        let mut vec: Vec<(String, u64)> = Vec::new();
        std::mem::swap(&mut vec, &mut self.vec);
        assert(pairs_view(vec@) == s0);
        proof {
            lemma_sift_insert_keeps_inv(s0, elem.0@, elem.1);
        }
        match find_key(&vec, &elem.0) {
            Some(i) => {
                let old = vec.remove(i);
                proof {
                    assert(pairs_view(vec@) =~= s0.remove(i as int));
                    lemma_remove_keeps_inv(s0, i as int);
                }
                let count = old.1 + elem.1;
                sift_new_into(&mut vec, (elem.0, count));
            },
            None => {
                sift_new_into(&mut vec, elem);
            },
        }
        self.vec = vec;
    }

    /// The pairs of the top list, in order.
    pub fn unpack(self) -> (r: Vec<(String, u64)>)
        ensures
            pairs_view(r@) == self@,
            top_list_inv(pairs_view(r@)),
    {
        proof {
            use_type_invariant(&self);
        }
        self.vec
    }
}


/// When some count is smaller than `v`, a first such position exists.
pub proof fn lemma_first_smaller(s: Seq<Entry>, v: u64)
    requires
        has_smaller(s, v),
    ensures
        is_first_smaller(s, v, first_smaller(s, v)),
{
    let i = choose|i: int| 0 <= i < s.len() && s[i].1 < v;
    lemma_first_smaller_below(s, v, i);
}

proof fn lemma_first_smaller_below(s: Seq<Entry>, v: u64, i: int)
    requires
        0 <= i < s.len(),
        s[i].1 < v,
    ensures
        exists|m: int| is_first_smaller(s, v, m),
    decreases i,
{
    if forall|j: int| 0 <= j < i ==> s[j].1 >= v {
        assert(is_first_smaller(s, v, i));
    } else {
        let j = choose|j: int| 0 <= j < i && !(s[j].1 >= v);
        lemma_first_smaller_below(s, v, j);
    }
}

/// Taking an entry out keeps a top list a top list, and its key is gone.
pub proof fn lemma_remove_keeps_inv(s: Seq<Entry>, i: int)
    requires
        top_list_inv(s),
        0 <= i < s.len(),
    ensures
        top_list_inv(s.remove(i)),
        !has_key(s.remove(i), s[i].0),
        s.remove(i).len() < CAPACITY,
        sorted_desc(s) ==> sorted_desc(s.remove(i)),
        forall|m: int|
            0 <= m < s.remove(i).len() ==> #[trigger] s.remove(i)[m] == (if m < i {
                s[m]
            } else {
                s[m + 1]
            }),
{
    let r = s.remove(i);
    assert forall|m: int| 0 <= m < r.len() implies #[trigger] r[m] == (if m < i {
        s[m]
    } else {
        s[m + 1]
    }) by {}
    assert forall|a: int, b: int| 0 <= a < r.len() && 0 <= b < r.len() && a != b implies r[a].0
        != r[b].0 by {
        let a0 = if a < i { a } else { a + 1 };
        let b0 = if b < i { b } else { b + 1 };
        assert(r[a] == s[a0]);
        assert(r[b] == s[b0]);
    }
    if has_key(r, s[i].0) {
        let m = choose|m: int| 0 <= m < r.len() && r[m].0 == s[i].0;
        let m0 = if m < i { m } else { m + 1 };
        assert(r[m] == s[m0]);
    }
    if sorted_desc(s) {
        assert forall|a: int, b: int| 0 <= a <= b < r.len() implies r[a].1 >= r[b].1 by {
            let a0 = if a < i { a } else { a + 1 };
            let b0 = if b < i { b } else { b + 1 };
            assert(r[a] == s[a0]);
            assert(r[b] == s[b0]);
        }
    }
}

/// Sifting in a key that the list does not hold keeps a top list a top list.
pub proof fn lemma_sift_new_keeps_inv(s: Seq<Entry>, k: Seq<char>, v: u64)
    requires
        top_list_inv(s),
        !has_key(s, k),
    ensures
        top_list_inv(sift_new(s, k, v)),
{
    let r = sift_new(s, k, v);
    if has_smaller(s, v) {
        lemma_first_smaller(s, v);
        let i = first_smaller(s, v);
        let t = s.insert(i, (k, v));
        assert forall|a: int, b: int| 0 <= a < t.len() && 0 <= b < t.len() && a != b implies t[a].0
            != t[b].0 by {
            if a != i && b != i {
                let a0 = if a < i { a } else { a - 1 };
                let b0 = if b < i { b } else { b - 1 };
                assert(t[a] == s[a0]);
                assert(t[b] == s[b0]);
            } else if a == i {
                let b0 = if b < i { b } else { b - 1 };
                assert(t[b] == s[b0]);
            } else {
                let a0 = if a < i { a } else { a - 1 };
                assert(t[a] == s[a0]);
            }
        }
        if t.len() > CAPACITY {
            assert forall|a: int, b: int|
                0 <= a < t.drop_last().len() && 0 <= b < t.drop_last().len() && a != b implies t.drop_last()[a].0
                != t.drop_last()[b].0 by {
                assert(t.drop_last()[a] == t[a]);
                assert(t.drop_last()[b] == t[b]);
            }
        }
    } else if s.len() < CAPACITY {
        assert forall|a: int, b: int| 0 <= a < r.len() && 0 <= b < r.len() && a != b implies r[a].0
            != r[b].0 by {
            if a < s.len() && b < s.len() {
                assert(r[a] == s[a]);
                assert(r[b] == s[b]);
            } else if a < s.len() {
                assert(r[a] == s[a]);
            } else {
                assert(r[b] == s[b]);
            }
        }
    }
}

/// Inserting keeps a top list a top list: at most `CAPACITY` entries and
/// no key twice.
pub proof fn lemma_sift_insert_keeps_inv(s: Seq<Entry>, k: Seq<char>, v: u64)
    requires
        top_list_inv(s),
    ensures
        top_list_inv(sift_insert(s, k, v)),
{
    if has_key(s, k) {
        let i = key_index(s, k);
        lemma_remove_keeps_inv(s, i);
        lemma_sift_new_keeps_inv(s.remove(i), k, (s[i].1 + v) as u64);
    } else {
        lemma_sift_new_keeps_inv(s, k, v);
    }
}

/// Sifting in a new key keeps a list ordered by decreasing count ordered.
pub proof fn lemma_sift_new_keeps_order(s: Seq<Entry>, k: Seq<char>, v: u64)
    requires
        sorted_desc(s),
    ensures
        sorted_desc(sift_new(s, k, v)),
{
    if has_smaller(s, v) {
        lemma_first_smaller(s, v);
        let i = first_smaller(s, v);
        let t = s.insert(i, (k, v));
        assert forall|a: int, b: int| 0 <= a <= b < t.len() implies t[a].1 >= t[b].1 by {
            let a0 = if a < i { a } else { a - 1 };
            let b0 = if b < i { b } else { b - 1 };
            if a == i && b == i {
            } else if a == i {
                assert(t[b] == s[b0]);
                assert(s[i].1 < v);
                assert(s[i].1 >= s[b0].1);
            } else if b == i {
                assert(t[a] == s[a0]);
                assert(s[a0].1 >= v);
            } else {
                assert(t[a] == s[a0]);
                assert(t[b] == s[b0]);
            }
        }
        if t.len() > CAPACITY {
            assert forall|a: int, b: int| 0 <= a <= b < t.drop_last().len() implies t.drop_last()[a].1
                >= t.drop_last()[b].1 by {
                assert(t.drop_last()[a] == t[a]);
                assert(t.drop_last()[b] == t[b]);
            }
        }
    } else if s.len() < CAPACITY {
        let r = s.push((k, v));
        assert forall|a: int, b: int| 0 <= a <= b < r.len() implies r[a].1 >= r[b].1 by {
            if b < s.len() {
                assert(r[a] == s[a]);
                assert(r[b] == s[b]);
            } else if a < s.len() {
                assert(r[a] == s[a]);
                assert(!(s[a].1 < v));
            }
        }
    }
}

/// Every insertion keeps a top list ordered by decreasing count: a raised
/// count is sifted in again at its place.
pub proof fn lemma_sift_insert_keeps_order(s: Seq<Entry>, k: Seq<char>, v: u64)
    requires
        top_list_inv(s),
        sorted_desc(s),
    ensures
        sorted_desc(sift_insert(s, k, v)),
{
    if has_key(s, k) {
        let i = key_index(s, k);
        lemma_remove_keeps_inv(s, i);
        lemma_sift_new_keeps_order(s.remove(i), k, (s[i].1 + v) as u64);
    } else {
        lemma_sift_new_keeps_order(s, k, v);
    }
}

/// The length after an insertion: unchanged for a key already present
/// (nothing drops out), one more for a new key up to the capacity.
pub proof fn lemma_sift_insert_len(s: Seq<Entry>, k: Seq<char>, v: u64)
    requires
        top_list_inv(s),
    ensures
        sift_insert(s, k, v).len() == if has_key(s, k) {
            s.len() as int
        } else if s.len() < CAPACITY {
            s.len() + 1int
        } else {
            CAPACITY as int
        },
{
    if has_key(s, k) {
        let i = key_index(s, k);
        lemma_remove_keeps_inv(s, i);
        if has_smaller(s.remove(i), (s[i].1 + v) as u64) {
            lemma_first_smaller(s.remove(i), (s[i].1 + v) as u64);
        }
    } else if has_smaller(s, v) {
        lemma_first_smaller(s, v);
    }
}

proof fn lemma_sift_new_keys(s: Seq<Entry>, k: Seq<char>, v: u64)
    ensures
        forall|i: int|
            0 <= i < sift_new(s, k, v).len() ==> #[trigger] sift_new(s, k, v)[i].0 == k || has_key(
                s,
                sift_new(s, k, v)[i].0,
            ),
{
    let r = sift_new(s, k, v);
    if has_smaller(s, v) {
        lemma_first_smaller(s, v);
        let p = first_smaller(s, v);
        let t = s.insert(p, (k, v));
        assert forall|i: int| 0 <= i < r.len() implies #[trigger] r[i].0 == k || has_key(s, r[i].0) by {
            assert(r[i] == t[i]);
            if i < p {
                assert(t[i] == s[i]);
            } else if i > p {
                assert(t[i] == s[i - 1]);
            }
        }
    } else if s.len() < CAPACITY {
        assert forall|i: int| 0 <= i < r.len() implies #[trigger] r[i].0 == k || has_key(s, r[i].0) by {
            if i < s.len() {
                assert(r[i] == s[i]);
            }
        }
    } else {
        assert forall|i: int| 0 <= i < r.len() implies #[trigger] r[i].0 == k || has_key(s, r[i].0) by {
            assert(r[i] == s[i]);
        }
    }
}

/// Every key after an insertion is the inserted key or was there before.
pub proof fn lemma_sift_insert_keys(s: Seq<Entry>, k: Seq<char>, v: u64)
    requires
        top_list_inv(s),
    ensures
        forall|i: int|
            0 <= i < sift_insert(s, k, v).len() ==> #[trigger] sift_insert(s, k, v)[i].0 == k
                || has_key(s, sift_insert(s, k, v)[i].0),
{
    if has_key(s, k) {
        let i = key_index(s, k);
        let r0 = s.remove(i);
        lemma_remove_keeps_inv(s, i);
        lemma_sift_new_keys(r0, k, (s[i].1 + v) as u64);
        let r = sift_insert(s, k, v);
        assert forall|m: int| 0 <= m < r.len() implies #[trigger] r[m].0 == k || has_key(s, r[m].0) by {
            if r[m].0 != k {
                let j = choose|j: int| 0 <= j < r0.len() && r0[j].0 == r[m].0;
                let j0 = if j < i { j } else { j + 1 };
                assert(s[j0].0 == r[m].0);
            }
        }
    } else {
        lemma_sift_new_keys(s, k, v);
    }
}

/// Putting an entry with a new key into a list of distinct keys: the keys
/// stay distinct, the new key counts what the entry says, and every other
/// key keeps its count.
proof fn lemma_count_insert_at(s: Seq<Entry>, p: int, e: Entry)
    requires
        keys_distinct(s),
        !has_key(s, e.0),
        0 <= p <= s.len(),
    ensures
        keys_distinct(s.insert(p, e)),
        count_of(s.insert(p, e), e.0) == e.1,
        forall|w: Seq<char>| w != e.0 ==> #[trigger] count_of(s.insert(p, e), w) == count_of(s, w),
{
    let t = s.insert(p, e);
    assert forall|a: int, b: int| 0 <= a < t.len() && 0 <= b < t.len() && a != b implies t[a].0
        != t[b].0 by {
        if a != p && b != p {
            let a0 = if a < p { a } else { a - 1 };
            let b0 = if b < p { b } else { b - 1 };
            assert(t[a] == s[a0]);
            assert(t[b] == s[b0]);
        } else if a == p {
            let b0 = if b < p { b } else { b - 1 };
            assert(t[b] == s[b0]);
        } else {
            let a0 = if a < p { a } else { a - 1 };
            assert(t[a] == s[a0]);
        }
    }
    lemma_key_at(t, p);
    assert forall|w: Seq<char>| w != e.0 implies #[trigger] count_of(t, w) == count_of(s, w) by {
        if has_key(s, w) {
            let j = key_index(s, w);
            lemma_key_at(s, j);
            let j1 = if j < p { j } else { j + 1 };
            assert(t[j1] == s[j]);
            lemma_key_at(t, j1);
        } else if has_key(t, w) {
            let m = choose|m: int| 0 <= m < t.len() && t[m].0 == w;
            let m0 = if m < p { m } else { m - 1 };
            assert(t[m] == s[m0]);
        }
    }
}

/// Taking out the entry at `i` of a list of distinct keys: its key counts
/// nothing any more, and every other key keeps its count.
proof fn lemma_count_remove_at(s: Seq<Entry>, i: int)
    requires
        keys_distinct(s),
        0 <= i < s.len(),
    ensures
        count_of(s.remove(i), s[i].0) == 0,
        forall|w: Seq<char>| w != s[i].0 ==> #[trigger] count_of(s.remove(i), w) == count_of(s, w),
{
    let r = s.remove(i);
    assert forall|a: int, b: int| 0 <= a < r.len() && 0 <= b < r.len() && a != b implies r[a].0
        != r[b].0 by {
        let a0 = if a < i { a } else { a + 1 };
        let b0 = if b < i { b } else { b + 1 };
        assert(r[a] == s[a0]);
        assert(r[b] == s[b0]);
    }
    if has_key(r, s[i].0) {
        let m = choose|m: int| 0 <= m < r.len() && r[m].0 == s[i].0;
        let m0 = if m < i { m } else { m + 1 };
        assert(r[m] == s[m0]);
    }
    assert forall|w: Seq<char>| w != s[i].0 implies #[trigger] count_of(r, w) == count_of(s, w) by {
        if has_key(s, w) {
            let j = key_index(s, w);
            lemma_key_at(s, j);
            assert(j != i);
            let j1 = if j < i { j } else { j - 1 };
            assert(r[j1] == s[j]);
            lemma_key_at(r, j1);
        } else if has_key(r, w) {
            let m = choose|m: int| 0 <= m < r.len() && r[m].0 == w;
            let m0 = if m < i { m } else { m + 1 };
            assert(r[m] == s[m0]);
        }
    }
}

/// Inserting into a top list adds counts: when the list holds the key, its
/// count grows by exactly the count inserted and every other key keeps its
/// count (nothing drops out); when it does not, the key comes in with the
/// count inserted, unless the list is full and no count in it is smaller,
/// and every other key keeps its count, but for one that drops out of a full
/// list.
pub proof fn lemma_sift_insert_counts(s: Seq<Entry>, k: Seq<char>, v: u64)
    requires
        top_list_inv(s),
        insert_fits(s, k, v),
    ensures
        has_key(s, k) ==> count_of(sift_insert(s, k, v), k) == count_of(s, k) + v,
        has_key(s, k) ==> forall|w: Seq<char>|
            w != k ==> #[trigger] count_of(sift_insert(s, k, v), w) == count_of(s, w),
        !has_key(s, k) ==> (count_of(sift_insert(s, k, v), k) == v || (s.len() == CAPACITY
            && count_of(sift_insert(s, k, v), k) == 0 && forall|i: int|
            0 <= i < s.len() ==> s[i].1 >= v)),
        !has_key(s, k) ==> forall|w: Seq<char>|
            w != k ==> (#[trigger] count_of(sift_insert(s, k, v), w) == count_of(s, w) || (
            s.len() == CAPACITY && count_of(sift_insert(s, k, v), w) == 0)),
{
    let r = sift_insert(s, k, v);
    if has_key(s, k) {
        let i = key_index(s, k);
        lemma_key_at(s, i);
        lemma_remove_keeps_inv(s, i);
        lemma_count_remove_at(s, i);
        let s1 = s.remove(i);
        let c = (s[i].1 + v) as u64;
        if has_smaller(s1, c) {
            lemma_first_smaller(s1, c);
            let p = first_smaller(s1, c);
            lemma_count_insert_at(s1, p, (k, c));
            assert(r == s1.insert(p, (k, c)));
        } else {
            assert(s1.push((k, c)) =~= s1.insert(s1.len() as int, (k, c)));
            lemma_count_insert_at(s1, s1.len() as int, (k, c));
            assert(r == s1.push((k, c)));
        }
    } else {
        if has_smaller(s, v) {
            lemma_first_smaller(s, v);
            let p = first_smaller(s, v);
            let t = s.insert(p, (k, v));
            lemma_count_insert_at(s, p, (k, v));
            if t.len() > CAPACITY {
                let l = t.len() - 1;
                assert(t[l] == s[s.len() - 1]);
                assert(t.drop_last() =~= t.remove(l));
                lemma_count_remove_at(t, l);
                assert(t[l].0 != k) by {
                    assert(t[p].0 == k);
                }
            }
        } else if s.len() < CAPACITY {
            assert(s.push((k, v)) =~= s.insert(s.len() as int, (k, v)));
            lemma_count_insert_at(s, s.len() as int, (k, v));
        } else {
            assert forall|i: int| 0 <= i < s.len() implies s[i].1 >= v by {}
        }
    }
}

/// A full top list lets go of its smallest entry: when a new key goes into
/// a sorted top list, the only other key whose count changes is one that
/// drops out of a full list, and its count was smaller than the count
/// inserted and no larger than any count left in the list.
pub proof fn lemma_sift_insert_drops_smallest(s: Seq<Entry>, k: Seq<char>, v: u64)
    requires
        top_list_inv(s),
        sorted_desc(s),
        !has_key(s, k),
    ensures
        forall|w: Seq<char>|
            w != k && #[trigger] count_of(sift_insert(s, k, v), w) != count_of(s, w) ==> {
                &&& s.len() == CAPACITY
                &&& count_of(sift_insert(s, k, v), w) == 0
                &&& count_of(s, w) < v
                &&& forall|i: int|
                    0 <= i < sift_insert(s, k, v).len() ==> count_of(s, w) <= sift_insert(
                        s,
                        k,
                        v,
                    )[i].1
            },
{
    let r = sift_insert(s, k, v);
    lemma_sift_insert_counts(s, k, v);
    if has_smaller(s, v) {
        lemma_first_smaller(s, v);
        let p = first_smaller(s, v);
        let t = s.insert(p, (k, v));
        lemma_count_insert_at(s, p, (k, v));
        if t.len() > CAPACITY {
            let l = t.len() - 1;
            let last = s[s.len() - 1];
            assert(t[l] == last);
            assert(t.drop_last() =~= t.remove(l));
            assert(t[p].0 == k);
            lemma_count_remove_at(t, l);
            lemma_key_at(s, s.len() - 1);
            assert forall|w: Seq<char>|
                w != k && #[trigger] count_of(r, w) != count_of(s, w) implies {
                &&& s.len() == CAPACITY
                &&& count_of(r, w) == 0
                &&& count_of(s, w) < v
                &&& forall|i: int| 0 <= i < r.len() ==> count_of(s, w) <= r[i].1
            } by {
                assert(w == last.0);
                assert(count_of(s, w) == last.1);
                assert(s[p].1 >= last.1);
                assert forall|i: int| 0 <= i < r.len() implies count_of(s, w) <= r[i].1 by {
                    assert(r[i] == t[i]);
                    if i < p {
                        assert(t[i] == s[i]);
                    } else if i > p {
                        assert(t[i] == s[i - 1]);
                    }
                }
            }
        }
    }
}

} // verus!
