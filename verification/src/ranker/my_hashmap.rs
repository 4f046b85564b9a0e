//! A counting map for keys that may come more than once.
//!
//! `MyMap` checks on every insertion whether the key is already there; if
//! it is, the values are added together.  Its entries are held in a vector
//! in which no key occurs twice.

use crate::ranker::my_vec::{has_key, key_index, keys_distinct, pairs_view, Entry};
use vstd::prelude::*;

verus! {

/// The count that `s` holds for `k`, or 0 where `k` is absent.
pub open spec fn count_of(s: Seq<Entry>, k: Seq<char>) -> int {
    if has_key(s, k) {
        s[key_index(s, k)].1 as int
    } else {
        0
    }
}

/// The entries as a map from key to count.
pub open spec fn as_map(s: Seq<Entry>) -> Map<Seq<char>, u64> {
    Map::new(|k: Seq<char>| has_key(s, k), |k: Seq<char>| s[key_index(s, k)].1)
}

/// Adding `v` to the count of `k` does not overflow.
pub open spec fn add_fits(s: Seq<Entry>, k: Seq<char>, v: u64) -> bool {
    count_of(s, k) + v <= u64::MAX
}

/// The entries after counting `v` more occurrences of `k`: the count of a
/// key already present grows in place, a new key is appended.
pub open spec fn count_insert(s: Seq<Entry>, k: Seq<char>, v: u64) -> Seq<Entry> {
    if has_key(s, k) {
        let i = key_index(s, k);
        s.update(i, (k, (s[i].1 + v) as u64))
    } else {
        s.push((k, v))
    }
}

/// In a list of distinct keys, the key at position `i` is found at `i`.
pub proof fn lemma_key_at(s: Seq<Entry>, i: int)
    requires
        keys_distinct(s),
        0 <= i < s.len(),
    ensures
        has_key(s, s[i].0),
        key_index(s, s[i].0) == i,
        count_of(s, s[i].0) == s[i].1,
{
    assert(has_key(s, s[i].0));
    let j = key_index(s, s[i].0);
    assert(s[j].0 == s[i].0);
}

/// Counting more occurrences of `k` keeps keys distinct, adds `v` to the
/// count of `k` and leaves every other count as it was.
pub proof fn lemma_count_insert(s: Seq<Entry>, k: Seq<char>, v: u64)
    requires
        keys_distinct(s),
        add_fits(s, k, v),
    ensures
        keys_distinct(count_insert(s, k, v)),
        forall|k2: Seq<char>|
            #![trigger count_of(count_insert(s, k, v), k2)]
            count_of(count_insert(s, k, v), k2) == count_of(s, k2) + (if k2 == k {
                v as int
            } else {
                0
            }),
        forall|k2: Seq<char>|
            #![trigger has_key(count_insert(s, k, v), k2)]
            has_key(count_insert(s, k, v), k2) <==> (has_key(s, k2) || k2 == k),
{
    let r = count_insert(s, k, v);
    if has_key(s, k) {
        let i = key_index(s, k);
        assert forall|a: int, b: int| 0 <= a < r.len() && 0 <= b < r.len() && a != b implies r[a].0
            != r[b].0 by {
            assert(r[a].0 == s[a].0);
            assert(r[b].0 == s[b].0);
        }
        assert forall|k2: Seq<char>| has_key(r, k2) <==> (has_key(s, k2) || k2 == k) by {
            if has_key(r, k2) {
                let j = choose|j: int| 0 <= j < r.len() && r[j].0 == k2;
                assert(s[j].0 == k2);
            }
            if has_key(s, k2) {
                let j = choose|j: int| 0 <= j < s.len() && s[j].0 == k2;
                assert(r[j].0 == k2);
            }
            if k2 == k {
                assert(r[i].0 == k2);
            }
        }
        assert forall|k2: Seq<char>| #[trigger]
            count_of(r, k2) == count_of(s, k2) + (if k2 == k {
                v as int
            } else {
                0
            }) by {
            if has_key(s, k2) {
                let j = key_index(s, k2);
                lemma_key_at(r, j);
                lemma_key_at(s, j);
            }
        }
    } else {
        assert forall|a: int, b: int| 0 <= a < r.len() && 0 <= b < r.len() && a != b implies r[a].0
            != r[b].0 by {
            if a < s.len() {
                assert(r[a] == s[a]);
            }
            if b < s.len() {
                assert(r[b] == s[b]);
            }
        }
        assert forall|k2: Seq<char>| has_key(r, k2) <==> (has_key(s, k2) || k2 == k) by {
            if has_key(r, k2) {
                let j = choose|j: int| 0 <= j < r.len() && r[j].0 == k2;
                if j < s.len() {
                    assert(s[j].0 == k2);
                }
            }
            if has_key(s, k2) {
                let j = choose|j: int| 0 <= j < s.len() && s[j].0 == k2;
                assert(r[j].0 == k2);
            }
            if k2 == k {
                assert(r[s.len() as int].0 == k2);
            }
        }
        assert forall|k2: Seq<char>| #[trigger]
            count_of(r, k2) == count_of(s, k2) + (if k2 == k {
                v as int
            } else {
                0
            }) by {
            if has_key(s, k2) {
                let j = key_index(s, k2);
                lemma_key_at(r, j);
                lemma_key_at(s, j);
            }
            if k2 == k {
                lemma_key_at(r, s.len() as int);
            }
        }
    }
}

/// In a list of distinct keys, the first `i + 1` entries are the first `i`
/// with entry `i` counted in.
pub proof fn lemma_take_step(s: Seq<Entry>, i: int)
    requires
        keys_distinct(s),
        0 <= i < s.len(),
    ensures
        keys_distinct(s.take(i)),
        !has_key(s.take(i), s[i].0),
        s.take(i + 1) == count_insert(s.take(i), s[i].0, s[i].1),
{
    let t = s.take(i);
    if has_key(t, s[i].0) {
        let j = choose|j: int| 0 <= j < t.len() && t[j].0 == s[i].0;
        assert(s[j].0 == s[i].0);
    }
    assert(t.push((s[i].0, s[i].1)) =~= s.take(i + 1));
}

/// The entries after counting in each entry of `items`, in order.
pub open spec fn insert_all(s: Seq<Entry>, items: Seq<Entry>) -> Seq<Entry>
    decreases items.len(),
{
    if items.len() == 0 {
        s
    } else {
        count_insert(insert_all(s, items.drop_last()), items.last().0, items.last().1)
    }
}

/// Two lists of distinct keys with the same keys and counts are the same
/// map.
pub proof fn lemma_as_map_ext(x: Seq<Entry>, y: Seq<Entry>)
    requires
        keys_distinct(x),
        keys_distinct(y),
        forall|k: Seq<char>| #[trigger] has_key(x, k) <==> has_key(y, k),
        forall|k: Seq<char>| #[trigger] count_of(x, k) == count_of(y, k),
    ensures
        as_map(x) == as_map(y),
{
    assert forall|k: Seq<char>| as_map(x).contains_key(k) implies as_map(x)[k] == as_map(y)[k] by {
        assert(has_key(x, k));
        assert(count_of(x, k) == count_of(y, k));
    }
    assert(as_map(x) =~= as_map(y));
}

/// Counting in a list of distinct keys adds its counts: every count is the
/// sum of the two, every key of either is there, and no key twice.
pub proof fn lemma_insert_all(s: Seq<Entry>, items: Seq<Entry>)
    requires
        keys_distinct(s),
        keys_distinct(items),
        forall|k: Seq<char>| count_of(s, k) + count_of(items, k) <= u64::MAX,
    ensures
        keys_distinct(insert_all(s, items)),
        forall|k: Seq<char>|
            #![trigger count_of(insert_all(s, items), k)]
            count_of(insert_all(s, items), k) == count_of(s, k) + count_of(items, k),
        forall|k: Seq<char>|
            #![trigger has_key(insert_all(s, items), k)]
            has_key(insert_all(s, items), k) <==> has_key(s, k) || has_key(items, k),
    decreases items.len(),
{
    if items.len() > 0 {
        let n = items.len() - 1;
        let q = items.drop_last();
        assert(items.take(n) =~= q);
        assert(items.take(n + 1) =~= items);
        lemma_take_step(items, n);
        lemma_count_insert(q, items[n].0, items[n].1);
        assert forall|k: Seq<char>| count_of(s, k) + count_of(q, k) <= u64::MAX by {
            assert(count_of(items, k) == count_of(q, k) + (if k == items[n].0 {
                items[n].1 as int
            } else {
                0
            }));
        }
        lemma_insert_all(s, q);
        let t = insert_all(s, q);
        assert(count_of(t, items[n].0) + items[n].1 <= u64::MAX) by {
            assert(count_of(s, items[n].0) + count_of(items, items[n].0) <= u64::MAX);
        }
        lemma_count_insert(t, items[n].0, items[n].1);
    }
}

/// Counting in the entries of a list of distinct keys, one by one, from
/// nothing gives that list back.
pub proof fn lemma_insert_all_from_empty(items: Seq<Entry>)
    requires
        keys_distinct(items),
    ensures
        insert_all(Seq::empty(), items) == items,
    decreases items.len(),
{
    if items.len() > 0 {
        let n = items.len() - 1;
        let q = items.drop_last();
        assert(items.take(n) =~= q);
        assert(items.take(n + 1) =~= items);
        lemma_take_step(items, n);
        assert(keys_distinct(q));
        lemma_insert_all_from_empty(q);
    }
}

/// The order of two insertions does not matter to the map.
pub proof fn lemma_insert_commutes(s: Seq<Entry>, k1: Seq<char>, v1: u64, k2: Seq<char>, v2: u64)
    requires
        keys_distinct(s),
        count_of(s, k1) + count_of(s, k2) + v1 + v2 <= u64::MAX,
    ensures
        as_map(count_insert(count_insert(s, k1, v1), k2, v2)) == as_map(
            count_insert(count_insert(s, k2, v2), k1, v1),
        ),
{
    lemma_count_insert(s, k1, v1);
    lemma_count_insert(s, k2, v2);
    lemma_count_insert(count_insert(s, k1, v1), k2, v2);
    lemma_count_insert(count_insert(s, k2, v2), k1, v1);
    lemma_as_map_ext(
        count_insert(count_insert(s, k1, v1), k2, v2),
        count_insert(count_insert(s, k2, v2), k1, v1),
    );
}

/// Joining maps is commutative.
pub proof fn lemma_join_commutes(a: Seq<Entry>, b: Seq<Entry>)
    requires
        keys_distinct(a),
        keys_distinct(b),
        forall|k: Seq<char>| count_of(a, k) + count_of(b, k) <= u64::MAX,
    ensures
        as_map(insert_all(a, b)) == as_map(insert_all(b, a)),
{
    lemma_insert_all(a, b);
    lemma_insert_all(b, a);
    lemma_as_map_ext(insert_all(a, b), insert_all(b, a));
}

/// Joining maps is associative.
pub proof fn lemma_join_associates(a: Seq<Entry>, b: Seq<Entry>, c: Seq<Entry>)
    requires
        keys_distinct(a),
        keys_distinct(b),
        keys_distinct(c),
        forall|k: Seq<char>| count_of(a, k) + count_of(b, k) + count_of(c, k) <= u64::MAX,
    ensures
        as_map(insert_all(insert_all(a, b), c)) == as_map(insert_all(a, insert_all(b, c))),
{
    lemma_insert_all(a, b);
    lemma_insert_all(b, c);
    lemma_insert_all(insert_all(a, b), c);
    lemma_insert_all(a, insert_all(b, c));
    lemma_as_map_ext(insert_all(insert_all(a, b), c), insert_all(a, insert_all(b, c)));
}

/// The empty map is the identity of joining.
pub proof fn lemma_join_identity(a: Seq<Entry>)
    requires
        keys_distinct(a),
    ensures
        insert_all(a, Seq::empty()) == a,
        insert_all(Seq::empty(), a) == a,
{
    lemma_insert_all_from_empty(a);
}

/// A map from keys to their numbers of occurrences.
pub struct MyMap {
    map: Vec<(String, u64)>,
}

impl View for MyMap {
    type V = Seq<Entry>;

    closed spec fn view(&self) -> Seq<Entry> {
        pairs_view(self.map@)
    }
}

impl MyMap {
    #[verifier::type_invariant]
    closed spec fn wf(self) -> bool {
        keys_distinct(pairs_view(self.map@))
    }

    /// An empty map.
    pub fn new() -> (r: Self)
        ensures
            r@ == Seq::<Entry>::empty(),
    {
        let r = MyMap { map: Vec::new() };
        assert(pairs_view(r.map@) =~= Seq::<Entry>::empty());
        r
    }

    /// A map holding the given entries, in which no key occurs twice.
    pub fn from(map: Vec<(String, u64)>) -> (r: Self)
        requires
            keys_distinct(pairs_view(map@)),
        ensures
            r@ == pairs_view(map@),
    {
        MyMap { map }
    }

    /// The counts of both maps added together: a key of either map has the
    /// sum of its counts in the two.
    pub fn join(map1: MyMap, map2: MyMap) -> (r: Self)
        requires
            forall|k: Seq<char>| count_of(map1@, k) + count_of(map2@, k) <= u64::MAX,
        ensures
            r@ == insert_all(map1@, map2@),
            keys_distinct(r@),
            forall|k: Seq<char>|
                #![trigger count_of(r@, k)]
                count_of(r@, k) == count_of(map1@, k) + count_of(map2@, k),
            forall|k: Seq<char>|
                #![trigger has_key(r@, k)]
                has_key(r@, k) <==> has_key(map1@, k) || has_key(map2@, k),
    {
        proof {
            use_type_invariant(&map1);
            use_type_invariant(&map2);
        }
        let ghost s1 = map1@;
        let ghost s2 = map2@;
        let v1 = map1.unpack();
        let v2 = map2.unpack();
        let mut new_map = MyMap::new();
        let n1 = v1.len();
        let mut i: usize = 0;
        assert(s1.take(0) =~= Seq::<Entry>::empty());
        while i < n1
            invariant
                n1 == v1@.len(),
                pairs_view(v1@) == s1,
                keys_distinct(s1),
                0 <= i <= n1,
                new_map@ == s1.take(i as int),
                keys_distinct(new_map@),
                forall|k: Seq<char>| #[trigger] count_of(new_map@, k) == count_of(s1.take(i as int), k),
                forall|k: Seq<char>| #[trigger] has_key(new_map@, k) <==> has_key(s1.take(i as int), k),
            decreases n1 - i,
        {
            assert(s1[i as int] == (v1@[i as int].0@, v1@[i as int].1));
            let key = v1[i].0.clone();
            let value = v1[i].1;
            proof {
                lemma_take_step(s1, i as int);
                lemma_count_insert(s1.take(i as int), key@, value);
                lemma_count_insert(new_map@, key@, value);
            }
            new_map.insert(key, value);
            i += 1;
        }
        assert(s1.take(n1 as int) =~= s1);
        let n2 = v2.len();
        let mut j: usize = 0;
        assert(s2.take(0) =~= Seq::<Entry>::empty());
        while j < n2
            invariant
                n2 == v2@.len(),
                pairs_view(v2@) == s2,
                keys_distinct(s1),
                keys_distinct(s2),
                forall|k: Seq<char>| count_of(s1, k) + count_of(s2, k) <= u64::MAX,
                0 <= j <= n2,
                new_map@ == insert_all(s1, s2.take(j as int)),
                keys_distinct(new_map@),
                forall|k: Seq<char>|
                    #[trigger] count_of(new_map@, k) == count_of(s1, k) + count_of(s2.take(j as int), k),
                forall|k: Seq<char>|
                    #[trigger] has_key(new_map@, k) <==> has_key(s1, k) || has_key(s2.take(j as int), k),
            decreases n2 - j,
        {
            assert(s2[j as int] == (v2@[j as int].0@, v2@[j as int].1));
            let key = v2[j].0.clone();
            let value = v2[j].1;
            proof {
                assert(s2.take(j + 1).drop_last() =~= s2.take(j as int));
                lemma_take_step(s2, j as int);
                lemma_count_insert(s2.take(j as int), key@, value);
                lemma_key_at(s2, j as int);
                assert(count_of(new_map@, key@) + value <= u64::MAX) by {
                    assert(count_of(s1, key@) + count_of(s2, key@) <= u64::MAX);
                }
                lemma_count_insert(new_map@, key@, value);
            }
            new_map.insert(key, value);
            j += 1;
        }
        assert(s2.take(n2 as int) =~= s2);
        new_map
    }

    /// Whether counting `value` more occurrences of `key` would not overflow.
    pub fn fits(&self, key: &String, value: u64) -> (r: bool)
        ensures
            r == add_fits(self@, key@, value),
            keys_distinct(self@),
    {
        proof {
            use_type_invariant(self);
        }
        let n = self.map.len();
        let mut i: usize = 0;
        while i < n
            invariant
                n == self.map@.len(),
                keys_distinct(self@),
                0 <= i <= n,
                forall|j: int| 0 <= j < i ==> self@[j].0 != key@,
            decreases n - i,
        {
            assert(self@[i as int] == (self.map@[i as int].0@, self.map@[i as int].1));
            if self.map[i].0 == *key {
                proof {
                    lemma_key_at(self@, i as int);
                }
                return value <= u64::MAX - self.map[i].1;
            }
            i += 1;
        }
        true
    }

    /// Counts `value` more occurrences of `key`: a key already present has
    /// `value` added to its count, a new key enters with `value`.
    pub fn insert(&mut self, key: String, value: u64)
        requires
            add_fits(old(self)@, key@, value),
        ensures
            final(self)@ == count_insert(old(self)@, key@, value),
            keys_distinct(old(self)@),
            keys_distinct(final(self)@),
    {
        proof {
            use_type_invariant(&*self);
        }
        let ghost s0 = self@;
        let ghost k = key@;
        let mut map: Vec<(String, u64)> = Vec::new();
        std::mem::swap(&mut map, &mut self.map);
        let n = map.len();
        let mut i: usize = 0;
        while i < n
            invariant
                n == map@.len(),
                pairs_view(map@) == s0,
                s0 == old(self)@,
                keys_distinct(s0),
                add_fits(s0, k, value),
                k == key@,
                0 <= i <= n,
                forall|j: int| 0 <= j < i ==> s0[j].0 != k,
            decreases n - i,
        {
            assert(s0[i as int] == (map@[i as int].0@, map@[i as int].1));
            if map[i].0 == key {
                proof {
                    lemma_key_at(s0, i as int);
                }
                let count = map[i].1 + value;
                map.set(i, (key, count));
                proof {
                    assert(pairs_view(map@) =~= s0.update(i as int, (k, count)));
                    lemma_count_insert(s0, k, value);
                }
                self.map = map;
                return;
            }
            i += 1;
        }
        assert(!has_key(s0, k));
        map.push((key, value));
        proof {
            assert(pairs_view(map@) =~= s0.push((k, value)));
            lemma_count_insert(s0, k, value);
        }
        self.map = map;
    }

    /// The entries of the map.
    pub fn unpack(self) -> (r: Vec<(String, u64)>)
        ensures
            pairs_view(r@) == self@,
            keys_distinct(pairs_view(r@)),
    {
        proof {
            use_type_invariant(&self);
        }
        self.map
    }
}

} // verus!
