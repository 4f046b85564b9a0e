//! Merging the reducers' lists: the head with the largest count goes first.

use crate::record::{json_record, read_record};
use crate::ranker::my_vec::Entry;
use vstd::multiset::Multiset;
use vstd::prelude::*;

verus! {

/// The count of a head, 0 for an exhausted list.
pub open spec fn head_count(h: Option<Entry>) -> int {
    match h {
        Some(e) => e.1 as int,
        None => 0,
    }
}

/// The abstract form of the heads.
pub open spec fn heads_view(v: Seq<Option<(String, u64)>>) -> Seq<Option<Entry>> {
    v.map_values(
        |h: Option<(String, u64)>|
            match h {
                Some(p) => Some((p.0@, p.1)),
                None => None,
            },
    )
}

/// The head that goes next: the first of those with the largest positive
/// count, or the first head when no count is positive.
pub open spec fn is_max_index(s: Seq<Option<Entry>>, r: int) -> bool {
    if exists|j: int| 0 <= j < s.len() && head_count(s[j]) > 0 {
        &&& 0 <= r < s.len()
        &&& forall|j: int| 0 <= j < s.len() ==> head_count(s[j]) <= head_count(s[r])
        &&& forall|j: int| 0 <= j < r ==> head_count(s[j]) < head_count(s[r])
    } else {
        r == 0
    }
}

/// The merge gives counts in non-increasing order while the lists are
/// sorted: when the head that went out is followed in its list by a count
/// no larger, the next head to go out has a count no larger either.
pub proof fn lemma_merge_non_increasing(s: Seq<Option<Entry>>, i: int, next: Option<Entry>, r: int)
    requires
        is_max_index(s, i),
        0 <= i < s.len(),
        head_count(next) <= head_count(s[i]),
        is_max_index(s.update(i, next), r),
    ensures
        head_count(s.update(i, next)[r]) <= head_count(s[i]),
{
    let t = s.update(i, next);
    if exists|j: int| 0 <= j < t.len() && head_count(t[j]) > 0 {
        if r != i {
            assert(t[r] == s[r]);
            if !(exists|j: int| 0 <= j < s.len() && head_count(s[j]) > 0) {
                assert(head_count(s[r]) <= 0);
            }
        }
    } else {
        assert(head_count(t[r]) <= 0);
    }
}

/// Some head has a positive count.
pub open spec fn has_positive(s: Seq<Option<Entry>>) -> bool {
    exists|j: int| 0 <= j < s.len() && head_count(s[j]) > 0
}

/// Heads always have a next one to go out.
proof fn lemma_max_index_exists(s: Seq<Option<Entry>>)
    ensures
        exists|r: int| is_max_index(s, r),
    decreases s.len(),
{
    if s.len() == 0 {
        assert(is_max_index(s, 0));
    } else {
        let t = s.drop_last();
        lemma_max_index_exists(t);
        let rt = choose|r: int| is_max_index(t, r);
        let x = s.last();
        let n = t.len() as int;
        assert forall|j: int| 0 <= j < n implies #[trigger] s[j] == t[j] by {}
        if !has_positive(s) {
            assert(is_max_index(s, 0));
        } else if !has_positive(t) {
            assert(head_count(x) > 0) by {
                let j = choose|j: int| 0 <= j < s.len() && head_count(s[j]) > 0;
                if j < n {
                    assert(head_count(t[j]) > 0);
                }
            }
            assert forall|j: int| 0 <= j < n implies head_count(s[j]) <= 0 by {
                assert(head_count(t[j]) <= 0);
            }
            assert(is_max_index(s, n));
        } else if head_count(x) > head_count(t[rt]) {
            assert(is_max_index(s, n));
        } else {
            assert(s[rt] == t[rt]);
            assert(is_max_index(s, rt));
        }
    }
}

/// Only one head can go out next.
proof fn lemma_max_index_unique(s: Seq<Option<Entry>>, a: int, b: int)
    requires
        is_max_index(s, a),
        is_max_index(s, b),
    ensures
        a == b,
{
    if has_positive(s) {
        if a < b {
            assert(head_count(s[a]) < head_count(s[b]));
        } else if b < a {
            assert(head_count(s[b]) < head_count(s[a]));
        }
    }
}

/// The list whose head goes out next.
pub open spec fn next_index(s: Seq<Option<Entry>>) -> int {
    choose|r: int| is_max_index(s, r)
}

/// The one index that [`MergeHeads::max_index`] can give is the next
/// index.
pub proof fn lemma_max_index_is_next(s: Seq<Option<Entry>>, r: int)
    requires
        is_max_index(s, r),
    ensures
        r == next_index(s),
{
    lemma_max_index_unique(s, r, next_index(s));
}

/// The heads of the lists `ls`: the first entry of each, `None` for an
/// empty list.
pub open spec fn heads_of(ls: Seq<Seq<Entry>>) -> Seq<Option<Entry>> {
    Seq::new(
        ls.len(),
        |i: int|
            if ls[i].len() > 0 {
                Some(ls[i][0])
            } else {
                None
            },
    )
}

/// The number of entries of all the lists.
pub open spec fn total_len(ls: Seq<Seq<Entry>>) -> nat
    decreases ls.len(),
{
    if ls.len() == 0 {
        0
    } else {
        total_len(ls.drop_last()) + ls.last().len()
    }
}

/// The entries of all the lists, counted with their repeats.
pub open spec fn all_entries(ls: Seq<Seq<Entry>>) -> Multiset<Entry>
    decreases ls.len(),
{
    if ls.len() == 0 {
        Multiset::empty()
    } else {
        all_entries(ls.drop_last()).add(ls.last().to_multiset())
    }
}

/// Whether entries come in non-increasing order of count.
pub open spec fn sorted_by_count(s: Seq<Entry>) -> bool {
    forall|i: int, j: int| 0 <= i <= j < s.len() ==> s[j].1 <= s[i].1
}

/// Lists as the reducers write them: each sorted by count, largest first,
/// and every count positive.
pub open spec fn mergeable(ls: Seq<Seq<Entry>>) -> bool {
    forall|i: int|
        0 <= i < ls.len() ==> sorted_by_count(#[trigger] ls[i]) && forall|k: int|
            0 <= k < ls[i].len() ==> ls[i][k].1 > 0
}

/// The entries that repeated merging gives from the lists `ls`, for at most
/// `fuel` steps: each step takes out the head that [`MergeHeads::max_index`]
/// picks and puts the next entry of its list in its place
/// ([`MergeHeads::pick`]); merging stops when every list is used up.
pub open spec fn merge_order(ls: Seq<Seq<Entry>>, fuel: nat) -> Seq<Entry>
    decreases fuel,
{
    if fuel == 0 {
        Seq::empty()
    } else {
        let r = next_index(heads_of(ls));
        if 0 <= r < ls.len() && ls[r].len() > 0 {
            seq![ls[r][0]] + merge_order(ls.update(r, ls[r].drop_first()), (fuel - 1) as nat)
        } else {
            Seq::empty()
        }
    }
}

proof fn lemma_total_update(ls: Seq<Seq<Entry>>, r: int, x: Seq<Entry>)
    requires
        0 <= r < ls.len(),
    ensures
        total_len(ls.update(r, x)) + ls[r].len() == total_len(ls) + x.len(),
        all_entries(ls.update(r, x)).add(ls[r].to_multiset()) == all_entries(ls).add(
            x.to_multiset(),
        ),
    decreases ls.len(),
{
    broadcast use vstd::multiset::group_multiset_axioms;

    let t = ls.update(r, x);
    let lhs = all_entries(t).add(ls[r].to_multiset());
    let rhs = all_entries(ls).add(x.to_multiset());
    if r == ls.len() - 1 {
        assert(t.drop_last() =~= ls.drop_last());
        assert(all_entries(t) == all_entries(ls.drop_last()).add(x.to_multiset()));
        assert(all_entries(ls) == all_entries(ls.drop_last()).add(ls[r].to_multiset()));
        assert forall|e: Entry| lhs.count(e) == rhs.count(e) by {}
    } else {
        assert(t.drop_last() =~= ls.drop_last().update(r, x));
        lemma_total_update(ls.drop_last(), r, x);
        let a = all_entries(t.drop_last());
        let b = all_entries(ls.drop_last());
        assert(t.last() == ls.last());
        assert(all_entries(t) == a.add(ls.last().to_multiset()));
        assert(all_entries(ls) == b.add(ls.last().to_multiset()));
        assert forall|e: Entry| lhs.count(e) == rhs.count(e) by {
            assert(a.add(ls[r].to_multiset()).count(e) == b.add(x.to_multiset()).count(e));
        }
    }
    assert(lhs =~= rhs);
}

proof fn lemma_total_zero(ls: Seq<Seq<Entry>>)
    requires
        total_len(ls) == 0,
    ensures
        all_entries(ls) == Multiset::<Entry>::empty(),
        forall|i: int| 0 <= i < ls.len() ==> (#[trigger] ls[i]).len() == 0,
    decreases ls.len(),
{
    broadcast use vstd::multiset::group_multiset_axioms;
    broadcast use vstd::seq_lib::group_to_multiset_ensures;

    if ls.len() > 0 {
        lemma_total_zero(ls.drop_last());
        assert(ls.last().to_multiset().len() == 0);
        assert(ls.last().to_multiset() =~= Multiset::<Entry>::empty());
        assert(all_entries(ls) =~= Multiset::<Entry>::empty());
        assert forall|i: int| 0 <= i < ls.len() implies (#[trigger] ls[i]).len() == 0 by {
            if i < ls.len() - 1 {
                assert(ls[i] == ls.drop_last()[i]);
            }
        }
    }
}

proof fn lemma_total_positive(ls: Seq<Seq<Entry>>) -> (i: int)
    requires
        total_len(ls) > 0,
    ensures
        0 <= i < ls.len(),
        ls[i].len() > 0,
    decreases ls.len(),
{
    if ls.last().len() > 0 {
        (ls.len() - 1) as int
    } else {
        let i = lemma_total_positive(ls.drop_last());
        assert(ls[i] == ls.drop_last()[i]);
        i
    }
}

proof fn lemma_merge_order(ls: Seq<Seq<Entry>>, fuel: nat)
    requires
        mergeable(ls),
        fuel == total_len(ls),
    ensures
        sorted_by_count(merge_order(ls, fuel)),
        merge_order(ls, fuel).to_multiset() == all_entries(ls),
        merge_order(ls, fuel).len() > 0 ==> merge_order(ls, fuel)[0] == ls[next_index(
            heads_of(ls),
        )][0],
    decreases fuel,
{
    broadcast use vstd::multiset::group_multiset_axioms;
    broadcast use vstd::seq_lib::group_to_multiset_ensures;

    if fuel == 0 {
        lemma_total_zero(ls);
        assert(merge_order(ls, fuel) =~= Seq::<Entry>::empty());
    } else {
        let hs = heads_of(ls);
        let i = lemma_total_positive(ls);
        assert(head_count(hs[i]) > 0);
        lemma_max_index_exists(hs);
        let r = next_index(hs);
        assert(is_max_index(hs, r));
        assert(head_count(hs[r]) > 0);
        let l = ls[r];
        let h = l[0];
        let x = l.drop_first();
        let ls2 = ls.update(r, x);
        lemma_total_update(ls, r, x);
        assert forall|q: int| 0 <= q < ls2.len() implies sorted_by_count(#[trigger] ls2[q])
            && forall|k: int| 0 <= k < ls2[q].len() ==> ls2[q][k].1 > 0 by {
            if q == r {
                assert forall|a: int, b: int| 0 <= a <= b < x.len() implies x[b].1 <= x[a].1 by {
                    assert(x[a] == l[a + 1] && x[b] == l[b + 1]);
                }
                assert forall|k: int| 0 <= k < x.len() implies x[k].1 > 0 by {
                    assert(x[k] == l[k + 1]);
                }
            }
        }
        let m2 = merge_order(ls2, (fuel - 1) as nat);
        lemma_merge_order(ls2, (fuel - 1) as nat);
        let m = merge_order(ls, fuel);
        assert(m == seq![h] + m2);
        let next = if x.len() > 0 {
            Some(x[0])
        } else {
            None::<Entry>
        };
        let hs2 = heads_of(ls2);
        assert(hs2 =~= hs.update(r, next));
        if x.len() > 0 {
            assert(x[0] == l[1]);
        }
        assert(head_count(next) <= head_count(hs[r]));
        lemma_max_index_exists(hs2);
        let r2 = next_index(hs2);
        lemma_merge_non_increasing(hs, r, next, r2);
        if m2.len() > 0 {
            assert(m2[0] == ls2[r2][0]);
            assert(hs2[r2] == Some(ls2[r2][0]));
            assert(m2[0].1 <= h.1);
        }
        assert forall|a: int, b: int| 0 <= a <= b < m.len() implies m[b].1 <= m[a].1 by {
            if a == 0 && b > 0 {
                assert(m[b] == m2[b - 1]);
                assert(m2[b - 1].1 <= m2[0].1);
            } else if a > 0 {
                assert(m[a] == m2[a - 1] && m[b] == m2[b - 1]);
            }
        }
        assert(l =~= seq![h] + x);
        vstd::seq_lib::lemma_multiset_commutative(seq![h], x);
        vstd::seq_lib::lemma_multiset_commutative(seq![h], m2);
        assert(seq![h] =~= Seq::<Entry>::empty().push(h));
        assert(seq![h].to_multiset() =~= Multiset::<Entry>::empty().insert(h));
        let hm = seq![h].to_multiset();
        let a2 = all_entries(ls2);
        assert(m.to_multiset() == hm.add(m2.to_multiset()));
        assert(l.to_multiset() == hm.add(x.to_multiset()));
        assert(a2.add(l.to_multiset()) == all_entries(ls).add(x.to_multiset()));
        assert forall|e: Entry| m.to_multiset().count(e) == all_entries(ls).count(e) by {
            assert(a2.add(l.to_multiset()).count(e) == all_entries(ls).add(x.to_multiset()).count(
                e,
            ));
        }
        assert(m.to_multiset() =~= all_entries(ls));
    }
}

/// Merging the reducers' lists gives every entry once and sorts them by
/// count: from lists each sorted by count, largest first, with positive
/// counts, repeated merging gives, in as many steps as the lists hold
/// entries, entries in non-increasing order of count that are, with their
/// repeats, exactly the entries of all the lists.
pub proof fn lemma_merge_sorted(ls: Seq<Seq<Entry>>)
    requires
        mergeable(ls),
    ensures
        sorted_by_count(merge_order(ls, total_len(ls))),
        merge_order(ls, total_len(ls)).to_multiset() == all_entries(ls),
        merge_order(ls, total_len(ls)).len() == total_len(ls),
{
    broadcast use vstd::seq_lib::group_to_multiset_ensures;

    lemma_merge_order(ls, total_len(ls));
    lemma_entries_len(ls);
}

proof fn lemma_entries_len(ls: Seq<Seq<Entry>>)
    ensures
        all_entries(ls).len() == total_len(ls),
    decreases ls.len(),
{
    broadcast use vstd::multiset::group_multiset_axioms;
    broadcast use vstd::seq_lib::group_to_multiset_ensures;

    if ls.len() > 0 {
        lemma_entries_len(ls.drop_last());
    }
}

/// Once every list is used up, the next head is the first, and it is
/// empty: merging gives nothing more.
pub proof fn lemma_merge_exhausted(ls: Seq<Seq<Entry>>, r: int)
    requires
        ls.len() > 0,
        total_len(ls) == 0,
        is_max_index(heads_of(ls), r),
    ensures
        r == 0,
        heads_of(ls)[0] is None,
{
    lemma_total_zero(ls);
    let hs = heads_of(ls);
    assert(!has_positive(hs)) by {
        if has_positive(hs) {
            let j = choose|j: int| 0 <= j < hs.len() && head_count(hs[j]) > 0;
            assert(ls[j].len() == 0);
        }
    }
    assert(ls[0].len() == 0);
}

/// The current head of each reducer's list.
pub struct MergeHeads {
    buf: Vec<Option<(String, u64)>>,
}

impl View for MergeHeads {
    type V = Seq<Option<Entry>>;

    closed spec fn view(&self) -> Seq<Option<Entry>> {
        heads_view(self.buf@)
    }
}

impl MergeHeads {
    /// Heads made of the first record of each list.
    pub fn new(heads: Vec<Option<(String, u64)>>) -> (r: Self)
        ensures
            r@ == heads_view(heads@),
    {
        MergeHeads { buf: heads }
    }

    /// The number of lists.
    pub fn len(&self) -> (r: usize)
        ensures
            r == self@.len(),
    {
        self.buf.len()
    }

    /// Which list's head goes next.
    pub fn max_index(&self) -> (r: usize)
        ensures
            is_max_index(self@, r as int),
    {
        let mut max_index: usize = 0;
        let mut max_val: u64 = 0;
        let n = self.buf.len();
        let mut i: usize = 0;
        while i < n
            invariant
                n == self@.len(),
                0 <= i <= n,
                forall|j: int| 0 <= j < i ==> head_count(self@[j]) <= max_val,
                max_val == 0 ==> max_index == 0,
                max_val > 0 ==> max_index < i && head_count(self@[max_index as int]) == max_val,
                forall|j: int| 0 <= j < max_index ==> head_count(self@[j]) < max_val,
            decreases n - i,
        {
            assert(self@[i as int] == match self.buf@[i as int] {
                Some(p) => Some((p.0@, p.1)),
                None => None::<Entry>,
            });
            match &self.buf[i] {
                Some(kv) => {
                    if kv.1 > max_val {
                        max_val = kv.1;
                        max_index = i;
                    }
                },
                None => {},
            }
            i += 1;
        }
        proof {
            if exists|j: int| 0 <= j < self@.len() && head_count(self@[j]) > 0 {
                let j = choose|j: int| 0 <= j < self@.len() && head_count(self@[j]) > 0;
                assert(head_count(self@[j]) <= max_val);
            }
        }
        max_index
    }

    /// Takes the head of list `i` and puts the record of `line`, the next
    /// line of that list, in its place (`None` where the line is no record,
    /// which ends the list).
    pub fn pick(&mut self, i: usize, line: &str) -> (r: Option<(String, u64)>)
        requires
            i < old(self)@.len(),
        ensures
            heads_view(seq![r])[0] == old(self)@[i as int],
            final(self)@ == old(self)@.update(i as int, json_record(line@)),
    {
        let kv = read_record(line);
        let ans = self.buf.remove(i);
        self.buf.insert(i, kv);
        proof {
            let h = heads_view(seq![kv]);
            assert(h[0] == json_record(line@));
            assert(self@ =~= old(self)@.update(i as int, json_record(line@)));
        }
        ans
    }
}

} // verus!
