//! Counting (map) and merging (reduce) of URL occurrences.

pub mod my_hashmap;
pub mod my_vec;

use std::collections::hash_map::DefaultHasher;
use std::hash::Hasher;
use crate::ranker::my_hashmap::{count_insert, count_of, lemma_count_insert, MyMap};
use crate::ranker::my_vec::{
    lemma_sift_insert_keeps_inv, lemma_sift_insert_keeps_order, lemma_sift_insert_keys, sorted_desc,
    has_key, insert_fits, keys_distinct, pairs_view, sift_insert, top_list_inv, Entry, MyVec,
};
use crate::record::{json_record, read_record, ReduceError};
use crate::text::string_push;
use vstd::prelude::*;
use vstd::std_specs::hash::DefaultHasherAdditionalSpecFns;
use vstd::std_specs::iter::IteratorSpec;
use vstd::utf8::encode_utf8;

verus! {

/// The hash of a byte string: what a fresh `DefaultHasher` finishes with
/// after one write of the bytes, taken as a `usize`.
pub open spec fn spec_bytes_hash(bytes: Seq<u8>) -> usize {
    DefaultHasher::spec_finish(seq![bytes]) as usize
}

/// The hash of a key: the hash of its UTF-8 encoding.
pub open spec fn spec_key_hash(key: Seq<char>) -> usize {
    spec_bytes_hash(encode_utf8(key))
}

/// Hashes raw bytes with the standard library's default hasher.
pub fn my_hash(bytes: Vec<u8>) -> (h: usize)
    ensures
        h == spec_bytes_hash(bytes@),
{
    let mut hs = DefaultHasher::new();
    hs.write(bytes.as_slice());
    hs.finish() as usize
}

/// Hashes a key (its UTF-8 bytes) with the standard library's default hasher.
pub fn hash(s: String) -> (h: usize)
    ensures
        h == spec_key_hash(s@),
{
    let mut hasher = DefaultHasher::new();
    hasher.write(s.as_str().as_bytes());
    hasher.finish() as usize
}



/// The characters that separate URLs: space, line feed and carriage return
/// (the last one so that CRLF files split as LF files do).
pub open spec fn is_separator(c: char) -> bool {
    c == ' ' || c == '\n' || c == '\r'
}

/// The pieces of `s` between separators, in order, empty pieces included:
/// one more piece than there are separators.
pub open spec fn pieces(s: Seq<char>) -> Seq<Seq<char>>
    decreases s.len(),
{
    if s.len() == 0 {
        seq![Seq::<char>::empty()]
    } else {
        let p = pieces(s.drop_last());
        if is_separator(s.last()) {
            p.push(Seq::<char>::empty())
        } else {
            p.update(p.len() - 1, p.last().push(s.last()))
        }
    }
}

/// How many of the pieces `ps` equal `w`.
pub open spec fn occurrences(ps: Seq<Seq<char>>, w: Seq<char>) -> nat
    decreases ps.len(),
{
    if ps.len() == 0 {
        0
    } else {
        occurrences(ps.drop_last(), w) + (if ps.last() == w {
            1nat
        } else {
            0nat
        })
    }
}

/// There is always at least one piece, and at most one more than there are
/// characters.
pub proof fn lemma_pieces_len(s: Seq<char>)
    ensures
        1 <= pieces(s).len() <= s.len() + 1,
    decreases s.len(),
{
    if s.len() > 0 {
        lemma_pieces_len(s.drop_last());
    }
}

/// A piece occurs at most as often as there are pieces.
pub proof fn lemma_occurrences_bound(ps: Seq<Seq<char>>, w: Seq<char>)
    ensures
        occurrences(ps, w) <= ps.len(),
        occurrences(ps, w) > 0 <==> ps.contains(w),
    decreases ps.len(),
{
    if ps.len() > 0 {
        lemma_occurrences_bound(ps.drop_last(), w);
        if ps.drop_last().contains(w) {
            let j = choose|j: int| 0 <= j < ps.drop_last().len() && ps.drop_last()[j] == w;
            assert(ps[j] == w);
        }
        if ps.contains(w) && ps.last() != w {
            let j = choose|j: int| 0 <= j < ps.len() && ps[j] == w;
            assert(ps.drop_last()[j] == w);
        }
    }
}

proof fn lemma_occurrences_push(ps: Seq<Seq<char>>, p: Seq<char>)
    ensures
        forall|w: Seq<char>|
            #[trigger] occurrences(ps.push(p), w) == occurrences(ps, w) + (if p == w {
                1nat
            } else {
                0nat
            }),
{
    assert(ps.push(p).drop_last() =~= ps);
}

/// The counts of the URLs among the pieces `ps`, each new URL entering
/// after those before it; empty pieces are no URLs and are not counted.
pub open spec fn count_urls(ps: Seq<Seq<char>>) -> Seq<Entry>
    decreases ps.len(),
{
    if ps.len() == 0 {
        Seq::empty()
    } else {
        let t = count_urls(ps.drop_last());
        if ps.last().len() == 0 {
            t
        } else {
            count_insert(t, ps.last(), 1)
        }
    }
}

/// The URL counts hold no key twice, no empty key, and each URL's count is
/// its number of occurrences among the pieces.
pub proof fn lemma_count_urls(ps: Seq<Seq<char>>)
    requires
        ps.len() <= u64::MAX,
    ensures
        keys_distinct(count_urls(ps)),
        forall|w: Seq<char>|
            #![trigger count_of(count_urls(ps), w)]
            count_of(count_urls(ps), w) == if w.len() == 0 {
                0
            } else {
                occurrences(ps, w) as int
            },
        forall|w: Seq<char>|
            #![trigger has_key(count_urls(ps), w)]
            has_key(count_urls(ps), w) <==> (w.len() > 0 && ps.contains(w)),
    decreases ps.len(),
{
    if ps.len() > 0 {
        let q = ps.drop_last();
        let p = ps.last();
        lemma_count_urls(q);
        lemma_occurrences_push(q, p);
        assert(q.push(p) =~= ps);
        let t = count_urls(q);
        if p.len() > 0 {
            lemma_occurrences_bound(q, p);
            lemma_count_insert(t, p, 1);
        }
        assert forall|w: Seq<char>| #[trigger] has_key(count_urls(ps), w) <==> (w.len() > 0
            && ps.contains(w)) by {
            lemma_occurrences_bound(ps, w);
            lemma_occurrences_bound(q, w);
        }
    }
}

/// Counts the occurrences of each URL in a block of text.
///
/// The text is cut at every separator (see [`is_separator`]); each
/// non-empty piece is a URL and is counted once, in the order in which URLs
/// first appear.  No key occurs twice, no key is empty, and each URL's count
/// is its number of occurrences.  The name of the block is not read: the
/// result is a function of the content alone.
pub fn map_f(name: String, content: String) -> (r: Vec<(String, u64)>)
    requires
        content@.len() < u64::MAX,
    ensures
        pairs_view(r@) == count_urls(pieces(content@)),
        keys_distinct(pairs_view(r@)),
        forall|w: Seq<char>|
            #![trigger count_of(pairs_view(r@), w)]
            count_of(pairs_view(r@), w) == if w.len() == 0 {
                0
            } else {
                occurrences(pieces(content@), w) as int
            },
        forall|w: Seq<char>|
            #![trigger has_key(pairs_view(r@), w)]
            has_key(pairs_view(r@), w) <==> (w.len() > 0 && pieces(content@).contains(w)),
{
    broadcast use vstd::string::group_string_axioms;

    let ghost s = content@;
    let mut mp = MyMap::new();
    let mut cur = String::new();
    let mut chars = content.as_str().chars();
    let ghost mut i: int = 0;
    let ghost mut done: Seq<Seq<char>> = Seq::empty();
    assert(s.take(0) =~= Seq::<char>::empty());
    loop
        invariant
            s == content@,
            s.len() < u64::MAX,
            chars.obeys_prophetic_iter_laws(),
            chars.remaining() == s.subrange(i, s.len() as int),
            0 <= i <= s.len(),
            pieces(s.take(i)) == done.push(cur@),
            done.len() <= i,
            mp@ == count_urls(done),
        ensures
            i == s.len(),
        decreases s.len() - i,
    {
        let next = chars.next();
        match next {
            None => {
                break;
            },
            Some(c) => {
                assert(c == s[i]);
                assert(s.take(i + 1).drop_last() =~= s.take(i));
                if c == ' ' || c == '\n' || c == '\r' {
                    let piece = cur;
                    cur = String::new();
                    proof {
                        lemma_count_urls(done);
                        assert(done.push(piece@).drop_last() =~= done);
                    }
                    if !piece.as_str().is_empty() {
                        proof {
                            lemma_occurrences_bound(done, piece@);
                        }
                        mp.insert(piece, 1);
                    }
                    proof {
                        done = done.push(piece@);
                        assert(pieces(s.take(i + 1)) =~= done.push(cur@));
                    }
                } else {
                    string_push(&mut cur, c);
                    proof {
                        assert(pieces(s.take(i + 1)) =~= done.push(cur@));
                    }
                }
                proof {
                    i = i + 1;
                }
            },
        }
    }
    assert(s.take(i) =~= s);
    proof {
        lemma_count_urls(done);
        lemma_pieces_len(s);
        assert(done.push(cur@).drop_last() =~= done);
    }
    if !cur.as_str().is_empty() {
        proof {
            lemma_occurrences_bound(done, cur@);
        }
        mp.insert(cur, 1);
    }
    proof {
        lemma_count_urls(pieces(s));
    }
    mp.unpack()
}

/// Cutting two texts joined by a separator gives the pieces of the one,
/// then those of the other.
pub proof fn lemma_pieces_concat(a: Seq<char>, c: char, b: Seq<char>)
    requires
        is_separator(c),
    ensures
        pieces(a.push(c) + b) == pieces(a) + pieces(b),
    decreases b.len(),
{
    let x = a.push(c) + b;
    if b.len() == 0 {
        assert(x =~= a.push(c));
        assert(a.push(c).drop_last() =~= a);
        assert(pieces(b) == seq![Seq::<char>::empty()]);
        assert(pieces(a).push(Seq::<char>::empty()) =~= pieces(a) + pieces(b));
    } else {
        let b2 = b.drop_last();
        lemma_pieces_concat(a, c, b2);
        assert(x.drop_last() =~= a.push(c) + b2);
        assert(x.last() == b.last());
        lemma_pieces_len(b2);
        let p = pieces(a) + pieces(b2);
        if is_separator(b.last()) {
            assert(p.push(Seq::<char>::empty()) =~= pieces(a) + pieces(b2).push(Seq::<char>::empty()));
        } else {
            let q = pieces(b2);
            assert(p.update(p.len() - 1, p.last().push(b.last())) =~= pieces(a) + q.update(
                q.len() - 1,
                q.last().push(b.last()),
            ));
        }
    }
}

/// Occurrences in a concatenation add up.
pub proof fn lemma_occurrences_concat(p: Seq<Seq<char>>, q: Seq<Seq<char>>, w: Seq<char>)
    ensures
        occurrences(p + q, w) == occurrences(p, w) + occurrences(q, w),
    decreases q.len(),
{
    if q.len() == 0 {
        assert(p + q =~= p);
    } else {
        lemma_occurrences_concat(p, q.drop_last(), w);
        assert((p + q).drop_last() =~= p + q.drop_last());
        assert((p + q).last() == q.last());
    }
}

/// Counting two texts joined by a separator counts each URL as often as
/// counting the two texts apart does, all told: the map of a joined text is
/// the join of the maps of its parts.
pub proof fn lemma_map_counts_concat(a: Seq<char>, c: char, b: Seq<char>, w: Seq<char>)
    requires
        is_separator(c),
        (a.push(c) + b).len() < u64::MAX,
    ensures
        count_of(count_urls(pieces(a.push(c) + b)), w) == count_of(count_urls(pieces(a)), w)
            + count_of(count_urls(pieces(b)), w),
{
    lemma_pieces_concat(a, c, b);
    lemma_pieces_len(a);
    lemma_pieces_len(b);
    lemma_pieces_len(a.push(c) + b);
    lemma_count_urls(pieces(a));
    lemma_count_urls(pieces(b));
    lemma_count_urls(pieces(a.push(c) + b));
    lemma_occurrences_concat(pieces(a), pieces(b), w);
}

/// Whether key `k` falls to reducer `worker` of `n_worker`.
pub open spec fn in_duty(k: Seq<char>, worker: usize, n_worker: usize) -> bool {
    spec_key_hash(k) % n_worker == worker
}

/// The top list after the lines of one mapper's output: each line is read
/// as a record, and the records whose key falls to `worker` are inserted;
/// the first line that is no record, or the first insertion that would
/// overflow a count, stops the reduction with an error.
pub open spec fn reduce_lines(
    s: Seq<Entry>,
    worker: usize,
    n_worker: usize,
    lines: Seq<Seq<char>>,
) -> Result<Seq<Entry>, ReduceError>
    decreases lines.len(),
{
    if lines.len() == 0 {
        Ok(s)
    } else {
        match reduce_lines(s, worker, n_worker, lines.drop_last()) {
            Err(e) => Err(e),
            Ok(t) => match json_record(lines.last()) {
                None => Err(ReduceError::BadRecord),
                Some(kv) => if in_duty(kv.0, worker, n_worker) {
                    if insert_fits(t, kv.0, kv.1) {
                        Ok(sift_insert(t, kv.0, kv.1))
                    } else {
                        Err(ReduceError::CountOverflow)
                    }
                } else {
                    Ok(t)
                },
            },
        }
    }
}

/// The top list after the outputs of all mappers, one after the other.
pub open spec fn reduce_files(
    s: Seq<Entry>,
    worker: usize,
    n_worker: usize,
    files: Seq<Seq<Seq<char>>>,
) -> Result<Seq<Entry>, ReduceError>
    decreases files.len(),
{
    if files.len() == 0 {
        Ok(s)
    } else {
        match reduce_files(s, worker, n_worker, files.drop_last()) {
            Err(e) => Err(e),
            Ok(t) => reduce_lines(t, worker, n_worker, files.last()),
        }
    }
}

/// Once a reduction has failed on a prefix of the lines, it fails on all of
/// them with the same error.
pub proof fn lemma_lines_error_stays(
    s: Seq<Entry>,
    worker: usize,
    n_worker: usize,
    lines: Seq<Seq<char>>,
    j: int,
    e: ReduceError,
)
    requires
        0 <= j <= lines.len(),
        reduce_lines(s, worker, n_worker, lines.take(j)) == Err::<Seq<Entry>, ReduceError>(e),
    ensures
        reduce_lines(s, worker, n_worker, lines) == Err::<Seq<Entry>, ReduceError>(e),
    decreases lines.len(),
{
    if j < lines.len() {
        assert(lines.drop_last().take(j) =~= lines.take(j));
        lemma_lines_error_stays(s, worker, n_worker, lines.drop_last(), j, e);
    } else {
        assert(lines.take(j) =~= lines);
    }
}

/// Once a reduction has failed on a prefix of the files, it fails on all of
/// them with the same error.
pub proof fn lemma_files_error_stays(
    s: Seq<Entry>,
    worker: usize,
    n_worker: usize,
    files: Seq<Seq<Seq<char>>>,
    j: int,
    e: ReduceError,
)
    requires
        0 <= j <= files.len(),
        reduce_files(s, worker, n_worker, files.take(j)) == Err::<Seq<Entry>, ReduceError>(e),
    ensures
        reduce_files(s, worker, n_worker, files) == Err::<Seq<Entry>, ReduceError>(e),
    decreases files.len(),
{
    if j < files.len() {
        assert(files.drop_last().take(j) =~= files.take(j));
        lemma_files_error_stays(s, worker, n_worker, files.drop_last(), j, e);
    } else {
        assert(files.take(j) =~= files);
    }
}

/// The views of a list of lines.
pub open spec fn lines_view(lines: Seq<String>) -> Seq<Seq<char>> {
    lines.map_values(|l: String| l@)
}

/// The views of a list of files of lines.
pub open spec fn files_view(files: Seq<Vec<String>>) -> Seq<Seq<Seq<char>>> {
    files.map_values(|f: Vec<String>| lines_view(f@))
}

/// Folds the lines of one mapper's output into the top list `hs` of
/// reducer `worker` out of `n_worker`.  A line that is no `[key, count]`
/// record gives [`ReduceError::BadRecord`], and a count that overflows when
/// added gives [`ReduceError::CountOverflow`]: the fold stops there, where a
/// reducer would otherwise have to panic.
pub fn append_from_lines(hs: MyVec, worker: usize, n_worker: usize, lines: &Vec<String>) -> (r:
    Result<MyVec, ReduceError>)
    requires
        n_worker > 0 || lines@.len() == 0,
    ensures
        match r {
            Ok(v) => reduce_lines(hs@, worker, n_worker, lines_view(lines@)) == Ok::<
                Seq<Entry>,
                ReduceError,
            >(v@),
            Err(e) => reduce_lines(hs@, worker, n_worker, lines_view(lines@)) == Err::<
                Seq<Entry>,
                ReduceError,
            >(e),
        },
{
    let mut ans = hs;
    let n = lines.len();
    let mut i: usize = 0;
    assert(lines_view(lines@).take(0) =~= Seq::<Seq<char>>::empty());
    while i < n
        invariant
            n == lines@.len(),
            n_worker > 0 || n == 0,
            0 <= i <= n,
            reduce_lines(hs@, worker, n_worker, lines_view(lines@).take(i as int)) == Ok::<
                Seq<Entry>,
                ReduceError,
            >(ans@),
        decreases n - i,
    {
        let ghost pre = lines_view(lines@).take(i as int);
        let ghost next = lines_view(lines@).take(i + 1);
        assert(next.drop_last() =~= pre);
        assert(next.last() == lines@[i as int]@);
        match read_record(lines[i].as_str()) {
            None => {
                proof {
                    lemma_lines_error_stays(
                        hs@,
                        worker,
                        n_worker,
                        lines_view(lines@),
                        i + 1,
                        ReduceError::BadRecord,
                    );
                }
                return Err(ReduceError::BadRecord);
            },
            Some(elem) => {
                if hash(elem.0.clone()) % n_worker == worker {
                    if !ans.fits(&elem) {
                        proof {
                            lemma_lines_error_stays(
                                hs@,
                                worker,
                                n_worker,
                                lines_view(lines@),
                                i + 1,
                                ReduceError::CountOverflow,
                            );
                        }
                        return Err(ReduceError::CountOverflow);
                    }
                    ans.insert(elem);
                }
            },
        }
        i += 1;
    }
    assert(lines_view(lines@).take(n as int) =~= lines_view(lines@));
    Ok(ans)
}

/// Reducer `num` of `n_worker`: folds the outputs of all mappers, in order,
/// into an empty top list; `None` when no key fell to it.  A line that is
/// no `[key, count]` record gives [`ReduceError::BadRecord`] and a count
/// that overflows gives [`ReduceError::CountOverflow`]; these errors stand
/// where a reducer that unwraps each parse would panic.
pub fn reduce_f(num: usize, n_worker: usize, files: &Vec<Vec<String>>) -> (r: Result<
    Option<Vec<(String, u64)>>,
    ReduceError,
>)
    requires
        n_worker > 0 || forall|j: int| 0 <= j < files@.len() ==> (#[trigger] files@[j])@.len() == 0,
    ensures
        match reduce_files(Seq::empty(), num, n_worker, files_view(files@)) {
            Err(e) => r == Err::<Option<Vec<(String, u64)>>, ReduceError>(e),
            Ok(t) => match r {
                Ok(Some(v)) => t.len() > 0 && pairs_view(v@) == t,
                Ok(None) => t.len() == 0,
                Err(_) => false,
            },
        },
{
    let mut ans = MyVec::new();
    let n = files.len();
    let mut f: usize = 0;
    assert(files_view(files@).take(0) =~= Seq::<Seq<Seq<char>>>::empty());
    while f < n
        invariant
            n == files@.len(),
            n_worker > 0 || forall|j: int| 0 <= j < files@.len() ==> (#[trigger] files@[j])@.len() == 0,
            0 <= f <= n,
            reduce_files(Seq::empty(), num, n_worker, files_view(files@).take(f as int)) == Ok::<
                Seq<Entry>,
                ReduceError,
            >(ans@),
        decreases n - f,
    {
        let ghost next = files_view(files@).take(f + 1);
        assert(next.drop_last() =~= files_view(files@).take(f as int));
        assert(next.last() == lines_view(files@[f as int]@));
        ans = match append_from_lines(ans, num, n_worker, &files[f]) {
            Ok(v) => v,
            Err(e) => {
                proof {
                    lemma_files_error_stays(
                        Seq::empty(),
                        num,
                        n_worker,
                        files_view(files@),
                        f + 1,
                        e,
                    );
                }
                return Err(e);
            },
        };
        f += 1;
    }
    assert(files_view(files@).take(n as int) =~= files_view(files@));
    let v = ans.unpack();
    if v.len() == 0 {
        Ok(None)
    } else {
        Ok(Some(v))
    }
}

/// Every key of the list falls to reducer `worker` of `n_worker`.
pub open spec fn all_in_duty(s: Seq<Entry>, worker: usize, n_worker: usize) -> bool {
    forall|i: int| 0 <= i < s.len() ==> in_duty(#[trigger] s[i].0, worker, n_worker)
}

proof fn lemma_lines_keep_duty(s: Seq<Entry>, worker: usize, n_worker: usize, lines: Seq<Seq<char>>)
    requires
        all_in_duty(s, worker, n_worker),
        top_list_inv(s),
        sorted_desc(s),
    ensures
        reduce_lines(s, worker, n_worker, lines) matches Ok(t) ==> all_in_duty(t, worker, n_worker)
            && top_list_inv(t) && sorted_desc(t),
    decreases lines.len(),
{
    if lines.len() > 0 {
        lemma_lines_keep_duty(s, worker, n_worker, lines.drop_last());
        match reduce_lines(s, worker, n_worker, lines.drop_last()) {
            Ok(t) => match json_record(lines.last()) {
                Some(kv) => {
                    if in_duty(kv.0, worker, n_worker) {
                        lemma_sift_insert_keys(t, kv.0, kv.1);
                        lemma_sift_insert_keeps_inv(t, kv.0, kv.1);
                        lemma_sift_insert_keeps_order(t, kv.0, kv.1);
                        let r = sift_insert(t, kv.0, kv.1);
                        assert forall|i: int| 0 <= i < r.len() implies in_duty(
                            #[trigger] r[i].0,
                            worker,
                            n_worker,
                        ) by {
                            if r[i].0 != kv.0 {
                                let j = choose|j: int| 0 <= j < t.len() && t[j].0 == r[i].0;
                                assert(in_duty(t[j].0, worker, n_worker));
                            }
                        }
                    }
                },
                None => {},
            },
            Err(_) => {},
        }
    }
}

proof fn lemma_files_keep_duty(s: Seq<Entry>, worker: usize, n_worker: usize, files: Seq<Seq<Seq<char>>>)
    requires
        all_in_duty(s, worker, n_worker),
        top_list_inv(s),
        sorted_desc(s),
    ensures
        reduce_files(s, worker, n_worker, files) matches Ok(t) ==> all_in_duty(t, worker, n_worker)
            && top_list_inv(t) && sorted_desc(t),
    decreases files.len(),
{
    if files.len() > 0 {
        lemma_files_keep_duty(s, worker, n_worker, files.drop_last());
        match reduce_files(s, worker, n_worker, files.drop_last()) {
            Ok(t) => lemma_lines_keep_duty(t, worker, n_worker, files.last()),
            Err(_) => {},
        }
    }
}

/// A reducer keeps only the keys in its duty: every key of its result
/// falls to it.
pub proof fn lemma_reducer_keeps_its_keys(worker: usize, n_worker: usize, files: Seq<Seq<Seq<char>>>)
    ensures
        reduce_files(Seq::empty(), worker, n_worker, files) matches Ok(t) ==> all_in_duty(
            t,
            worker,
            n_worker,
        ),
{
    lemma_files_keep_duty(Seq::empty(), worker, n_worker, files);
}

/// A reducer's list is ordered by decreasing count, at most `CAPACITY`
/// long, with no key twice.
pub proof fn lemma_reducer_list_sorted(worker: usize, n_worker: usize, files: Seq<Seq<Seq<char>>>)
    ensures
        reduce_files(Seq::empty(), worker, n_worker, files) matches Ok(t) ==> sorted_desc(t)
            && top_list_inv(t),
{
    lemma_files_keep_duty(Seq::empty(), worker, n_worker, files);
}

/// Two different reducers never hold the same key: the reducers share the
/// keys out among them.
pub proof fn lemma_reducers_disjoint(
    w1: usize,
    w2: usize,
    n_worker: usize,
    files: Seq<Seq<Seq<char>>>,
    k: Seq<char>,
)
    requires
        w1 != w2,
        n_worker > 0,
    ensures
        (reduce_files(Seq::empty(), w1, n_worker, files) matches Ok(t1) && has_key(t1, k)) ==> !(
        reduce_files(Seq::empty(), w2, n_worker, files) matches Ok(t2) && has_key(t2, k)),
{
    lemma_reducer_keeps_its_keys(w1, n_worker, files);
    lemma_reducer_keeps_its_keys(w2, n_worker, files);
    if let Ok(t1) = reduce_files(Seq::empty(), w1, n_worker, files) {
        if let Ok(t2) = reduce_files(Seq::empty(), w2, n_worker, files) {
            if has_key(t1, k) && has_key(t2, k) {
                let i = choose|i: int| 0 <= i < t1.len() && t1[i].0 == k;
                let j = choose|j: int| 0 <= j < t2.len() && t2[j].0 == k;
                assert(in_duty(t1[i].0, w1, n_worker));
                assert(in_duty(t2[j].0, w2, n_worker));
            }
        }
    }
}

} // verus!
