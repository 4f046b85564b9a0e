//! Iterating through a giant file block by block.
//!
//! The file is read into a buffer of fixed capacity.  URLs are cut at the
//! divider byte (and, once the file has ended, at zero bytes).  A URL that
//! does not end within two buffers is a long URL: it is hashed as it is
//! read, stands in the output as `uranker://<hash>`, and its first position
//! and length in the file are recorded under its hash.
//!
//! The reading itself is done by the caller: [`IterReader`] decides, and
//! asks for the next block with [`ReadStep::Load`].

use crate::reader::{long_name, long_url_name};
use crate::text::string_push;
use std::collections::hash_map::DefaultHasher;
use std::collections::HashMap;
use std::hash::Hasher;
use vstd::prelude::*;
use vstd::std_specs::hash::DefaultHasherAdditionalSpecFns;
use vstd::utf8::encode_utf8;

verus! {

/// The capacity of the read buffer.
pub const BUF_SIZE: usize = 6291456;

/// Whether byte `x` ends a URL: the divider, or a zero byte once the file
/// has ended.
pub open spec fn is_stop(x: u8, div: u8, file_end: bool) -> bool {
    x == div || (x == 0 && file_end)
}

/// The first position at or after `i` that ends a URL (`b.len()` if none).
pub open spec fn next_stop(b: Seq<u8>, div: u8, fe: bool, i: int) -> int
    decreases b.len() - i,
{
    if i >= b.len() {
        b.len() as int
    } else if is_stop(b[i], div, fe) {
        i
    } else {
        next_stop(b, div, fe, i + 1)
    }
}

/// The first position at or after `i` that does not end a URL (`b.len()`
/// if none).
pub open spec fn next_nonstop(b: Seq<u8>, div: u8, fe: bool, i: int) -> int
    decreases b.len() - i,
{
    if i >= b.len() {
        b.len() as int
    } else if !is_stop(b[i], div, fe) {
        i
    } else {
        next_nonstop(b, div, fe, i + 1)
    }
}

/// Bytes read as characters, one character per byte.
pub open spec fn latin1(bytes: Seq<u8>) -> Seq<char> {
    bytes.map_values(|x: u8| x as char)
}

/// Picking a URL from buffer `b` from position `cur` on, continuing the
/// text `s`: the text, whether the URL ended, and the new position.
///
/// Stops at the start are skipped when the divider is the zero byte or
/// when a new URL begins (`last` and nothing read yet).  The URL then runs
/// to the next stop, which is consumed; without one, the rest of the buffer
/// is taken and the URL has not ended, unless the buffer is empty.
pub open spec fn pick_spec(b: Seq<u8>, div: u8, fe: bool, cur: int, s: Seq<char>, last: bool) -> (
    Seq<char>,
    bool,
    int,
) {
    let skipping = div == 0 || (last && s.len() == 0);
    let start = if skipping {
        next_nonstop(b, div, fe, cur)
    } else {
        cur
    };
    let j = next_stop(b, div, fe, start);
    if j < b.len() {
        (s + latin1(b.subrange(start, j)), true, j + 1)
    } else {
        (s + latin1(b.subrange(start, b.len() as int)), b.len() == 0, start)
    }
}

/// The next stop from `a` is `m` when none lies before it.
pub proof fn lemma_next_stop_at(b: Seq<u8>, div: u8, fe: bool, a: int, m: int)
    requires
        0 <= a <= m <= b.len(),
        forall|k: int| a <= k < m ==> !is_stop(#[trigger] b[k], div, fe),
        m == b.len() || is_stop(b[m], div, fe),
    ensures
        next_stop(b, div, fe, a) == m,
    decreases m - a,
{
    if a < m {
        lemma_next_stop_at(b, div, fe, a + 1, m);
    }
}

proof fn lemma_next_nonstop_at(b: Seq<u8>, div: u8, fe: bool, a: int, m: int)
    requires
        0 <= a <= m <= b.len(),
        forall|k: int| a <= k < m ==> is_stop(#[trigger] b[k], div, fe),
        m == b.len() || !is_stop(b[m], div, fe),
    ensures
        next_nonstop(b, div, fe, a) == m,
    decreases m - a,
{
    if a < m {
        lemma_next_nonstop_at(b, div, fe, a + 1, m);
    }
}

/// The next stop lies between `i` and the end, and is a stop.
pub proof fn lemma_next_stop_range(b: Seq<u8>, div: u8, fe: bool, i: int)
    requires
        0 <= i <= b.len(),
    ensures
        i <= next_stop(b, div, fe, i) <= b.len(),
        next_stop(b, div, fe, i) < b.len() ==> is_stop(b[next_stop(b, div, fe, i)], div, fe),
    decreases b.len() - i,
{
    if i < b.len() && !is_stop(b[i], div, fe) {
        lemma_next_stop_range(b, div, fe, i + 1);
    }
}

/// The next byte that is no stop lies between `i` and the end, and is no
/// stop.
pub proof fn lemma_next_nonstop_range(b: Seq<u8>, div: u8, fe: bool, i: int)
    requires
        0 <= i <= b.len(),
    ensures
        i <= next_nonstop(b, div, fe, i) <= b.len(),
        next_nonstop(b, div, fe, i) < b.len() ==> !is_stop(b[next_nonstop(b, div, fe, i)], div, fe),
    decreases b.len() - i,
{
    if i < b.len() && is_stop(b[i], div, fe) {
        lemma_next_nonstop_range(b, div, fe, i + 1);
    }
}

/// How far a pick moves and how much text it adds: a URL that ended
/// consumed its characters and the stop after them; one that did not took
/// the rest of the buffer.
pub proof fn lemma_pick_bounds(b: Seq<u8>, div: u8, fe: bool, cur: int, s: Seq<char>, last: bool)
    requires
        0 <= cur <= b.len(),
    ensures
        ({
            let p = pick_spec(b, div, fe, cur, s, last);
            &&& cur <= p.2 <= b.len()
            &&& p.0.len() >= s.len()
            &&& (p.1 && b.len() > 0) ==> p.0.len() - s.len() + 1 <= p.2 - cur
            &&& (p.1 && b.len() == 0) ==> p.0 == s && p.2 == cur
            &&& !p.1 ==> p.0.len() - s.len() == b.len() - p.2
        }),
{
    let skipping = div == 0 || (last && s.len() == 0);
    lemma_next_nonstop_range(b, div, fe, cur);
    let start = if skipping {
        next_nonstop(b, div, fe, cur)
    } else {
        cur
    };
    lemma_next_stop_range(b, div, fe, start);
    let j = next_stop(b, div, fe, start);
    if b.len() == 0 {
        assert(b.subrange(start, 0) =~= Seq::<u8>::empty());
        assert(s + latin1(b.subrange(start, 0)) =~= s);
    }
}

/// A new URL comes out whole: with a non-zero divider, when the buffer
/// from `cur` on holds `k` dividers, then the bytes `u` with no stop among
/// them, then the divider, picking a new URL skips the dividers, gives `u`
/// (one character per byte) and moves past the divider after it.
pub proof fn lemma_pick_whole_url(b: Seq<u8>, div: u8, fe: bool, cur: int, k: int, u: Seq<u8>)
    requires
        div != 0,
        0 <= cur,
        0 <= k,
        u.len() > 0,
        cur + k + u.len() < b.len(),
        forall|i: int| cur <= i < cur + k ==> b[i] == div,
        b.subrange(cur + k, cur + k + u.len()) == u,
        forall|i: int| 0 <= i < u.len() ==> !is_stop(#[trigger] u[i], div, fe),
        b[cur + k + u.len()] == div,
    ensures
        pick_spec(b, div, fe, cur, Seq::empty(), true) == (latin1(u), true, cur + k + u.len() + 1),
{
    let start = cur + k;
    let j = start + u.len();
    assert forall|i: int| cur <= i < start implies is_stop(#[trigger] b[i], div, fe) by {}
    assert(b[start] == u[0]);
    lemma_next_nonstop_at(b, div, fe, cur, start);
    assert forall|i: int| start <= i < j implies !is_stop(#[trigger] b[i], div, fe) by {
        assert(b[i] == u[i - start]);
    }
    lemma_next_stop_at(b, div, fe, start, j);
    assert(Seq::<char>::empty() + latin1(b.subrange(start, j)) =~= latin1(u));
}

/// A new URL that ends is never empty: the stops before it are skipped.
pub proof fn lemma_new_url_nonempty(b: Seq<u8>, div: u8, fe: bool, cur: int)
    requires
        0 <= cur <= b.len(),
    ensures
        pick_spec(b, div, fe, cur, Seq::empty(), true).1 && b.len() > 0 ==> pick_spec(
            b,
            div,
            fe,
            cur,
            Seq::empty(),
            true,
        ).0.len() > 0,
{
    lemma_next_nonstop_range(b, div, fe, cur);
    let start = next_nonstop(b, div, fe, cur);
    lemma_next_stop_range(b, div, fe, start);
    let j = next_stop(b, div, fe, start);
    if j < b.len() && start < b.len() {
        assert(j != start);
        assert(latin1(b.subrange(start, j)).len() > 0);
        assert((Seq::<char>::empty() + latin1(b.subrange(start, j))).len() > 0);
    }
}

/// Picks a URL from the buffer `buf` (the bytes of the last read, out of a
/// buffer of capacity `cap`) from position `cur` on, continuing `s`.
/// Returns the text, whether the URL ended, the new position, and how many
/// bytes of the buffer the text took.
pub fn buf_pick(buf: &Vec<u8>, cap: usize, div: u8, cur: usize, s: String, is_last_success: bool)
    -> (r: (String, bool, usize, usize))
    requires
        cur <= buf@.len(),
    ensures
        r.3 == r.0@.len() - s@.len(),
        (r.0@, r.1, r.2 as int) == pick_spec(
            buf@,
            div,
            buf@.len() < cap,
            cur as int,
            s@,
            is_last_success,
        ),
{
    let ghost s_in = s@;
    let ghost b = buf@;
    let len = buf.len();
    let file_end = len < cap;
    let ghost fe = file_end;
    let ghost skipping = div == 0 || (is_last_success && s_in.len() == 0);
    let mut prev: u8 = 0;
    let mut text = s;
    let mut new_cur = cur;
    let mut i = cur;
    while i < len
        invariant
            b == buf@,
            s_in == s@,
            len == b.len(),
            fe == (len < cap),
            file_end == fe,
            skipping == (div == 0 || (is_last_success && s_in.len() == 0)),
            cur <= new_cur <= i <= len,
            forall|k: int| new_cur <= k < i ==> !is_stop(#[trigger] b[k], div, fe),
            text@ == s_in + latin1(b.subrange(new_cur as int, i as int)),
            skipping ==> forall|k: int| cur <= k < new_cur ==> is_stop(#[trigger] b[k], div, fe),
            !skipping ==> new_cur == cur,
            i > new_cur ==> prev == b[i - 1],
            i == new_cur ==> prev == 0,
        decreases len - i,
    {
        let x = buf[i];
        if x == div || (x == 0 && file_end) {
            if prev == div || (is_last_success && text.as_str().is_empty()) {
                proof {
                    if i > new_cur {
                        assert(latin1(b.subrange(new_cur as int, i as int)).len() > 0);
                        assert(!is_stop(b[i - 1], div, fe));
                        assert(false);
                    }
                    assert(skipping);
                }
                new_cur = new_cur + 1;
                assert(b.subrange(new_cur as int, i + 1) =~= Seq::<u8>::empty());
                assert(text@ =~= s_in + latin1(b.subrange(new_cur as int, i + 1)));
                i += 1;
                continue;
            }
            proof {
                if i == new_cur {
                    assert(text@ =~= s_in);
                } else {
                    assert(!is_stop(b[i - 1], div, fe));
                    assert(latin1(b.subrange(new_cur as int, i as int)).len() > 0);
                }
                lemma_next_stop_at(b, div, fe, new_cur as int, i as int);
                if skipping {
                    if i > new_cur {
                        assert(!is_stop(b[new_cur as int], div, fe));
                        lemma_next_nonstop_at(b, div, fe, cur as int, new_cur as int);
                    } else {
                        assert(text@ == s_in);
                        assert(prev == 0);
                        assert(false);
                    }
                }
            }
            return (text, true, i + 1, i - new_cur);
        }
        string_push(&mut text, x as char);
        prev = x;
        proof {
            assert(latin1(b.subrange(new_cur as int, i + 1)) =~= latin1(
                b.subrange(new_cur as int, i as int),
            ).push(x as char));
            assert(text@ =~= s_in + latin1(b.subrange(new_cur as int, i + 1)));
            if skipping && i == new_cur {
                lemma_next_nonstop_at(b, div, fe, cur as int, new_cur as int);
            }
        }
        i += 1;
    }
    proof {
        lemma_next_stop_at(b, div, fe, new_cur as int, len as int);
        if skipping {
            if new_cur < len {
                assert(!is_stop(b[new_cur as int], div, fe));
            }
            lemma_next_nonstop_at(b, div, fe, cur as int, new_cur as int);
        }
    }
    if len == 0 {
        return (text, true, new_cur, len - new_cur);
    }
    (text, false, new_cur, len - new_cur)
}


/// Where the reader is within the reading of one URL.
pub enum StageView {
    /// Between URLs.
    Idle,
    /// Waiting for a block, the current one being used up.
    AwaitFirst,
    /// Waiting for the block in which the URL begun with this text goes on;
    /// the URL begins at this position in the file.
    AwaitSecond(Seq<char>, nat),
    /// Reading a long URL: what was written to its hasher, the position in
    /// the file at which it begins, and its length in bytes so far.
    AwaitLong(Seq<Seq<u8>>, nat, nat),
}

/// What the reader asks for or gives, as the contracts see it.
pub enum StepView {
    /// Read the next block of the file.
    Load,
    /// The next URL.
    Yield(Seq<char>),
    /// The file is done.
    End,
}

/// The abstract state of a reader.
pub struct ReaderState {
    /// The byte that divides URLs.
    pub div: u8,
    /// The capacity of the buffer.
    pub cap: nat,
    /// The bytes of the last block read.
    pub buf: Seq<u8>,
    /// Where the next URL begins in the buffer.
    pub cur: nat,
    /// The long URLs: hash to (first position in the file, length in bytes).
    pub long_urls: Map<u64, (usize, usize)>,
    /// Where the reader is within a URL.
    pub stage: StageView,
    /// How many bytes of the file were read in all.
    pub loaded: nat,
}

/// Whether the file has ended: the last block did not fill the buffer.
pub open spec fn file_ended(v: ReaderState) -> bool {
    v.buf.len() < v.cap
}

/// The position in the file of the byte at position `i` of the buffer.
pub open spec fn file_pos(v: ReaderState, i: int) -> int {
    v.loaded - v.buf.len() + i
}

/// Picks a new URL from the buffer: it is given if it ended there, or
/// else the next block is asked for, keeping what was read of it and the
/// position in the file at which it begins.
pub open spec fn first_pick_spec(v: ReaderState) -> (ReaderState, StepView) {
    let p = pick_spec(v.buf, v.div, file_ended(v), v.cur as int, Seq::empty(), true);
    if p.1 {
        (ReaderState { cur: p.2 as nat, stage: StageView::Idle, ..v }, StepView::Yield(p.0))
    } else {
        if p.0.len() == 0 {
            (ReaderState { cur: p.2 as nat, stage: StageView::AwaitFirst, ..v }, StepView::Load)
        } else {
            (
                ReaderState {
                    cur: p.2 as nat,
                    stage: StageView::AwaitSecond(p.0, file_pos(v, p.2) as nat),
                    ..v
                },
                StepView::Load,
            )
        }
    }
}

/// Asking for the next URL: when the buffer is used up a block is asked
/// for, else a URL is picked from it.
pub open spec fn next_spec(v: ReaderState) -> (ReaderState, StepView) {
    if v.cur >= v.buf.len() {
        (ReaderState { stage: StageView::AwaitFirst, ..v }, StepView::Load)
    } else {
        first_pick_spec(v)
    }
}

/// Going on, in a freshly read buffer, with the URL begun with `s` at
/// position `pos` of the file: it is given if it ended there, or else it is
/// a long URL, whose hashing starts with what was read of it.
pub open spec fn second_pick_spec(w: ReaderState, s: Seq<char>, pos: nat) -> (
    ReaderState,
    StepView,
) {
    let p = pick_spec(w.buf, w.div, file_ended(w), 0, s, false);
    if p.1 {
        (ReaderState { cur: p.2 as nat, stage: StageView::Idle, ..w }, StepView::Yield(p.0))
    } else {
        (
            ReaderState {
                cur: p.2 as nat,
                stage: StageView::AwaitLong(seq![encode_utf8(p.0)], pos, p.0.len()),
                ..w
            },
            StepView::Load,
        )
    }
}

/// Going on, in a freshly read buffer, with a long URL that begins at
/// position `pos` of the file, with hasher input `h` and length `sl` so far:
/// when it ends, its name is given and its position and length are recorded
/// under its hash, unless that hash is recorded already; else the next block
/// is asked for.
pub open spec fn long_pick_spec(w: ReaderState, h: Seq<Seq<u8>>, pos: nat, sl: nat) -> (
    ReaderState,
    StepView,
) {
    let p = pick_spec(w.buf, w.div, file_ended(w), 0, Seq::empty(), false);
    let h2 = h.push(encode_utf8(p.0));
    let sl2 = sl + p.0.len();
    if p.1 {
        let hv = DefaultHasher::spec_finish(h2);
        (
            ReaderState {
                cur: p.2 as nat,
                long_urls: if w.long_urls.contains_key(hv) {
                    w.long_urls
                } else {
                    w.long_urls.insert(hv, (pos as usize, sl2 as usize))
                },
                stage: StageView::Idle,
                ..w
            },
            StepView::Yield(long_name(hv)),
        )
    } else {
        (
            ReaderState { cur: p.2 as nat, stage: StageView::AwaitLong(h2, pos, sl2), ..w },
            StepView::Load,
        )
    }
}

/// A buffer was just read into: what holds before it is used.
pub open spec fn fresh_inv(w: ReaderState) -> bool {
    &&& w.buf.len() <= w.cap
    &&& w.cur == 0
    &&& w.buf.len() <= w.loaded
    &&& w.loaded <= usize::MAX
    &&& w.stage == StageView::Idle
}

/// Receiving the block `data` that the reader asked for.
pub open spec fn load_spec(v: ReaderState, data: Seq<u8>) -> (ReaderState, StepView) {
    let w = ReaderState { buf: data, cur: 0, loaded: v.loaded + data.len(), ..v };
    match v.stage {
        StageView::AwaitFirst => if data.len() == 0 {
            (ReaderState { stage: StageView::Idle, ..w }, StepView::End)
        } else {
            first_pick_spec(ReaderState { stage: StageView::Idle, ..w })
        },
        StageView::AwaitSecond(s, pos) => second_pick_spec(
            ReaderState { stage: StageView::Idle, ..w },
            s,
            pos,
        ),
        StageView::AwaitLong(h, pos, sl) => long_pick_spec(
            ReaderState { stage: StageView::Idle, ..w },
            h,
            pos,
            sl,
        ),
        StageView::Idle => (v, StepView::Load),
    }
}

/// Reading `n` more bytes keeps the count of bytes read within `usize`.
pub open spec fn load_fits(v: ReaderState, n: nat) -> bool {
    v.loaded + n <= usize::MAX
}

/// Between URLs, a URL followed by the divider comes out whole: when the
/// buffer from the current position holds `k` dividers, then the bytes `u`
/// with no stop among them, then the divider, asking for the next URL gives
/// `u` (one character per byte) and moves past its divider.
pub proof fn lemma_next_gives_whole_url(v: ReaderState, k: int, u: Seq<u8>)
    requires
        reader_inv(v),
        v.stage == StageView::Idle,
        v.div != 0,
        0 <= k,
        u.len() > 0,
        v.cur + k + u.len() < v.buf.len(),
        forall|i: int| v.cur <= i < v.cur + k ==> v.buf[i] == v.div,
        v.buf.subrange(v.cur + k, v.cur + k + u.len()) == u,
        forall|i: int| 0 <= i < u.len() ==> !is_stop(#[trigger] u[i], v.div, file_ended(v)),
        v.buf[v.cur + k + u.len()] == v.div,
    ensures
        next_spec(v).1 == StepView::Yield(latin1(u)),
        next_spec(v).0.cur == v.cur + k + u.len() + 1,
        next_spec(v).0.stage == StageView::Idle,
{
    lemma_pick_whole_url(v.buf, v.div, file_ended(v), v.cur as int, k, u);
}

/// Where a reader is within the reading of one URL.
pub enum Stage {
    /// Between URLs.
    Idle,
    /// Waiting for a block, the current one being used up.
    AwaitFirst,
    /// Waiting for the block in which the URL begun with this text, at this
    /// position of the file, goes on.
    AwaitSecond(String, usize),
    /// Reading a long URL: its hasher, its position in the file and its
    /// length so far.
    AwaitLong(DefaultHasher, usize, usize),
}

/// What a reader asks for or gives.
pub enum ReadStep {
    /// Read the next block of the file (at most the capacity) and hand it
    /// to [`IterReader::load`].
    Load,
    /// The next URL.
    Yield(String),
    /// The file is done.
    End,
}

impl ReadStep {
    /// The abstract form of a step.
    pub open spec fn view(&self) -> StepView {
        match self {
            ReadStep::Load => StepView::Load,
            ReadStep::Yield(s) => StepView::Yield(s@),
            ReadStep::End => StepView::End,
        }
    }
}

/// The abstract form of a stage.
pub open spec fn stage_view(st: Stage) -> StageView {
    match st {
        Stage::Idle => StageView::Idle,
        Stage::AwaitFirst => StageView::AwaitFirst,
        Stage::AwaitSecond(s, pos) => StageView::AwaitSecond(s@, pos as nat),
        Stage::AwaitLong(h, pos, sl) => StageView::AwaitLong(h@, pos as nat, sl as nat),
    }
}

/// Iterates through a giant file: the decisions of reading it.
pub struct IterReader {
    divider: u8,
    cap: usize,
    buf: Vec<u8>,
    cur: usize,
    long_urls: HashMap<u64, (usize, usize)>,
    stage: Stage,
    loaded: usize,
}

/// What holds of a reader's state between calls: the buffer is the last
/// part of what was read, and a URL under way lies within what was read.
pub open spec fn reader_inv(v: ReaderState) -> bool {
    &&& v.buf.len() <= v.cap
    &&& v.cur <= v.buf.len()
    &&& v.buf.len() <= v.loaded
    &&& v.loaded <= usize::MAX
    &&& match v.stage {
        StageView::Idle => true,
        StageView::AwaitFirst => v.cur >= v.buf.len(),
        StageView::AwaitSecond(s, pos) => s.len() > 0 && pos + s.len() == v.loaded,
        StageView::AwaitLong(_, pos, sl) => pos + sl <= v.loaded,
    }
}

impl View for IterReader {
    type V = ReaderState;

    closed spec fn view(&self) -> ReaderState {
        ReaderState {
            div: self.divider,
            cap: self.cap as nat,
            buf: self.buf@,
            cur: self.cur as nat,
            long_urls: self.long_urls@,
            stage: stage_view(self.stage),
            loaded: self.loaded as nat,
        }
    }
}

/// The state of a fresh reader of URLs divided by `div`, with a buffer of
/// capacity `cap`.
pub open spec fn initial_state(div: u8, cap: nat) -> ReaderState {
    ReaderState {
        div,
        cap,
        buf: Seq::empty(),
        cur: 0,
        long_urls: Map::empty(),
        stage: StageView::Idle,
        loaded: 0,
    }
}

impl IterReader {
    /// A reader of URLs divided by `div`, with a buffer of capacity `cap`.
    pub fn new_with_capacity(div: u8, cap: usize) -> (r: Self)
        ensures
            r@ == initial_state(div, cap as nat),
            reader_inv(r@),
    {
        IterReader {
            divider: div,
            cap,
            buf: Vec::new(),
            cur: 0,
            long_urls: HashMap::new(),
            stage: Stage::Idle,
            loaded: 0,
        }
    }

    /// A reader of URLs divided by `div`, with a buffer of [`BUF_SIZE`].
    pub fn new(div: u8) -> (r: Self)
        ensures
            r@ == initial_state(div, BUF_SIZE as nat),
            reader_inv(r@),
    {
        Self::new_with_capacity(div, BUF_SIZE)
    }

    /// The capacity of the buffer: how much to read at most per block.
    pub fn capacity(&self) -> (r: usize)
        ensures
            r == self@.cap,
    {
        self.cap
    }

    /// The long URLs recorded: hash to (first position, length).
    pub fn long_urls(&self) -> (r: &HashMap<u64, (usize, usize)>)
        ensures
            r@ == self@.long_urls,
    {
        &self.long_urls
    }

    /// Whether a block of `n` bytes can be taken in.
    pub fn can_load(&self, n: usize) -> (r: bool)
        requires
            reader_inv(self@),
        ensures
            r == load_fits(self@, n as nat),
    {
        n <= usize::MAX - self.loaded
    }

    /// Picks a new URL from a non-empty buffer.
    fn first_pick(&mut self) -> (r: ReadStep)
        requires
            reader_inv(old(self)@),
            old(self)@.stage == StageView::Idle,
            old(self)@.cur < old(self)@.buf.len(),
        ensures
            reader_inv(final(self)@),
            (final(self)@, r.view()) == first_pick_spec(old(self)@),
            r.view() matches StepView::Yield(t) ==> t.len() > 0,
    {
        let ghost v = self@;
        let (s, full, c, _n) = buf_pick(
            &self.buf,
            self.cap,
            self.divider,
            self.cur,
            String::new(),
            true,
        );
        proof {
            lemma_pick_bounds(v.buf, v.div, file_ended(v), v.cur as int, Seq::empty(), true);
            lemma_new_url_nonempty(v.buf, v.div, file_ended(v), v.cur as int);
        }
        self.cur = c;
        if full {
            ReadStep::Yield(s)
        } else if s.as_str().is_empty() {
            self.stage = Stage::AwaitFirst;
            ReadStep::Load
        } else {
            let pos = self.loaded - self.buf.len() + c;
            self.stage = Stage::AwaitSecond(s, pos);
            ReadStep::Load
        }
    }

    /// Goes on with the URL begun with `s` at position `pos` of the file, in
    /// a freshly read buffer.
    fn second_pick(&mut self, s: String, pos: usize) -> (r: ReadStep)
        requires
            fresh_inv(old(self)@),
            s@.len() > 0,
            pos + s@.len() + old(self)@.buf.len() == old(self)@.loaded,
        ensures
            reader_inv(final(self)@),
            (final(self)@, r.view()) == second_pick_spec(old(self)@, s@, pos as nat),
            r.view() matches StepView::Yield(t) ==> t.len() > 0,
    {
        let ghost w = self@;
        let ghost s0 = s@;
        let (s2, full, c, n) = buf_pick(&self.buf, self.cap, self.divider, 0, s, false);
        proof {
            lemma_pick_bounds(w.buf, w.div, file_ended(w), 0, s0, false);
        }
        self.cur = c;
        if full {
            ReadStep::Yield(s2)
        } else {
            let mut h = DefaultHasher::new();
            h.write(s2.as_str().as_bytes());
            let sl = (self.loaded - self.buf.len() - pos) + n;
            self.stage = Stage::AwaitLong(h, pos, sl);
            ReadStep::Load
        }
    }

    /// Goes on with a long URL that begins at position `pos` of the file, in
    /// a freshly read buffer.
    fn long_pick(&mut self, h: DefaultHasher, pos: usize, sl: usize) -> (r: ReadStep)
        requires
            fresh_inv(old(self)@),
            pos + sl + old(self)@.buf.len() <= old(self)@.loaded,
        ensures
            reader_inv(final(self)@),
            (final(self)@, r.view()) == long_pick_spec(old(self)@, h@, pos as nat, sl as nat),
            r.view() matches StepView::Yield(t) ==> t.len() > 0,
    {
        broadcast use vstd::std_specs::hash::group_hash_axioms;

        let ghost w = self@;
        let mut h = h;
        let (t, full, c, n) = buf_pick(
            &self.buf,
            self.cap,
            self.divider,
            0,
            String::new(),
            false,
        );
        proof {
            lemma_pick_bounds(w.buf, w.div, file_ended(w), 0, Seq::empty(), false);
        }
        self.cur = c;
        let sl2 = sl + n;
        h.write(t.as_str().as_bytes());
        if full {
            let hv = h.finish();
            let name = long_url_name(hv);
            if !self.long_urls.contains_key(&hv) {
                self.long_urls.insert(hv, (pos, sl2));
            }
            ReadStep::Yield(name)
        } else {
            self.stage = Stage::AwaitLong(h, pos, sl2);
            ReadStep::Load
        }
    }

    /// Asks for the next URL, between URLs.
    pub fn next_step(&mut self) -> (r: ReadStep)
        requires
            reader_inv(old(self)@),
            old(self)@.stage == StageView::Idle,
        ensures
            reader_inv(final(self)@),
            (final(self)@, r.view()) == next_spec(old(self)@),
            r.view() matches StepView::Yield(t) ==> t.len() > 0,
    {
        if self.cur >= self.buf.len() {
            self.stage = Stage::AwaitFirst;
            return ReadStep::Load;
        }
        self.first_pick()
    }

    /// Takes in the block of the file that the reader asked for.
    pub fn load(&mut self, data: Vec<u8>) -> (r: ReadStep)
        requires
            reader_inv(old(self)@),
            old(self)@.stage != StageView::Idle,
            data@.len() <= old(self)@.cap,
            load_fits(old(self)@, data@.len()),
        ensures
            reader_inv(final(self)@),
            (final(self)@, r.view()) == load_spec(old(self)@, data@),
            r.view() matches StepView::Yield(t) ==> t.len() > 0,
    {
        let n = data.len();
        let mut stage = Stage::Idle;
        std::mem::swap(&mut stage, &mut self.stage);
        self.buf = data;
        self.cur = 0;
        self.loaded = self.loaded + n;
        match stage {
            Stage::AwaitFirst => {
                if n == 0 {
                    ReadStep::End
                } else {
                    self.first_pick()
                }
            },
            Stage::AwaitSecond(s, pos) => self.second_pick(s, pos),
            Stage::AwaitLong(h, pos, sl) => self.long_pick(h, pos, sl),
            Stage::Idle => ReadStep::Load,
        }
    }
}

} // verus!
