//! Reading a whole file: what a reader gives when it is driven to the end,
//! block after block.

use crate::reader::iter_reader::{
    file_ended, initial_state, is_stop, latin1, lemma_next_nonstop_range, lemma_next_stop_at,
    lemma_next_stop_range, load_fits, load_spec, next_nonstop, next_spec, next_stop, ReaderState,
    StageView, StepView,
};
use crate::reader::long_name;
use std::collections::hash_map::DefaultHasher;
use vstd::prelude::*;
use vstd::std_specs::hash::DefaultHasherAdditionalSpecFns;
use vstd::utf8::encode_utf8;

verus! {

/// The URLs in the bytes `r`, which follow the bytes `piece` of a URL under
/// way: the text is split at the divider, empty pieces are skipped, and each
/// URL is read one character per byte.
pub open spec fn urls_after(r: Seq<u8>, div: u8, piece: Seq<u8>) -> Seq<Seq<char>>
    decreases r.len(),
{
    if r.len() == 0 {
        if piece.len() > 0 {
            seq![latin1(piece)]
        } else {
            Seq::empty()
        }
    } else if r[0] == div {
        let later = urls_after(r.drop_first(), div, Seq::empty());
        if piece.len() > 0 {
            seq![latin1(piece)] + later
        } else {
            later
        }
    } else {
        urls_after(r.drop_first(), div, piece.push(r[0]))
    }
}

/// The URLs of the file `f`: its pieces between dividers that are not
/// empty, in order.
pub open spec fn urls(f: Seq<u8>, div: u8) -> Seq<Seq<char>> {
    urls_after(f, div, Seq::empty())
}

/// The size of the block that a driver reads next: the capacity, or what
/// is left of the file when that is less.
pub open spec fn block_len(v: ReaderState, rest: Seq<u8>) -> nat {
    if rest.len() < v.cap {
        rest.len()
    } else {
        v.cap
    }
}

/// One call that a driver makes, with `rest` the part of the file not read
/// yet: between URLs it asks for the next one; else it reads the next block
/// and hands it over.  The new state, the answer, and what is left unread.
pub open spec fn drive_step(v: ReaderState, rest: Seq<u8>) -> (ReaderState, StepView, Seq<u8>) {
    if v.stage == StageView::Idle {
        let p = next_spec(v);
        (p.0, p.1, rest)
    } else {
        let n = block_len(v, rest) as int;
        let p = load_spec(v, rest.take(n));
        (p.0, p.1, rest.skip(n))
    }
}

/// Driving a reader for at most `fuel` calls over the unread part `rest` of
/// a file: the URLs it gives, in order, and whether it said that the file is
/// done.  The driver stops short when a block would not fit the reader's
/// count of bytes read.
pub open spec fn run(v: ReaderState, rest: Seq<u8>, fuel: nat) -> (Seq<Seq<char>>, bool)
    decreases fuel,
{
    if fuel == 0 {
        (Seq::empty(), false)
    } else if v.stage != StageView::Idle && !load_fits(v, block_len(v, rest)) {
        (Seq::empty(), false)
    } else {
        let st = drive_step(v, rest);
        let more = run(st.0, st.2, (fuel - 1) as nat);
        match st.1 {
            StepView::End => (Seq::empty(), true),
            StepView::Yield(u) => (seq![u] + more.0, more.1),
            StepView::Load => more,
        }
    }
}

/// The state in which a driver leaves a reader after at most `fuel` calls
/// over the unread part `rest` of a file: the state in which the reader said
/// that the file is done, if it did.
pub open spec fn run_state(v: ReaderState, rest: Seq<u8>, fuel: nat) -> ReaderState
    decreases fuel,
{
    if fuel == 0 {
        v
    } else if v.stage != StageView::Idle && !load_fits(v, block_len(v, rest)) {
        v
    } else {
        let st = drive_step(v, rest);
        if st.1 is End {
            st.0
        } else {
            run_state(st.0, st.2, (fuel - 1) as nat)
        }
    }
}

/// Whether a divider lies among the `cap` bytes of `f` from position `i`.
pub open spec fn has_div_in(f: Seq<u8>, div: u8, i: int, cap: nat) -> bool {
    exists|k: int| i <= k < i + cap && 0 <= k < f.len() && f[k] == div
}

/// A file without long URLs for a reader with a buffer of `cap` bytes: it
/// holds no zero byte, it ends with the divider (or is empty), and every
/// `cap` bytes in a row hold a divider.
pub open spec fn fits_blocks(f: Seq<u8>, div: u8, cap: nat) -> bool {
    &&& forall|i: int| 0 <= i < f.len() ==> #[trigger] f[i] != 0
    &&& f.len() == 0 || f.last() == div
    &&& forall|i: int| 0 <= i && i + cap <= f.len() ==> #[trigger] has_div_in(f, div, i, cap)
}

/// What follows a position of a file without long URLs has none either.
proof fn lemma_fits_skip(f: Seq<u8>, div: u8, cap: nat, d: int)
    requires
        fits_blocks(f, div, cap),
        0 <= d <= f.len(),
    ensures
        fits_blocks(f.skip(d), div, cap),
{
    let g = f.skip(d);
    assert forall|i: int| 0 <= i < g.len() implies #[trigger] g[i] != 0 by {
        assert(g[i] == f[i + d]);
    }
    if g.len() > 0 {
        assert(g.last() == f[f.len() - 1]);
    }
    assert forall|i: int| 0 <= i && i + cap <= g.len() implies #[trigger] has_div_in(
        g,
        div,
        i,
        cap,
    ) by {
        assert(has_div_in(f, div, i + d, cap));
        let k = choose|k: int| i + d <= k < i + d + cap && 0 <= k < f.len() && f[k] == div;
        assert(g[k - d] == f[k]);
    }
}

/// Every byte skipped on the way to the next byte that is no stop is a stop.
proof fn lemma_nonstop_all(b: Seq<u8>, div: u8, fe: bool, i: int)
    requires
        0 <= i <= b.len(),
    ensures
        forall|k: int| i <= k < next_nonstop(b, div, fe, i) ==> is_stop(#[trigger] b[k], div, fe),
    decreases b.len() - i,
{
    if i < b.len() && is_stop(b[i], div, fe) {
        lemma_nonstop_all(b, div, fe, i + 1);
    }
}

/// No byte before the next stop is a stop.
proof fn lemma_stop_all(b: Seq<u8>, div: u8, fe: bool, i: int)
    requires
        0 <= i <= b.len(),
    ensures
        forall|k: int| i <= k < next_stop(b, div, fe, i) ==> !is_stop(#[trigger] b[k], div, fe),
    decreases b.len() - i,
{
    if i < b.len() && !is_stop(b[i], div, fe) {
        lemma_stop_all(b, div, fe, i + 1);
    }
}

/// A URL under way that ends at the divider at position `m` comes out
/// whole, and the URLs after it follow.
proof fn lemma_take_url(r: Seq<u8>, div: u8, m: int, piece: Seq<u8>)
    requires
        0 <= m < r.len(),
        piece.len() + m > 0,
        forall|i: int| 0 <= i < m ==> #[trigger] r[i] != div,
        r[m] == div,
    ensures
        urls_after(r, div, piece) == seq![latin1(piece + r.take(m))] + urls_after(
            r.skip(m + 1),
            div,
            Seq::empty(),
        ),
    decreases m,
{
    if m == 0 {
        assert(piece + r.take(0) =~= piece);
        assert(r.skip(1) =~= r.drop_first());
    } else {
        let t = r.drop_first();
        assert forall|i: int| 0 <= i < m - 1 implies #[trigger] t[i] != div by {
            assert(t[i] == r[i + 1]);
        }
        assert(r[0] != div);
        lemma_take_url(t, div, m - 1, piece.push(r[0]));
        assert(piece.push(r[0]) + t.take(m - 1) =~= piece + r.take(m));
        assert(t.skip(m) =~= r.skip(m + 1));
    }
}

/// The smaller of `a` and `b`.
pub open spec fn min_int(a: int, b: int) -> int {
    if a < b {
        a
    } else {
        b
    }
}

/// What a long URL writes to its hasher after its first two blocks, when
/// its divider is at position `d` of the bytes `r` that follow them: each
/// full block of `cap` bytes, then the part of the last block before the
/// divider.
pub open spec fn chunks_from(r: Seq<u8>, d: nat, cap: nat) -> Seq<Seq<u8>>
    decreases d,
{
    if cap == 0 || d < cap {
        seq![encode_utf8(latin1(r.take(d as int)))]
    } else {
        seq![encode_utf8(latin1(r.take(cap as int)))] + chunks_from(
            r.skip(cap as int),
            (d - cap) as nat,
            cap,
        )
    }
}

/// What a long URL that runs to the end of the file writes to its hasher
/// after its first two blocks, `r` being the rest of the file: each later
/// block, then nothing from the empty read at the end.
pub open spec fn tail_chunks(r: Seq<u8>, cap: nat) -> Seq<Seq<u8>>
    decreases r.len(),
{
    if r.len() == 0 || cap == 0 {
        seq![encode_utf8(latin1(r))]
    } else {
        let n = min_int(cap as int, r.len() as int);
        seq![encode_utf8(latin1(r.take(n)))] + tail_chunks(r.skip(n), cap)
    }
}

/// Where the block that holds position `d` begins, blocks of `cap` bytes
/// beginning at 0.
pub open spec fn last_block_start(d: nat, cap: nat) -> nat
    decreases d,
{
    if cap == 0 || d < cap {
        0
    } else {
        cap + last_block_start((d - cap) as nat, cap)
    }
}

/// The URLs of the bytes `r` as a reader with a buffer of `cap` bytes gives
/// them, `e` bytes of `r` being left in the block at hand and the file going
/// on in blocks of `cap` bytes.  Dividers are skipped; a URL that ends
/// within the block where it begins, or within the next, is given whole
/// (one character per byte); one that runs on further is long, and is given
/// as the name of the hash of what was written to its hasher: its first two
/// blocks' part together, then each later block's part.  The file may end
/// without a divider: its last URL then ends with it.
pub open spec fn urls_in(r: Seq<u8>, e: nat, div: u8, cap: nat) -> Seq<Seq<char>>
    decreases r.len(), if e == 0 {
        1int
    } else {
        0int
    },
{
    if r.len() == 0 || cap == 0 {
        Seq::empty()
    } else if e == 0 {
        urls_in(r, min_int(cap as int, r.len() as int) as nat, div, cap)
    } else if r[0] == div {
        urls_in(r.drop_first(), (e - 1) as nat, div, cap)
    } else {
        proof {
            lemma_next_stop_range(r, div, false, 0);
        }
        let d = next_stop(r, div, false, 0);
        if d >= r.len() {
            if e >= r.len() {
                seq![latin1(r)]
            } else {
                let m = min_int((e + cap) as int, r.len() as int);
                seq![
                    long_name(
                        DefaultHasher::spec_finish(
                            seq![encode_utf8(latin1(r.take(m)))] + tail_chunks(r.skip(m), cap),
                        ),
                    ),
                ]
            }
        } else if d < e {
            seq![latin1(r.take(d))] + urls_in(r.skip(d + 1), (e - d - 1) as nat, div, cap)
        } else if d < e + cap {
            seq![latin1(r.take(d))] + urls_in(
                r.skip(d + 1),
                (min_int((e + cap) as int, r.len() as int) - d - 1) as nat,
                div,
                cap,
            )
        } else {
            let dd = (d - e - cap) as nat;
            let h = seq![encode_utf8(latin1(r.take((e + cap) as int)))] + chunks_from(
                r.skip((e + cap) as int),
                dd,
                cap,
            );
            let bs = e + cap + last_block_start(dd, cap);
            seq![long_name(DefaultHasher::spec_finish(h))] + urls_in(
                r.skip(d + 1),
                (min_int((bs + cap) as int, r.len() as int) - d - 1) as nat,
                div,
                cap,
            )
        }
    }
}

/// Recording a long URL with hash `hv`, position `pos` in the file and
/// length `len` in the log, unless its hash is there already.
pub open spec fn record_long(log: Map<u64, (usize, usize)>, hv: u64, pos: int, len: int) -> Map<
    u64,
    (usize, usize),
> {
    if log.contains_key(hv) {
        log
    } else {
        log.insert(hv, (pos as usize, len as usize))
    }
}

/// The log of long URLs after a reader has taken apart the bytes `r`, which
/// begin at position `off` of the file, `e` of them being left in the block
/// at hand, starting from the log `log`: each long URL (see [`urls_in`]) is
/// recorded under its hash with the position in the file of its first byte
/// and its length in bytes, the first time its hash comes.
pub open spec fn log_in(
    r: Seq<u8>,
    e: nat,
    off: int,
    div: u8,
    cap: nat,
    log: Map<u64, (usize, usize)>,
) -> Map<u64, (usize, usize)>
    decreases r.len(), if e == 0 {
        1int
    } else {
        0int
    },
{
    if r.len() == 0 || cap == 0 {
        log
    } else if e == 0 {
        log_in(r, min_int(cap as int, r.len() as int) as nat, off, div, cap, log)
    } else if r[0] == div {
        log_in(r.drop_first(), (e - 1) as nat, off + 1, div, cap, log)
    } else {
        proof {
            lemma_next_stop_range(r, div, false, 0);
        }
        let d = next_stop(r, div, false, 0);
        if d >= r.len() {
            if e >= r.len() {
                log
            } else {
                let m = min_int((e + cap) as int, r.len() as int);
                record_long(
                    log,
                    DefaultHasher::spec_finish(
                        seq![encode_utf8(latin1(r.take(m)))] + tail_chunks(r.skip(m), cap),
                    ),
                    off,
                    r.len() as int,
                )
            }
        } else if d < e {
            log_in(r.skip(d + 1), (e - d - 1) as nat, off + d + 1, div, cap, log)
        } else if d < e + cap {
            log_in(
                r.skip(d + 1),
                (min_int((e + cap) as int, r.len() as int) - d - 1) as nat,
                off + d + 1,
                div,
                cap,
                log,
            )
        } else {
            let dd = (d - e - cap) as nat;
            let h = seq![encode_utf8(latin1(r.take((e + cap) as int)))] + chunks_from(
                r.skip((e + cap) as int),
                dd,
                cap,
            );
            let bs = e + cap + last_block_start(dd, cap);
            log_in(
                r.skip(d + 1),
                (min_int((bs + cap) as int, r.len() as int) - d - 1) as nat,
                off + d + 1,
                div,
                cap,
                record_long(log, DefaultHasher::spec_finish(h), off, d),
            )
        }
    }
}

/// The log of long URLs that a reader with a buffer of `cap` bytes keeps
/// of the file `f`.
pub open spec fn file_log(f: Seq<u8>, div: u8, cap: nat) -> Map<u64, (usize, usize)> {
    log_in(f, 0, 0, div, cap, Map::empty())
}

/// The URLs that a reader with a buffer of `cap` bytes gives of the file
/// `f`.
pub open spec fn file_urls(f: Seq<u8>, div: u8, cap: nat) -> Seq<Seq<char>> {
    urls_in(f, 0, div, cap)
}

/// A file that a reader takes apart at its dividers alone: it holds no zero
/// byte.
pub open spec fn file_ok(f: Seq<u8>) -> bool {
    forall|i: int| 0 <= i < f.len() ==> #[trigger] f[i] != 0
}

/// What follows a position of a file that a reader takes apart at its
/// dividers alone is such a file too.
proof fn lemma_file_ok_skip(f: Seq<u8>, d: int)
    requires
        file_ok(f),
        0 <= d <= f.len(),
    ensures
        file_ok(f.skip(d)),
{
    let g = f.skip(d);
    assert forall|i: int| 0 <= i < g.len() implies #[trigger] g[i] != 0 by {
        assert(g[i] == f[i + d]);
    }
}

/// What a reader between URLs has still to take apart: the rest of its
/// buffer, then the unread part of the file.
pub open spec fn remaining(v: ReaderState, rest: Seq<u8>) -> Seq<u8> {
    v.buf.skip(v.cur as int) + rest
}

/// The position in the file of what a reader between URLs has still to
/// take apart.
pub open spec fn offset(v: ReaderState) -> int {
    v.loaded - v.buf.len() + v.cur
}

/// How many bytes are left in the reader's buffer.
pub open spec fn buf_left(v: ReaderState) -> nat {
    (v.buf.len() - v.cur) as nat
}

/// A reader between URLs, over a file that it takes apart at its dividers
/// alone.
pub open spec fn idle_ready(v: ReaderState, rest: Seq<u8>) -> bool {
    &&& v.stage == StageView::Idle
    &&& v.div != 0
    &&& v.cap > 0
    &&& v.cur <= v.buf.len()
    &&& v.buf.len() <= v.loaded
    &&& v.loaded + rest.len() <= usize::MAX
    &&& file_ok(remaining(v, rest))
}

/// After `k` calls from `v` with `rest` unread, the reader has given the URL
/// `u` and is between URLs again in `v2` with `rest2` unread, with less left
/// to take apart.
pub open spec fn gives_url(
    v: ReaderState,
    rest: Seq<u8>,
    v2: ReaderState,
    rest2: Seq<u8>,
    u: Seq<char>,
    k: nat,
) -> bool {
    &&& idle_ready(v2, rest2)
    &&& v2.div == v.div
    &&& v2.cap == v.cap
    &&& remaining(v2, rest2).len() < remaining(v, rest).len()
    &&& v2.loaded + rest2.len() == v.loaded + rest.len()
    &&& urls_in(remaining(v, rest), buf_left(v), v.div, v.cap) == seq![u] + urls_in(
        remaining(v2, rest2),
        buf_left(v2),
        v.div,
        v.cap,
    )
    &&& log_in(remaining(v, rest), buf_left(v), offset(v), v.div, v.cap, v.long_urls) == log_in(
        remaining(v2, rest2),
        buf_left(v2),
        offset(v2),
        v.div,
        v.cap,
        v2.long_urls,
    )
    &&& forall|f: nat|
        run(v, rest, f + k) == (seq![u] + #[trigger] run(v2, rest2, f).0, run(v2, rest2, f).1)
    &&& forall|f: nat| run_state(v, rest, f + k) == #[trigger] run_state(v2, rest2, f)
}

/// Where in the buffer the next URL begins, past the dividers.
pub open spec fn pick_start(v: ReaderState) -> int {
    next_nonstop(v.buf, v.div, file_ended(v), v.cur as int)
}

/// What is left to take apart from where the next URL begins.
pub open spec fn url_rest(v: ReaderState, rest: Seq<u8>) -> Seq<u8> {
    remaining(v, rest).skip(pick_start(v) - v.cur)
}

/// Dividers before a URL give nothing, within the block at hand.
proof fn lemma_skip_divs_in(r: Seq<u8>, e: nat, div: u8, cap: nat, k: int)
    requires
        cap > 0,
        0 <= k <= e,
        k <= r.len(),
        forall|i: int| 0 <= i < k ==> #[trigger] r[i] == div,
    ensures
        urls_in(r, e, div, cap) == urls_in(r.skip(k), (e - k) as nat, div, cap),
        forall|off: int, log: Map<u64, (usize, usize)>|
            #[trigger] log_in(r, e, off, div, cap, log) == log_in(
                r.skip(k),
                (e - k) as nat,
                off + k,
                div,
                cap,
                log,
            ),
    decreases k,
{
    if k == 0 {
        assert(r.skip(0) =~= r);
    } else {
        let t = r.drop_first();
        assert forall|i: int| 0 <= i < k - 1 implies #[trigger] t[i] == div by {
            assert(t[i] == r[i + 1]);
        }
        assert(r[0] == div);
        lemma_skip_divs_in(t, (e - 1) as nat, div, cap, k - 1);
        assert(t.skip(k - 1) =~= r.skip(k));
        assert forall|off: int, log: Map<u64, (usize, usize)>|
            #[trigger] log_in(r, e, off, div, cap, log) == log_in(
                r.skip(k),
                (e - k) as nat,
                off + k,
                div,
                cap,
                log,
            ) by {
            assert(log_in(r, e, off, div, cap, log) == log_in(t, (e - 1) as nat, off + 1, div, cap, log));
            assert(log_in(t, (e - 1) as nat, off + 1, div, cap, log) == log_in(
                t.skip(k - 1),
                (e - 1 - (k - 1)) as nat,
                off + 1 + (k - 1),
                div,
                cap,
                log,
            ));
        }
    }
}

/// The facts about the next pick from the buffer that the cases below share.
#[verifier::rlimit(40)]
proof fn lemma_pick_prelude(v: ReaderState, rest: Seq<u8>)
    requires
        idle_ready(v, rest),
        v.cur < v.buf.len(),
    ensures
        ({
            let b = v.buf;
            let c = v.cur as int;
            let fe = file_ended(v);
            let r = remaining(v, rest);
            let start = next_nonstop(b, v.div, fe, c);
            let j = next_stop(b, v.div, fe, start);
            &&& c <= start <= j <= b.len()
            &&& start < b.len() ==> start < j && r.skip(start - c)[0] != v.div
            &&& j < b.len() ==> b[j] == v.div
            &&& forall|k: int| c <= k < b.len() ==> #[trigger] b[k] == r[k - c]
            &&& forall|i: int| 0 <= i < j - start ==> #[trigger] r.skip(start - c)[i] != v.div
            &&& urls_in(r, buf_left(v), v.div, v.cap) == urls_in(
                r.skip(start - c),
                (b.len() - start) as nat,
                v.div,
                v.cap,
            )
            &&& log_in(r, buf_left(v), offset(v), v.div, v.cap, v.long_urls) == log_in(
                r.skip(start - c),
                (b.len() - start) as nat,
                offset(v) + (start - c),
                v.div,
                v.cap,
                v.long_urls,
            )
        }),
{
    let b = v.buf;
    let c = v.cur as int;
    let div = v.div;
    let fe = file_ended(v);
    let r = remaining(v, rest);
    assert forall|k: int| c <= k < b.len() implies #[trigger] b[k] == r[k - c] && b[k] != 0 by {
        assert(r[k - c] == b[k]);
    }
    lemma_next_nonstop_range(b, div, fe, c);
    lemma_nonstop_all(b, div, fe, c);
    let start = next_nonstop(b, div, fe, c);
    lemma_next_stop_range(b, div, fe, start);
    lemma_stop_all(b, div, fe, start);
    let j = next_stop(b, div, fe, start);
    let k0 = start - c;
    assert forall|i: int| 0 <= i < k0 implies #[trigger] r[i] == div by {
        assert(b[i + c] == r[i]);
        assert(is_stop(b[i + c], div, fe));
    }
    lemma_skip_divs_in(r, buf_left(v), div, v.cap, k0);
    assert(log_in(r, buf_left(v), offset(v), div, v.cap, v.long_urls) == log_in(
        r.skip(k0),
        (buf_left(v) - k0) as nat,
        offset(v) + k0,
        div,
        v.cap,
        v.long_urls,
    ));
    let r2 = r.skip(k0);
    assert forall|i: int| 0 <= i < j - start implies #[trigger] r2[i] != div by {
        assert(r2[i] == b[start + i]);
        assert(!is_stop(b[start + i], div, fe));
    }
    if start < b.len() {
        assert(r2[0] == b[start]);
    }
}

/// The first divider of what follows the skipped dividers: where the URL
/// ends, past the buffer when the buffer holds no divider, at the end of the
/// file when none follows.
proof fn lemma_url_end(v: ReaderState, rest: Seq<u8>)
    requires
        idle_ready(v, rest),
        v.cur < v.buf.len(),
        next_nonstop(v.buf, v.div, file_ended(v), v.cur as int) < v.buf.len(),
    ensures
        ({
            let fe = file_ended(v);
            let start = next_nonstop(v.buf, v.div, fe, v.cur as int);
            let r2 = remaining(v, rest).skip(start - v.cur);
            let d = next_stop(r2, v.div, false, 0);
            &&& 0 < d <= r2.len()
            &&& d < r2.len() ==> r2[d] == v.div
            &&& forall|i: int| 0 <= i < d ==> #[trigger] r2[i] != v.div && r2[i] != 0
            &&& file_ok(r2)
        }),
{
    lemma_pick_prelude(v, rest);
    let fe = file_ended(v);
    let r = remaining(v, rest);
    let start = next_nonstop(v.buf, v.div, fe, v.cur as int);
    let r2 = r.skip(start - v.cur);
    lemma_file_ok_skip(r, start - v.cur);
    lemma_next_stop_range(r2, v.div, false, 0);
    lemma_stop_all(r2, v.div, false, 0);
    let d = next_stop(r2, v.div, false, 0);
    assert(r2[0] != v.div);
    assert(d != 0);
}

/// A URL that ends within the buffer comes out in one call.
#[verifier::rlimit(40)]
proof fn lemma_url_in_buffer(v: ReaderState, rest: Seq<u8>) -> (res: (ReaderState, Seq<u8>, Seq<char>))
    requires
        idle_ready(v, rest),
        v.cur < v.buf.len(),
        next_stop(
            v.buf,
            v.div,
            file_ended(v),
            next_nonstop(v.buf, v.div, file_ended(v), v.cur as int),
        ) < v.buf.len(),
    ensures
        gives_url(v, rest, res.0, res.1, res.2, 1),
{
    lemma_pick_prelude(v, rest);
    let b = v.buf;
    let c = v.cur as int;
    let div = v.div;
    let fe = file_ended(v);
    let r = remaining(v, rest);
    let start = next_nonstop(b, div, fe, c);
    let j = next_stop(b, div, fe, start);
    let k0 = start - c;
    let r2 = r.skip(k0);
    let m = j - start;
    assert(r2[m] == b[j]);
    lemma_next_stop_at(r2, div, false, 0, m);
    let e2 = (b.len() - start) as nat;
    let u = latin1(b.subrange(start, j));
    assert(r2.take(m) =~= b.subrange(start, j));
    assert(urls_in(r2, e2, div, v.cap) == seq![u] + urls_in(
        r2.skip(m + 1),
        (e2 - m - 1) as nat,
        div,
        v.cap,
    ));
    assert(Seq::<char>::empty() + latin1(b.subrange(start, j)) =~= u);
    let v2 = ReaderState { cur: (j + 1) as nat, stage: StageView::Idle, ..v };
    assert(next_spec(v) == (v2, StepView::Yield(u)));
    assert(remaining(v2, rest) =~= r2.skip(m + 1));
    assert(r2.skip(m + 1) =~= r.skip(k0 + m + 1));
    lemma_file_ok_skip(r, k0 + m + 1);
    assert forall|f: nat|
        run(v, rest, f + 1) == (seq![u] + #[trigger] run(v2, rest, f).0, run(v2, rest, f).1) by {
        assert(drive_step(v, rest) == (v2, StepView::Yield(u), rest));
    }
    assert(log_in(r2, e2, offset(v) + k0, div, v.cap, v.long_urls) == log_in(
        r2.skip(m + 1),
        (e2 - m - 1) as nat,
        offset(v) + k0 + m + 1,
        div,
        v.cap,
        v.long_urls,
    ));
    assert forall|f: nat| run_state(v, rest, f + 1) == #[trigger] run_state(v2, rest, f) by {
        assert(drive_step(v, rest) == (v2, StepView::Yield(u), rest));
    }
    (v2, rest, u)
}

/// Dividers up to the end of the buffer give nothing: the reader asks for
/// the next block.
proof fn lemma_blank_tail(v: ReaderState, rest: Seq<u8>) -> (v1: ReaderState)
    requires
        idle_ready(v, rest),
        v.cur < v.buf.len(),
        next_nonstop(v.buf, v.div, file_ended(v), v.cur as int) >= v.buf.len(),
    ensures
        v1.stage == StageView::AwaitFirst,
        v1.div == v.div,
        v1.cap == v.cap,
        v1.loaded == v.loaded,
        rest.len() < remaining(v, rest).len(),
        file_ok(rest),
        urls_in(remaining(v, rest), buf_left(v), v.div, v.cap) == urls_in(rest, 0, v.div, v.cap),
        forall|f: nat| run(v, rest, f + 1) == #[trigger] run(v1, rest, f),
        v1.long_urls == v.long_urls,
        log_in(remaining(v, rest), buf_left(v), offset(v), v.div, v.cap, v.long_urls) == log_in(
            rest,
            0,
            v.loaded as int,
            v.div,
            v.cap,
            v.long_urls,
        ),
        forall|f: nat| run_state(v, rest, f + 1) == #[trigger] run_state(v1, rest, f),
{
    lemma_pick_prelude(v, rest);
    let b = v.buf;
    let c = v.cur as int;
    let fe = file_ended(v);
    let r = remaining(v, rest);
    let start = next_nonstop(b, v.div, fe, c);
    let v1 = ReaderState { cur: start as nat, stage: StageView::AwaitFirst, ..v };
    assert(Seq::<char>::empty() + latin1(b.subrange(start, b.len() as int)) =~= Seq::<
        char,
    >::empty());
    assert(next_spec(v) == (v1, StepView::Load));
    assert(r.skip(start - c) =~= rest);
    lemma_file_ok_skip(r, start - c);
    assert forall|f: nat| run(v, rest, f + 1) == #[trigger] run(v1, rest, f) by {
        assert(drive_step(v, rest) == (v1, StepView::Load, rest));
    }
    assert forall|f: nat| run_state(v, rest, f + 1) == #[trigger] run_state(v1, rest, f) by {
        assert(drive_step(v, rest) == (v1, StepView::Load, rest));
    }
    v1
}

/// A URL that runs past the end of the buffer and ends in the next block
/// comes out after two calls.
#[verifier::rlimit(40)]
proof fn lemma_url_across(v: ReaderState, rest: Seq<u8>) -> (res: (ReaderState, Seq<u8>, Seq<char>))
    requires
        idle_ready(v, rest),
        v.cur < v.buf.len(),
        next_nonstop(v.buf, v.div, file_ended(v), v.cur as int) < v.buf.len(),
        next_stop(
            v.buf,
            v.div,
            file_ended(v),
            next_nonstop(v.buf, v.div, file_ended(v), v.cur as int),
        ) >= v.buf.len(),
        next_stop(
            remaining(v, rest).skip(next_nonstop(v.buf, v.div, file_ended(v), v.cur as int) - v.cur),
            v.div,
            false,
            0,
        ) < v.buf.len() - next_nonstop(v.buf, v.div, file_ended(v), v.cur as int) + v.cap,
        next_stop(url_rest(v, rest), v.div, false, 0) < url_rest(v, rest).len(),
    ensures
        gives_url(v, rest, res.0, res.1, res.2, 2),
{
    lemma_pick_prelude(v, rest);
    lemma_url_end(v, rest);
    let b = v.buf;
    let c = v.cur as int;
    let div = v.div;
    let fe = file_ended(v);
    let r = remaining(v, rest);
    let start = next_nonstop(b, div, fe, c);
    let k0 = start - c;
    let r2 = r.skip(k0);
    let len = b.len() as int;
    let lead = b.subrange(start, len);
    let s = latin1(lead);
    let pos = v.loaded - len + start;
    let v1 = ReaderState { cur: start as nat, stage: StageView::AwaitSecond(s, pos as nat), ..v };
    assert(Seq::<char>::empty() + s =~= s);
    assert(next_spec(v) == (v1, StepView::Load));
    let ll = len - start;
    assert(r2 =~= lead + rest);
    let d = next_stop(r2, div, false, 0);
    let j2 = d - ll;
    let n = block_len(v1, rest);
    let data = rest.take(n as int);
    let rest2 = rest.skip(n as int);
    let fe2 = data.len() < v.cap;
    assert forall|i: int| 0 <= i < n implies #[trigger] data[i] == r2[ll + i] by {
        assert(r2[ll + i] == rest[i]);
    }
    assert(j2 < n);
    assert forall|i: int| 0 <= i < j2 implies !is_stop(#[trigger] data[i], div, fe2) by {
        assert(data[i] == r2[ll + i]);
    }
    assert(data[j2] == div);
    lemma_next_stop_at(data, div, fe2, 0, j2);
    let u = latin1(lead + data.take(j2));
    let w = ReaderState { buf: data, cur: 0, loaded: v.loaded + n, stage: StageView::Idle, ..v1 };
    let v2 = ReaderState { cur: (j2 + 1) as nat, stage: StageView::Idle, ..w };
    assert(s + latin1(data.subrange(0, j2)) =~= u);
    assert(load_fits(v1, n));
    assert(drive_step(v1, rest) == (v2, StepView::Yield(u), rest2));
    assert(r2.take(d) =~= lead + data.take(j2));
    let e2 = ll as nat;
    assert(min_int((e2 + v.cap) as int, r2.len() as int) == ll + n);
    assert(urls_in(r2, e2, div, v.cap) == seq![u] + urls_in(
        r2.skip(d + 1),
        (ll + n - d - 1) as nat,
        div,
        v.cap,
    ));
    assert(remaining(v2, rest2) =~= r2.skip(d + 1));
    assert(r2.skip(d + 1) =~= r.skip(k0 + d + 1));
    lemma_file_ok_skip(r, k0 + d + 1);
    assert forall|f: nat|
        run(v, rest, f + 2) == (seq![u] + #[trigger] run(v2, rest2, f).0, run(v2, rest2, f).1) by {
        assert(drive_step(v, rest) == (v1, StepView::Load, rest));
        assert(run(v1, rest, f + 1) == (seq![u] + run(v2, rest2, f).0, run(v2, rest2, f).1));
    }
    assert(log_in(r2, e2, offset(v) + k0, div, v.cap, v.long_urls) == log_in(
        r2.skip(d + 1),
        (ll + n - d - 1) as nat,
        offset(v) + k0 + d + 1,
        div,
        v.cap,
        v.long_urls,
    ));
    assert forall|f: nat| run_state(v, rest, f + 2) == #[trigger] run_state(v2, rest2, f) by {
        assert(drive_step(v, rest) == (v1, StepView::Load, rest));
        assert(run_state(v1, rest, f + 1) == run_state(v2, rest2, f));
    }
    (v2, rest2, u)
}

/// A long URL, from its third block on: each block that holds no divider
/// goes to the hasher, and when the divider comes the URL's name is given,
/// the reader being between URLs again in the block that held the divider.
proof fn lemma_run_long(
    v: ReaderState,
    rest: Seq<u8>,
    d: nat,
    h: Seq<Seq<u8>>,
    pos: nat,
    sl: nat,
) -> (res: (ReaderState, Seq<u8>, nat))
    requires
        v.stage == StageView::AwaitLong(h, pos, sl),
        v.div != 0,
        v.cap > 0,
        v.loaded + rest.len() <= usize::MAX,
        d < rest.len(),
        rest[d as int] == v.div,
        forall|i: int| 0 <= i < d ==> #[trigger] rest[i] != v.div && rest[i] != 0,
    ensures
        res.0.stage == StageView::Idle,
        res.0.div == v.div,
        res.0.cap == v.cap,
        res.0.cur <= res.0.buf.len(),
        res.0.buf.len() <= res.0.loaded,
        res.0.loaded + res.1.len() == v.loaded + rest.len(),
        remaining(res.0, res.1) == rest.skip(d + 1int),
        buf_left(res.0) == min_int((last_block_start(d, v.cap) + v.cap) as int, rest.len() as int) - d
            - 1,
        forall|f: nat|
            run(v, rest, f + res.2) == (seq![
                long_name(DefaultHasher::spec_finish(h + chunks_from(rest, d, v.cap))),
            ] + #[trigger] run(res.0, res.1, f).0, run(res.0, res.1, f).1),
        res.0.long_urls == record_long(
            v.long_urls,
            DefaultHasher::spec_finish(h + chunks_from(rest, d, v.cap)),
            pos as int,
            (sl + d) as int,
        ),
        forall|f: nat| run_state(v, rest, f + res.2) == #[trigger] run_state(res.0, res.1, f),
    decreases rest.len(),
{
    let cap = v.cap;
    let div = v.div;
    let n = block_len(v, rest);
    let data = rest.take(n as int);
    let rest2 = rest.skip(n as int);
    let fe = data.len() < cap;
    let w = ReaderState { buf: data, cur: 0, loaded: v.loaded + n, stage: StageView::Idle, ..v };
    assert(load_fits(v, n));
    assert forall|i: int| 0 <= i < n implies #[trigger] data[i] == rest[i] by {}
    if d < n {
        assert forall|i: int| 0 <= i < d implies !is_stop(#[trigger] data[i], div, fe) by {
            assert(data[i] == rest[i]);
        }
        lemma_next_stop_at(data, div, fe, 0, d as int);
        let piece = latin1(data.subrange(0, d as int));
        assert(Seq::<char>::empty() + piece =~= piece);
        let h2 = h.push(encode_utf8(piece));
        assert(data.subrange(0, d as int) =~= rest.take(d as int));
        assert(h + chunks_from(rest, d, cap) =~= h2);
        let hv = DefaultHasher::spec_finish(h2);
        let v2 = ReaderState {
            cur: d + 1,
            long_urls: if w.long_urls.contains_key(hv) {
                w.long_urls
            } else {
                w.long_urls.insert(hv, (pos as usize, (sl + piece.len()) as usize))
            },
            stage: StageView::Idle,
            ..w
        };
        assert(drive_step(v, rest) == (v2, StepView::Yield(long_name(hv)), rest2));
        assert(remaining(v2, rest2) =~= rest.skip(d + 1int));
        assert forall|f: nat|
            run(v, rest, f + 1) == (seq![long_name(hv)] + #[trigger] run(v2, rest2, f).0, run(
                v2,
                rest2,
                f,
            ).1) by {
            assert(drive_step(v, rest) == (v2, StepView::Yield(long_name(hv)), rest2));
        }
        assert forall|f: nat| run_state(v, rest, f + 1) == #[trigger] run_state(v2, rest2, f) by {
            assert(drive_step(v, rest) == (v2, StepView::Yield(long_name(hv)), rest2));
        }
        (v2, rest2, 1)
    } else {
        if n < cap {
            assert(false);
        }
        assert forall|i: int| 0 <= i < n implies !is_stop(#[trigger] data[i], div, fe) by {
            assert(data[i] == rest[i]);
        }
        lemma_next_stop_at(data, div, fe, 0, n as int);
        let piece = latin1(data.subrange(0, n as int));
        assert(Seq::<char>::empty() + piece =~= piece);
        let h2 = h.push(encode_utf8(piece));
        let v1 = ReaderState { cur: 0, stage: StageView::AwaitLong(h2, pos, sl + n), ..w };
        assert(drive_step(v, rest) == (v1, StepView::Load, rest2));
        let d1 = (d - n) as nat;
        assert forall|i: int| 0 <= i < d1 implies #[trigger] rest2[i] != div && rest2[i] != 0 by {
            assert(rest2[i] == rest[i + n]);
        }
        assert(rest2[d1 as int] == rest[d as int]);
        let res = lemma_run_long(v1, rest2, d1, h2, pos, sl + n);
        assert(data.subrange(0, n as int) =~= rest.take(cap as int));
        assert(h + chunks_from(rest, d, cap) =~= h2 + chunks_from(rest2, d1, cap));
        assert(rest2.skip(d1 + 1int) =~= rest.skip(d + 1int));
        assert forall|f: nat|
            run(v, rest, f + (res.2 + 1)) == (seq![
                long_name(DefaultHasher::spec_finish(h + chunks_from(rest, d, cap))),
            ] + #[trigger] run(res.0, res.1, f).0, run(res.0, res.1, f).1) by {
            assert(drive_step(v, rest) == (v1, StepView::Load, rest2));
            assert(run(v, rest, f + (res.2 + 1)) == run(v1, rest2, f + res.2));
        }
        assert forall|f: nat|
            run_state(v, rest, f + (res.2 + 1)) == #[trigger] run_state(res.0, res.1, f) by {
            assert(drive_step(v, rest) == (v1, StepView::Load, rest2));
            assert(run_state(v, rest, f + (res.2 + 1)) == run_state(v1, rest2, f + res.2));
        }
        (res.0, res.1, res.2 + 1)
    }
}

/// A URL that does not end within the block where it begins nor within the
/// next is long: it comes out as the name of its hash.
#[verifier::rlimit(80)]
proof fn lemma_url_long(v: ReaderState, rest: Seq<u8>) -> (res: (ReaderState, Seq<u8>, Seq<char>, nat))
    requires
        idle_ready(v, rest),
        v.cur < v.buf.len(),
        next_nonstop(v.buf, v.div, file_ended(v), v.cur as int) < v.buf.len(),
        next_stop(
            remaining(v, rest).skip(next_nonstop(v.buf, v.div, file_ended(v), v.cur as int) - v.cur),
            v.div,
            false,
            0,
        ) >= v.buf.len() - next_nonstop(v.buf, v.div, file_ended(v), v.cur as int) + v.cap,
        next_stop(url_rest(v, rest), v.div, false, 0) < url_rest(v, rest).len(),
    ensures
        gives_url(v, rest, res.0, res.1, res.2, res.3),
{
    lemma_pick_prelude(v, rest);
    lemma_url_end(v, rest);
    let b = v.buf;
    let c = v.cur as int;
    let div = v.div;
    let cap = v.cap;
    let fe = file_ended(v);
    let r = remaining(v, rest);
    let start = next_nonstop(b, div, fe, c);
    let k0 = start - c;
    let r2 = r.skip(k0);
    let len = b.len() as int;
    let lead = b.subrange(start, len);
    let s = latin1(lead);
    let pos = v.loaded - len + start;
    let ll = len - start;
    let d = next_stop(r2, div, false, 0);
    assert forall|i: int| 0 <= i < ll implies #[trigger] r2[i] == b[start + i] by {}
    let j = next_stop(b, div, fe, start);
    assert(j >= len) by {
        if j < len {
            assert(b[j] == div);
            assert(r2[j - start] == b[j]);
        }
    }
    let v1 = ReaderState { cur: start as nat, stage: StageView::AwaitSecond(s, pos as nat), ..v };
    assert(Seq::<char>::empty() + s =~= s);
    assert(next_spec(v) == (v1, StepView::Load));
    assert(r2 =~= lead + rest);
    let n = block_len(v1, rest);
    assert(n == cap);
    let data = rest.take(n as int);
    let rest2 = rest.skip(n as int);
    let fe2 = data.len() < cap;
    assert forall|i: int| 0 <= i < n implies !is_stop(#[trigger] data[i], div, fe2) by {
        assert(data[i] == r2[ll + i]);
    }
    lemma_next_stop_at(data, div, fe2, 0, n as int);
    let t = s + latin1(data.subrange(0, n as int));
    assert(t =~= latin1(r2.take(ll + cap)));
    let w = ReaderState { buf: data, cur: 0, loaded: v.loaded + n, stage: StageView::Idle, ..v1 };
    let h0 = seq![encode_utf8(t)];
    let v3 = ReaderState { cur: 0, stage: StageView::AwaitLong(h0, pos as nat, t.len()), ..w };
    assert(load_fits(v1, n));
    assert(drive_step(v1, rest) == (v3, StepView::Load, rest2));
    let dd = (d - ll - cap) as nat;
    assert(rest2 =~= r2.skip(ll + cap));
    assert forall|i: int| 0 <= i < dd implies #[trigger] rest2[i] != div && rest2[i] != 0 by {
        assert(rest2[i] == r2[i + ll + cap]);
    }
    assert(rest2[dd as int] == r2[d]);
    let lr = lemma_run_long(v3, rest2, dd, h0, pos as nat, t.len());
    assert(t.len() == ll + cap);
    assert(remaining(lr.0, lr.1).len() == rest2.len() - dd - 1);
    assert(offset(lr.0) == offset(v) + k0 + d + 1);
    assert(lr.0.long_urls == record_long(
        v.long_urls,
        DefaultHasher::spec_finish(h0 + chunks_from(rest2, dd, cap)),
        offset(v) + k0,
        d,
    ));
    let u = long_name(DefaultHasher::spec_finish(h0 + chunks_from(rest2, dd, cap)));
    let e2 = ll as nat;
    let bs = e2 + cap + last_block_start(dd, cap);
    assert(urls_in(r2, e2, div, cap) == seq![u] + urls_in(
        r2.skip(d + 1),
        (min_int((bs + cap) as int, r2.len() as int) - d - 1) as nat,
        div,
        cap,
    ));
    assert(rest2.skip(dd + 1int) =~= r2.skip(d + 1));
    assert(r2.skip(d + 1) =~= r.skip(k0 + d + 1));
    lemma_file_ok_skip(r, k0 + d + 1);
    assert forall|f: nat|
        run(v, rest, f + (lr.2 + 2)) == (seq![u] + #[trigger] run(lr.0, lr.1, f).0, run(
            lr.0,
            lr.1,
            f,
        ).1) by {
        assert(drive_step(v, rest) == (v1, StepView::Load, rest));
        assert(run(v, rest, f + (lr.2 + 2)) == run(v1, rest, f + lr.2 + 1));
        assert(run(v1, rest, f + lr.2 + 1) == run(v3, rest2, f + lr.2));
    }
    assert(log_in(r2, e2, offset(v) + k0, div, cap, v.long_urls) == log_in(
        r2.skip(d + 1),
        (min_int((bs + cap) as int, r2.len() as int) - d - 1) as nat,
        offset(v) + k0 + d + 1,
        div,
        cap,
        record_long(
            v.long_urls,
            DefaultHasher::spec_finish(h0 + chunks_from(rest2, dd, cap)),
            offset(v) + k0,
            d,
        ),
    ));
    assert forall|f: nat|
        run_state(v, rest, f + (lr.2 + 2)) == #[trigger] run_state(lr.0, lr.1, f) by {
        assert(drive_step(v, rest) == (v1, StepView::Load, rest));
        assert(run_state(v, rest, f + (lr.2 + 2)) == run_state(v1, rest, f + lr.2 + 1));
        assert(run_state(v1, rest, f + lr.2 + 1) == run_state(v3, rest2, f + lr.2));
    }
    (lr.0, lr.1, u, lr.2 + 2)
}

/// A long URL that runs to the end of the file, from its third block on:
/// each block goes to the hasher, and the empty read at the end gives the
/// URL's name, the reader being between URLs again with nothing left.
proof fn lemma_run_long_end(
    v: ReaderState,
    rest: Seq<u8>,
    h: Seq<Seq<u8>>,
    pos: nat,
    sl: nat,
) -> (res: (ReaderState, nat))
    requires
        v.stage == StageView::AwaitLong(h, pos, sl),
        v.div != 0,
        v.cap > 0,
        v.loaded + rest.len() <= usize::MAX,
        forall|i: int| 0 <= i < rest.len() ==> #[trigger] rest[i] != v.div && rest[i] != 0,
    ensures
        res.0.stage == StageView::Idle,
        res.0.div == v.div,
        res.0.cap == v.cap,
        res.0.buf.len() == 0,
        res.0.cur == 0,
        res.0.loaded == v.loaded + rest.len(),
        forall|f: nat|
            run(v, rest, f + res.1) == (seq![
                long_name(DefaultHasher::spec_finish(h + tail_chunks(rest, v.cap))),
            ] + #[trigger] run(res.0, Seq::<u8>::empty(), f).0, run(
                res.0,
                Seq::<u8>::empty(),
                f,
            ).1),
        res.0.long_urls == record_long(
            v.long_urls,
            DefaultHasher::spec_finish(h + tail_chunks(rest, v.cap)),
            pos as int,
            (sl + rest.len()) as int,
        ),
        forall|f: nat|
            run_state(v, rest, f + res.1) == #[trigger] run_state(res.0, Seq::<u8>::empty(), f),
    decreases rest.len(),
{
    let cap = v.cap;
    let div = v.div;
    let n = block_len(v, rest);
    let data = rest.take(n as int);
    let rest2 = rest.skip(n as int);
    let fe = data.len() < cap;
    let w = ReaderState { buf: data, cur: 0, loaded: v.loaded + n, stage: StageView::Idle, ..v };
    assert(load_fits(v, n));
    if rest.len() == 0 {
        assert(data =~= rest);
        let piece = Seq::<char>::empty() + latin1(data.subrange(0, 0));
        assert(piece =~= latin1(rest));
        let h2 = h.push(encode_utf8(piece));
        assert(h + tail_chunks(rest, cap) =~= h2);
        let hv = DefaultHasher::spec_finish(h2);
        let v2 = ReaderState {
            cur: 0,
            long_urls: if w.long_urls.contains_key(hv) {
                w.long_urls
            } else {
                w.long_urls.insert(hv, (pos as usize, (sl + piece.len()) as usize))
            },
            stage: StageView::Idle,
            ..w
        };
        assert(drive_step(v, rest) == (v2, StepView::Yield(long_name(hv)), rest2));
        assert(rest2 =~= Seq::<u8>::empty());
        assert forall|f: nat|
            run(v, rest, f + 1) == (seq![long_name(hv)] + #[trigger] run(
                v2,
                Seq::<u8>::empty(),
                f,
            ).0, run(v2, Seq::<u8>::empty(), f).1) by {
            assert(drive_step(v, rest) == (v2, StepView::Yield(long_name(hv)), rest2));
        }
        assert forall|f: nat|
            run_state(v, rest, f + 1) == #[trigger] run_state(v2, Seq::<u8>::empty(), f) by {
            assert(drive_step(v, rest) == (v2, StepView::Yield(long_name(hv)), rest2));
        }
        (v2, 1)
    } else {
        assert forall|i: int| 0 <= i < n implies !is_stop(#[trigger] data[i], div, fe) by {
            assert(data[i] == rest[i]);
        }
        lemma_next_stop_at(data, div, fe, 0, n as int);
        let piece = latin1(data.subrange(0, n as int));
        assert(Seq::<char>::empty() + piece =~= piece);
        let h2 = h.push(encode_utf8(piece));
        let v1 = ReaderState { cur: 0, stage: StageView::AwaitLong(h2, pos, sl + n), ..w };
        assert(drive_step(v, rest) == (v1, StepView::Load, rest2));
        assert forall|i: int| 0 <= i < rest2.len() implies #[trigger] rest2[i] != div && rest2[i]
            != 0 by {
            assert(rest2[i] == rest[i + n]);
        }
        let res = lemma_run_long_end(v1, rest2, h2, pos, sl + n);
        assert(data.subrange(0, n as int) =~= rest.take(n as int));
        assert(h + tail_chunks(rest, cap) =~= h2 + tail_chunks(rest2, cap));
        assert forall|f: nat|
            run(v, rest, f + (res.1 + 1)) == (seq![
                long_name(DefaultHasher::spec_finish(h + tail_chunks(rest, cap))),
            ] + #[trigger] run(res.0, Seq::<u8>::empty(), f).0, run(
                res.0,
                Seq::<u8>::empty(),
                f,
            ).1) by {
            assert(drive_step(v, rest) == (v1, StepView::Load, rest2));
            assert(run(v, rest, f + (res.1 + 1)) == run(v1, rest2, f + res.1));
        }
        assert forall|f: nat|
            run_state(v, rest, f + (res.1 + 1)) == #[trigger] run_state(
                res.0,
                Seq::<u8>::empty(),
                f,
            ) by {
            assert(drive_step(v, rest) == (v1, StepView::Load, rest2));
            assert(run_state(v, rest, f + (res.1 + 1)) == run_state(v1, rest2, f + res.1));
        }
        (res.0, res.1 + 1)
    }
}

/// The last URL of a file that does not end with a divider, when it lies
/// in the buffer at hand: the empty read at the end gives it whole.
#[verifier::rlimit(40)]
proof fn lemma_last_url_short(v: ReaderState, rest: Seq<u8>) -> (res: (ReaderState, Seq<u8>, Seq<char>))
    requires
        idle_ready(v, rest),
        v.cur < v.buf.len(),
        pick_start(v) < v.buf.len(),
        next_stop(url_rest(v, rest), v.div, false, 0) >= url_rest(v, rest).len(),
        rest.len() == 0,
    ensures
        gives_url(v, rest, res.0, res.1, res.2, 2),
{
    lemma_pick_prelude(v, rest);
    lemma_url_end(v, rest);
    let b = v.buf;
    let c = v.cur as int;
    let div = v.div;
    let fe = file_ended(v);
    let r = remaining(v, rest);
    let start = pick_start(v);
    let k0 = start - c;
    let r2 = r.skip(k0);
    let len = b.len() as int;
    let lead = b.subrange(start, len);
    let s = latin1(lead);
    let pos = v.loaded - len + start;
    let j = next_stop(b, div, fe, start);
    assert(j >= len) by {
        if j < len {
            assert(b[j] == div);
            assert(r2[j - start] == b[j]);
        }
    }
    let v1 = ReaderState { cur: start as nat, stage: StageView::AwaitSecond(s, pos as nat), ..v };
    assert(Seq::<char>::empty() + s =~= s);
    assert(next_spec(v) == (v1, StepView::Load));
    assert(r2 =~= lead);
    let n = block_len(v1, rest);
    assert(n == 0);
    let data = rest.take(0);
    assert(data =~= Seq::<u8>::empty());
    let w = ReaderState { buf: data, cur: 0, loaded: v.loaded, stage: StageView::Idle, ..v1 };
    let v2 = ReaderState { cur: 0, stage: StageView::Idle, ..w };
    assert(s + latin1(data.subrange(0, 0)) =~= s);
    assert(load_fits(v1, n));
    assert(drive_step(v1, rest) == (v2, StepView::Yield(s), rest.skip(0)));
    assert(rest.skip(0) =~= rest);
    assert(s =~= latin1(r2));
    assert(remaining(v2, rest) =~= Seq::<u8>::empty());
    assert(urls_in(r2, (len - start) as nat, div, v.cap) == seq![s]);
    assert(seq![s] + urls_in(remaining(v2, rest), buf_left(v2), div, v.cap) =~= seq![s]);
    assert forall|f: nat|
        run(v, rest, f + 2) == (seq![s] + #[trigger] run(v2, rest, f).0, run(v2, rest, f).1) by {
        assert(drive_step(v, rest) == (v1, StepView::Load, rest));
        assert(run(v1, rest, f + 1) == (seq![s] + run(v2, rest, f).0, run(v2, rest, f).1));
    }
    assert(log_in(r2, (len - start) as nat, offset(v) + k0, div, v.cap, v.long_urls)
        == v.long_urls);
    assert forall|f: nat| run_state(v, rest, f + 2) == #[trigger] run_state(v2, rest, f) by {
        assert(drive_step(v, rest) == (v1, StepView::Load, rest));
        assert(run_state(v1, rest, f + 1) == run_state(v2, rest, f));
    }
    (v2, rest, s)
}

/// The last URL of a file that does not end with a divider, when it runs
/// past the buffer at hand: it is long, and the empty read at the end gives
/// its name.
#[verifier::rlimit(80)]
proof fn lemma_last_url_long(v: ReaderState, rest: Seq<u8>) -> (res: (ReaderState, Seq<u8>, Seq<char>, nat))
    requires
        idle_ready(v, rest),
        v.cur < v.buf.len(),
        pick_start(v) < v.buf.len(),
        next_stop(url_rest(v, rest), v.div, false, 0) >= url_rest(v, rest).len(),
        rest.len() > 0,
    ensures
        gives_url(v, rest, res.0, res.1, res.2, res.3),
{
    lemma_pick_prelude(v, rest);
    lemma_url_end(v, rest);
    let b = v.buf;
    let c = v.cur as int;
    let div = v.div;
    let cap = v.cap;
    let fe = file_ended(v);
    let r = remaining(v, rest);
    let start = pick_start(v);
    let k0 = start - c;
    let r2 = r.skip(k0);
    let len = b.len() as int;
    let lead = b.subrange(start, len);
    let s = latin1(lead);
    let pos = v.loaded - len + start;
    let ll = len - start;
    let j = next_stop(b, div, fe, start);
    assert(j >= len) by {
        if j < len {
            assert(b[j] == div);
            assert(r2[j - start] == b[j]);
        }
    }
    let v1 = ReaderState { cur: start as nat, stage: StageView::AwaitSecond(s, pos as nat), ..v };
    assert(Seq::<char>::empty() + s =~= s);
    assert(next_spec(v) == (v1, StepView::Load));
    assert(r2 =~= lead + rest);
    let n = block_len(v1, rest);
    let data = rest.take(n as int);
    let rest2 = rest.skip(n as int);
    let fe2 = data.len() < cap;
    assert forall|i: int| 0 <= i < n implies !is_stop(#[trigger] data[i], div, fe2) by {
        assert(data[i] == r2[ll + i]);
    }
    lemma_next_stop_at(data, div, fe2, 0, n as int);
    let t = s + latin1(data.subrange(0, n as int));
    let m = ll + n;
    assert(m == min_int((ll + cap) as int, r2.len() as int));
    assert(t =~= latin1(r2.take(m)));
    let w = ReaderState { buf: data, cur: 0, loaded: v.loaded + n, stage: StageView::Idle, ..v1 };
    let h0 = seq![encode_utf8(t)];
    let v3 = ReaderState { cur: 0, stage: StageView::AwaitLong(h0, pos as nat, t.len()), ..w };
    assert(load_fits(v1, n));
    assert(drive_step(v1, rest) == (v3, StepView::Load, rest2));
    assert(rest2 =~= r2.skip(m));
    assert forall|i: int| 0 <= i < rest2.len() implies #[trigger] rest2[i] != div && rest2[i]
        != 0 by {
        assert(rest2[i] == r2[i + m]);
    }
    let lr = lemma_run_long_end(v3, rest2, h0, pos as nat, t.len());
    assert(t.len() + rest2.len() == r2.len());
    assert(lr.0.long_urls == record_long(
        v.long_urls,
        DefaultHasher::spec_finish(h0 + tail_chunks(rest2, cap)),
        offset(v) + k0,
        r2.len() as int,
    ));
    let u = long_name(DefaultHasher::spec_finish(h0 + tail_chunks(rest2, cap)));
    assert(urls_in(r2, ll as nat, div, cap) == seq![u]);
    let v2 = lr.0;
    let e0 = Seq::<u8>::empty();
    assert(remaining(v2, e0) =~= e0);
    assert(seq![u] + urls_in(remaining(v2, e0), buf_left(v2), div, cap) =~= seq![u]);
    assert forall|f: nat|
        run(v, rest, f + (lr.1 + 2)) == (seq![u] + #[trigger] run(v2, e0, f).0, run(
            v2,
            e0,
            f,
        ).1) by {
        assert(drive_step(v, rest) == (v1, StepView::Load, rest));
        assert(run(v, rest, f + (lr.1 + 2)) == run(v1, rest, f + lr.1 + 1));
        assert(run(v1, rest, f + lr.1 + 1) == run(v3, rest2, f + lr.1));
    }
    assert(log_in(r2, ll as nat, offset(v) + k0, div, cap, v.long_urls) == record_long(
        v.long_urls,
        DefaultHasher::spec_finish(h0 + tail_chunks(rest2, cap)),
        offset(v) + k0,
        r2.len() as int,
    ));
    assert forall|f: nat|
        run_state(v, rest, f + (lr.1 + 2)) == #[trigger] run_state(v2, e0, f) by {
        assert(drive_step(v, rest) == (v1, StepView::Load, rest));
        assert(run_state(v, rest, f + (lr.1 + 2)) == run_state(v1, rest, f + lr.1 + 1));
        assert(run_state(v1, rest, f + lr.1 + 1) == run_state(v3, rest2, f + lr.1));
    }
    (v2, e0, u, lr.1 + 2)
}

/// A reader waiting for a block, its buffer used up, gives the URLs of the
/// rest of the file and then says that the file is done.
proof fn lemma_run_await_first(v: ReaderState, rest: Seq<u8>) -> (fuel: nat)
    requires
        v.stage == StageView::AwaitFirst,
        v.div != 0,
        v.cap > 0,
        v.loaded + rest.len() <= usize::MAX,
        file_ok(rest),
    ensures
        run(v, rest, fuel) == (urls_in(rest, 0, v.div, v.cap), true),
        run_state(v, rest, fuel).long_urls == log_in(
            rest,
            0,
            v.loaded as int,
            v.div,
            v.cap,
            v.long_urls,
        ),
    decreases rest.len(), 2int,
{
    let n = block_len(v, rest);
    assert(load_fits(v, n));
    if rest.len() == 0 {
        assert(rest.take(0) =~= Seq::<u8>::empty());
        assert(drive_step(v, rest).1 == StepView::End);
        1
    } else {
        let data = rest.take(n as int);
        let rest2 = rest.skip(n as int);
        let w = ReaderState { buf: data, cur: 0, loaded: v.loaded + n, stage: StageView::Idle, ..v };
        assert(remaining(w, rest2) =~= rest);
        let f = lemma_run_idle(w, rest2);
        assert(drive_step(v, rest) == drive_step(w, rest2));
        assert(f > 0);
        assert(run(v, rest, f) == run(w, rest2, f));
        assert(run_state(v, rest, f) == run_state(w, rest2, f));
        f
    }
}

/// A reader between URLs gives the URLs of what is left of its buffer and
/// of the file, and then says that the file is done.
proof fn lemma_run_idle(v: ReaderState, rest: Seq<u8>) -> (fuel: nat)
    requires
        idle_ready(v, rest),
    ensures
        run(v, rest, fuel) == (urls_in(remaining(v, rest), buf_left(v), v.div, v.cap), true),
        run_state(v, rest, fuel).long_urls == log_in(
            remaining(v, rest),
            buf_left(v),
            offset(v),
            v.div,
            v.cap,
            v.long_urls,
        ),
    decreases remaining(v, rest).len(), if v.cur < v.buf.len() {
        1int
    } else {
        3int
    },
{
    let b = v.buf;
    let c = v.cur as int;
    let fe = file_ended(v);
    if c >= b.len() {
        let v1 = ReaderState { stage: StageView::AwaitFirst, ..v };
        assert(remaining(v, rest) =~= rest);
        let f = lemma_run_await_first(v1, rest);
        assert(drive_step(v, rest) == (v1, StepView::Load, rest));
        assert(run(v, rest, f + 1) == run(v1, rest, f));
        assert(run_state(v, rest, f + 1) == run_state(v1, rest, f));
        f + 1
    } else {
        lemma_next_nonstop_range(b, v.div, fe, c);
        let start = next_nonstop(b, v.div, fe, c);
        lemma_next_stop_range(b, v.div, fe, start);
        let j = next_stop(b, v.div, fe, start);
        if j < b.len() {
            let res = lemma_url_in_buffer(v, rest);
            let f = lemma_run_idle(res.0, res.1);
            assert(run(v, rest, f + 1) == (seq![res.2] + run(res.0, res.1, f).0, run(
                res.0,
                res.1,
                f,
            ).1));
            assert(run_state(v, rest, f + 1) == run_state(res.0, res.1, f));
            f + 1
        } else if start >= b.len() {
            let v1 = lemma_blank_tail(v, rest);
            let f = lemma_run_await_first(v1, rest);
            assert(run(v, rest, f + 1) == run(v1, rest, f));
            assert(run_state(v, rest, f + 1) == run_state(v1, rest, f));
            f + 1
        } else {
            let r2 = remaining(v, rest).skip(start - c);
            let d = next_stop(r2, v.div, false, 0);
            if d >= r2.len() {
                if rest.len() == 0 {
                    let res = lemma_last_url_short(v, rest);
                    let f = lemma_run_idle(res.0, res.1);
                    assert(run(v, rest, f + 2) == (seq![res.2] + run(res.0, res.1, f).0, run(
                        res.0,
                        res.1,
                        f,
                    ).1));
                    assert(run_state(v, rest, f + 2) == run_state(res.0, res.1, f));
                    f + 2
                } else {
                    let res = lemma_last_url_long(v, rest);
                    let f = lemma_run_idle(res.0, res.1);
                    assert(run(v, rest, f + res.3) == (seq![res.2] + run(res.0, res.1, f).0, run(
                        res.0,
                        res.1,
                        f,
                    ).1));
                    assert(run_state(v, rest, f + res.3) == run_state(res.0, res.1, f));
                    f + res.3
                }
            } else if d < b.len() - start + v.cap {
                let res = lemma_url_across(v, rest);
                let f = lemma_run_idle(res.0, res.1);
                assert(run(v, rest, f + 2) == (seq![res.2] + run(res.0, res.1, f).0, run(
                    res.0,
                    res.1,
                    f,
                ).1));
                assert(run_state(v, rest, f + 2) == run_state(res.0, res.1, f));
                f + 2
            } else {
                let res = lemma_url_long(v, rest);
                let f = lemma_run_idle(res.0, res.1);
                assert(run(v, rest, f + res.3) == (seq![res.2] + run(res.0, res.1, f).0, run(
                    res.0,
                    res.1,
                    f,
                ).1));
                assert(run_state(v, rest, f + res.3) == run_state(res.0, res.1, f));
                f + res.3
            }
        }
    }
}

/// Reading a whole file gives its URLs wherever the blocks end, and then
/// says that the file is done: a fresh reader with a buffer of `cap` bytes,
/// driven over a file without zero bytes, gives the file's non-empty pieces
/// between dividers in order, each whole unless it is long, a long one as
/// the name of its hash; and it ends with each long URL recorded under its
/// hash with the position in the file where it first appears and its
/// length.
pub proof fn lemma_reads_whole_file(div: u8, cap: nat, f: Seq<u8>)
    requires
        div != 0,
        cap > 0,
        f.len() <= usize::MAX,
        file_ok(f),
    ensures
        exists|fuel: nat|
            {
                &&& run(initial_state(div, cap), f, fuel) == (file_urls(f, div, cap), true)
                &&& run_state(initial_state(div, cap), f, fuel).long_urls == file_log(f, div, cap)
            },
{
    let v = initial_state(div, cap);
    assert(remaining(v, f) =~= f);
    let fuel = lemma_run_idle(v, f);
    assert(run(v, f, fuel) == (file_urls(f, div, cap), true));
    assert(run_state(v, f, fuel).long_urls == file_log(f, div, cap));
}

/// Without long URLs, what a reader gives is the plain split at the
/// divider.
proof fn lemma_short_urls(r: Seq<u8>, e: nat, div: u8, cap: nat)
    requires
        div != 0,
        cap > 0,
        fits_blocks(r, div, cap),
    ensures
        urls_in(r, e, div, cap) == urls(r, div),
    decreases r.len(), if e == 0 {
        1int
    } else {
        0int
    },
{
    if r.len() == 0 {
    } else if e == 0 {
        lemma_short_urls(r, min_int(cap as int, r.len() as int) as nat, div, cap);
    } else if r[0] == div {
        assert(r.drop_first() =~= r.skip(1));
        lemma_fits_skip(r, div, cap, 1);
        lemma_short_urls(r.drop_first(), (e - 1) as nat, div, cap);
    } else {
        lemma_next_stop_range(r, div, false, 0);
        lemma_stop_all(r, div, false, 0);
        let d = next_stop(r, div, false, 0);
        if d >= r.len() {
            assert(!is_stop(r[r.len() - 1], div, false));
            assert(false);
        }
        if cap <= r.len() {
            assert(has_div_in(r, div, 0, cap));
            let kk = choose|kk: int| 0 <= kk < cap && 0 <= kk < r.len() && r[kk] == div;
            if kk < d {
                assert(!is_stop(r[kk], div, false));
            }
        }
        assert(d < cap);
        assert(d != 0);
        assert forall|i: int| 0 <= i < d implies #[trigger] r[i] != div by {
            assert(!is_stop(r[i], div, false));
        }
        lemma_take_url(r, div, d, Seq::empty());
        assert(Seq::<u8>::empty() + r.take(d) =~= r.take(d));
        lemma_fits_skip(r, div, cap, d + 1);
        let e2 = if d < e {
            (e - d - 1) as nat
        } else {
            (min_int((e + cap) as int, r.len() as int) - d - 1) as nat
        };
        lemma_short_urls(r.skip(d + 1), e2, div, cap);
    }
}

/// A file without long URLs comes out whole: when every `cap` bytes in a
/// row of the file hold a divider, the URLs a reader gives are exactly the
/// non-empty pieces between dividers, each whole, in order.
pub proof fn lemma_reads_short_urls_whole(div: u8, cap: nat, f: Seq<u8>)
    requires
        div != 0,
        cap > 0,
        f.len() <= usize::MAX,
        fits_blocks(f, div, cap),
    ensures
        exists|fuel: nat| run(initial_state(div, cap), f, fuel) == (urls(f, div), true),
{
    lemma_reads_whole_file(div, cap, f);
    lemma_short_urls(f, 0, div, cap);
}

} // verus!
