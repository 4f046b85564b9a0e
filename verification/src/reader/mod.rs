//! Reading a large file of URLs block by block and batching them.

pub mod d_writer;
pub mod iter_reader;
pub mod long_log;
pub mod whole_file;

use crate::text::{push_decimal, string_push};
use vstd::string::StringExecFns;
use vstd::prelude::*;

verus! {

/// The number of bytes of the UTF-8 encoding of `s`.
pub open spec fn utf8_len(s: Seq<char>) -> nat {
    vstd::utf8::encode_utf8(s).len()
}

/// The scheme that names a URL too long to hold in memory by its hash.
pub open spec fn long_prefix() -> Seq<char> {
    seq!['u', 'r', 'a', 'n', 'k', 'e', 'r', ':', '/', '/']
}

/// The name that stands for a long URL with hash `h`: the scheme followed
/// by the hash in decimal.
pub open spec fn long_name(h: u64) -> Seq<char> {
    long_prefix() + crate::text::decimal(h as nat)
}

/// Whether `url` names a long URL by its hash.
pub open spec fn is_long_url(url: Seq<char>) -> bool {
    url.len() >= 10 && url.take(10) == long_prefix()
}

/// The name that stands for a long URL with hash `h`.
pub fn long_url_name(h: u64) -> (r: String)
    ensures
        r@ == long_name(h),
{
    let mut s = String::new();
    string_push(&mut s, 'u');
    string_push(&mut s, 'r');
    string_push(&mut s, 'a');
    string_push(&mut s, 'n');
    string_push(&mut s, 'k');
    string_push(&mut s, 'e');
    string_push(&mut s, 'r');
    string_push(&mut s, ':');
    string_push(&mut s, '/');
    string_push(&mut s, '/');
    assert(s@ =~= long_prefix());
    push_decimal(&mut s, h);
    s
}

/// Whether a URL names a long URL by its hash.
pub fn is_long(url: &Vec<char>) -> (r: bool)
    ensures
        r == is_long_url(url@),
{
    if url.len() < 10 {
        return false;
    }
    let r = url[0] == 'u' && url[1] == 'r' && url[2] == 'a' && url[3] == 'n' && url[4] == 'k'
        && url[5] == 'e' && url[6] == 'r' && url[7] == ':' && url[8] == '/' && url[9] == '/';
    proof {
        if r {
            assert(url@.take(10) =~= long_prefix());
        } else {
            assert(url@.take(10) != long_prefix()) by {
                if url@.take(10) == long_prefix() {
                    assert(url@.take(10)[0] == 'u');
                    assert(url@.take(10)[1] == 'r');
                    assert(url@.take(10)[2] == 'a');
                    assert(url@.take(10)[3] == 'n');
                    assert(url@.take(10)[4] == 'k');
                    assert(url@.take(10)[5] == 'e');
                    assert(url@.take(10)[6] == 'r');
                    assert(url@.take(10)[7] == ':');
                    assert(url@.take(10)[8] == '/');
                    assert(url@.take(10)[9] == '/');
                }
            }
        }
    }
    r
}

/// The size past which a batch of URLs is sent on.
pub const BUF_MAX: usize = 15728640;

/// Adding `url` to the batch `buffer` ([`UrlBatch::write`]): the batch to
/// send on first, if any, and the batch after.  When the URL does not fit
/// in what is left of [`BUF_MAX`] (keeping one byte for the divider), the
/// batch is sent on as it is and a new one begun; the URL and the divider
/// are then appended.
pub open spec fn batch_write_spec(buffer: Seq<char>, div: u8, url: Seq<char>) -> (
    Option<Seq<char>>,
    Seq<char>,
) {
    if utf8_len(url) > BUF_MAX - utf8_len(buffer) - 1 {
        (Some(buffer), url.push(div as char))
    } else {
        (None, buffer + url.push(div as char))
    }
}

/// URLs gathered into batches of bounded size, each URL followed by the
/// divider, before they are sent to the mappers.
pub struct UrlBatch {
    div: u8,
    buffer: String,
}

impl UrlBatch {
    /// The URLs gathered so far, each followed by the divider.
    pub closed spec fn spec_buffer(&self) -> Seq<char> {
        self.buffer@
    }

    /// The divider.
    pub closed spec fn spec_div(&self) -> u8 {
        self.div
    }

    /// An empty batch of URLs divided by `div`.
    pub fn new(div: u8) -> (r: Self)
        ensures
            r.spec_buffer() == Seq::<char>::empty(),
            r.spec_div() == div,
    {
        UrlBatch { div, buffer: String::new() }
    }

    /// The size of the batch in bytes.
    pub fn len(&self) -> (r: usize)
        ensures
            r == utf8_len(self.spec_buffer()) as usize,
    {
        self.buffer.as_str().len()
    }

    /// Whether the batch must be sent on before `url` is added: the URL
    /// does not fit in what is left of [`BUF_MAX`], keeping one byte for the
    /// divider.
    pub fn must_send(&self, url: &str) -> (r: bool)
        requires
            utf8_len(self.spec_buffer()) <= BUF_MAX,
            utf8_len(url@) <= usize::MAX,
        ensures
            r == (utf8_len(url@) > BUF_MAX - utf8_len(self.spec_buffer()) - 1),
    {
        url.len() >= BUF_MAX - self.buffer.as_str().len()
    }

    /// A copy of the batch gathered so far, to be sent on.
    pub fn contents(&self) -> (r: String)
        ensures
            r@ == self.spec_buffer(),
    {
        self.buffer.clone()
    }

    /// Adds a URL followed by the divider; returns the length of the URL in
    /// bytes.
    pub fn append(&mut self, url: &str) -> (r: usize)
        requires
            utf8_len(url@) <= usize::MAX,
        ensures
            final(self).spec_div() == old(self).spec_div(),
            final(self).spec_buffer() == old(self).spec_buffer() + url@.push(old(self).spec_div() as char),
            r == utf8_len(url@),
    {
        let n = url.len();
        self.buffer.append(url);
        string_push(&mut self.buffer, self.div as char);
        assert(self.buffer@ =~= old(self).spec_buffer() + url@.push(self.div as char));
        n
    }

    /// Adds a URL followed by the divider, first taking the batch gathered
    /// so far out to be sent on when the URL does not fit in what is left of
    /// [`BUF_MAX`]; returns that batch, if any, and the length of the URL in
    /// bytes.
    pub fn write(&mut self, url: &str) -> (r: (Option<String>, usize))
        requires
            utf8_len(old(self).spec_buffer()) <= BUF_MAX,
            utf8_len(url@) <= usize::MAX,
        ensures
            final(self).spec_div() == old(self).spec_div(),
            (match r.0 {
                Some(b) => Some(b@),
                None => None,
            }, final(self).spec_buffer()) == batch_write_spec(
                old(self).spec_buffer(),
                old(self).spec_div(),
                url@,
            ),
            r.1 == utf8_len(url@),
    {
        let out = if self.must_send(url) {
            Some(self.take())
        } else {
            None
        };
        let n = self.append(url);
        (out, n)
    }

    /// Takes the batch gathered so far, leaving an empty one.
    pub fn take(&mut self) -> (r: String)
        ensures
            r@ == old(self).spec_buffer(),
            final(self).spec_buffer() == Seq::<char>::empty(),
            final(self).spec_div() == old(self).spec_div(),
    {
        let mut full = String::new();
        std::mem::swap(&mut full, &mut self.buffer);
        full
    }
}

/// Writing the URLs `urls` one by one into an empty batch: the batches sent
/// on, in order, and the batch left at the end.
pub open spec fn split_batches(urls: Seq<Seq<char>>, div: u8) -> (Seq<Seq<char>>, Seq<char>)
    decreases urls.len(),
{
    if urls.len() == 0 {
        (Seq::empty(), Seq::empty())
    } else {
        let before = split_batches(urls.drop_last(), div);
        let step = batch_write_spec(before.1, div, urls.last());
        match step.0 {
            Some(b) => (before.0.push(b), step.1),
            None => (before.0, step.1),
        }
    }
}

/// The URLs `urls`, each followed by the divider.
pub open spec fn divided(urls: Seq<Seq<char>>, div: u8) -> Seq<char>
    decreases urls.len(),
{
    if urls.len() == 0 {
        Seq::empty()
    } else {
        divided(urls.drop_last(), div) + urls.last().push(div as char)
    }
}

/// The texts `parts` joined in order.
pub open spec fn joined(parts: Seq<Seq<char>>) -> Seq<char>
    decreases parts.len(),
{
    if parts.len() == 0 {
        Seq::empty()
    } else {
        joined(parts.drop_last()) + parts.last()
    }
}

/// Splitting URLs into batches loses nothing and keeps every batch within
/// [`BUF_MAX`] bytes: with an ASCII divider, when each URL with its divider
/// fits, every batch sent on and the batch left at the end hold at most
/// [`BUF_MAX`] bytes, and the batches sent on followed by the one left are
/// the URLs, each followed by the divider, in order.
pub proof fn lemma_split_batches(urls: Seq<Seq<char>>, div: u8)
    requires
        div < 128,
        forall|i: int| 0 <= i < urls.len() ==> utf8_len(#[trigger] urls[i]) + 1 <= BUF_MAX,
    ensures
        forall|i: int|
            0 <= i < split_batches(urls, div).0.len() ==> utf8_len(
                #[trigger] split_batches(urls, div).0[i],
            ) <= BUF_MAX,
        utf8_len(split_batches(urls, div).1) <= BUF_MAX,
        joined(split_batches(urls, div).0) + split_batches(urls, div).1 == divided(urls, div),
    decreases urls.len(),
{
    if urls.len() > 0 {
        let pre = urls.drop_last();
        assert forall|i: int| 0 <= i < pre.len() implies utf8_len(#[trigger] pre[i]) + 1 <= BUF_MAX by {
            assert(pre[i] == urls[i]);
        }
        lemma_split_batches(pre, div);
        let before = split_batches(pre, div);
        let u = urls.last();
        assert(utf8_len(u) + 1 <= BUF_MAX) by {
            assert(u == urls[urls.len() - 1]);
        }
        lemma_batch_bounded(before.1, div, u);
        let step = batch_write_spec(before.1, div, u);
        match step.0 {
            Some(b) => {
                let sent = before.0.push(b);
                assert(sent.drop_last() =~= before.0);
                assert(joined(sent) == joined(before.0) + b);
                assert(joined(sent) + step.1 =~= divided(urls, div));
                assert forall|i: int| 0 <= i < sent.len() implies utf8_len(#[trigger] sent[i]) <= BUF_MAX by {
                    if i < before.0.len() {
                        assert(sent[i] == before.0[i]);
                    }
                }
            },
            None => {
                assert(joined(before.0) + step.1 =~= divided(urls, div));
            },
        }
    }
}

/// The UTF-8 encoding of a concatenation is the concatenation of the
/// encodings.
pub proof fn lemma_utf8_concat(a: Seq<char>, b: Seq<char>)
    ensures
        vstd::utf8::encode_utf8(a + b) == vstd::utf8::encode_utf8(a) + vstd::utf8::encode_utf8(b),
    decreases a.len(),
{
    if a.len() > 0 {
        lemma_utf8_concat(a.drop_first(), b);
        assert((a + b).drop_first() =~= a.drop_first() + b);
        assert((a + b)[0] == a[0]);
        assert(vstd::utf8::encode_utf8(a + b) =~= vstd::utf8::encode_utf8(a) + vstd::utf8::encode_utf8(
            b,
        ));
    } else {
        assert(a + b =~= b);
        assert(vstd::utf8::encode_utf8(a) =~= Seq::<u8>::empty());
        assert(vstd::utf8::encode_utf8(a) + vstd::utf8::encode_utf8(b) =~= vstd::utf8::encode_utf8(b));
    }
}

/// With an ASCII divider, a batch never grows past [`BUF_MAX`] bytes as
/// long as each URL with its divider fits: what is sent on is the batch as
/// it was, and what is kept fits.
pub proof fn lemma_batch_bounded(buffer: Seq<char>, div: u8, url: Seq<char>)
    requires
        div < 128,
        utf8_len(buffer) <= BUF_MAX,
        utf8_len(url) + 1 <= BUF_MAX,
    ensures
        utf8_len(batch_write_spec(buffer, div, url).1) <= BUF_MAX,
        batch_write_spec(buffer, div, url).0 matches Some(b) ==> b == buffer,
{
    let d = seq![div as char];
    assert(vstd::utf8::encode_utf8(d) =~= seq![div]) by {
        assert(d.drop_first() =~= Seq::<char>::empty());
        let v = (div as char) as u32;
        assert(v == div as u32);
        assert(vstd::utf8::has_width_1_encoding(v));
        assert(((v & 0x7F) as u8) == div) by (bit_vector)
            requires
                v == div as u32,
                div < 128,
        ;
        assert(vstd::utf8::encode_scalar(v) =~= seq![div]);
        assert(vstd::utf8::encode_utf8(d.drop_first()) =~= Seq::<u8>::empty());
    }
    assert(url.push(div as char) =~= url + d);
    assert(buffer + url.push(div as char) =~= buffer + (url + d));
    lemma_utf8_concat(url, d);
    lemma_utf8_concat(buffer, url + d);
}

/// An ASCII divider takes one byte: a URL with its divider takes one byte
/// more than the URL.
proof fn lemma_utf8_push_div(url: Seq<char>, div: u8)
    requires
        div < 128,
    ensures
        utf8_len(url.push(div as char)) == utf8_len(url) + 1,
{
    let d = seq![div as char];
    assert(vstd::utf8::encode_utf8(d) =~= seq![div]) by {
        assert(d.drop_first() =~= Seq::<char>::empty());
        let v = (div as char) as u32;
        assert(v == div as u32);
        assert(vstd::utf8::has_width_1_encoding(v));
        assert(((v & 0x7F) as u8) == div) by (bit_vector)
            requires
                v == div as u32,
                div < 128,
        ;
        assert(vstd::utf8::encode_scalar(v) =~= seq![div]);
        assert(vstd::utf8::encode_utf8(d.drop_first()) =~= Seq::<u8>::empty());
    }
    assert(url.push(div as char) =~= url + d);
    lemma_utf8_concat(url, d);
}

/// A batch is sent on exactly when it has no room for the URL: with an
/// ASCII divider, writing `url` sends the batch, as it was, exactly when the
/// batch followed by the URL and the divider would hold more than
/// [`BUF_MAX`] bytes, and the new batch is then the URL and the divider;
/// otherwise nothing is sent and the URL and the divider are appended to
/// the batch.
pub proof fn lemma_batch_write_fills(buffer: Seq<char>, div: u8, url: Seq<char>)
    requires
        div < 128,
    ensures
        (batch_write_spec(buffer, div, url).0 is Some) <==> utf8_len(buffer + url.push(div as char))
            > BUF_MAX,
        batch_write_spec(buffer, div, url).0 is None ==> batch_write_spec(buffer, div, url).1
            == buffer + url.push(div as char),
        batch_write_spec(buffer, div, url).0 matches Some(b) ==> b == buffer && batch_write_spec(
            buffer,
            div,
            url,
        ).1 == url.push(div as char),
{
    lemma_utf8_push_div(url, div);
    lemma_utf8_concat(buffer, url.push(div as char));
}

} // verus!
