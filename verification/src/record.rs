//! Records of the form `[key, count]`, one per line, in the JSON notation
//! that mappers and reducers write and read.

use crate::ranker::my_vec::{pairs_view, Entry};
use crate::text::{decimal, lemma_decimal_reads_back, string_push};
use vstd::string::StringExecFns;
use vstd::prelude::*;

verus! {

/// Declares `serde_json::Error`, what a failed parse or print returns.
#[verifier::external_type_specification]
#[verifier::external_body]
pub struct ExJsonError(serde_json::Error);

/// The pair that the JSON text `text` denotes when it is a two-element
/// array of a string and an unsigned 64-bit integer (with nothing but
/// whitespace around it), as `serde_json` reads it; `None` otherwise.
pub uninterp spec fn json_record(text: Seq<char>) -> Option<(Seq<char>, u64)>;

/// Calls `serde_json::from_str::<(String, u64)>`.  The contract claims that
/// the call succeeds exactly when the text denotes a record, and that it
/// then returns that record; which record a text denotes is left to the
/// name `json_record`.
#[verifier::external_body]
fn parse_record(line: &str) -> (r: Result<(String, u64), serde_json::Error>)
    ensures
        match r {
            Ok(p) => json_record(line@) == Some((p.0@, p.1)),
            Err(_) => json_record(line@) is None,
        },
{
    serde_json::from_str::<(String, u64)>(line)
}

/// Why a record could not be read, printed or merged.
#[derive(Debug, Clone, Copy, PartialEq, Eq, Structural)]
pub enum ReduceError {
    /// A line of a mapper's output is not a `[key, count]` record.
    BadRecord,
    /// Adding a count to the count a key already has overflows.
    CountOverflow,
}

/// The record of a line, when it parses; or `None`.
pub fn read_record(line: &str) -> (r: Option<(String, u64)>)
    ensures
        match r {
            Some(p) => json_record(line@) == Some((p.0@, p.1)),
            None => json_record(line@) is None,
        },
{
    match parse_record(line) {
        Ok(p) => Some(p),
        Err(_) => None,
    }
}

/// The lower-case hexadecimal digit of `d` (below 16).
pub open spec fn hex_digit(d: nat) -> char {
    if d < 10 {
        (d + 48) as char
    } else {
        (d + 87) as char
    }
}

/// How `serde_json` writes the character `c` inside a string: the quote
/// and the backslash behind a backslash, the control characters with a
/// short escape where JSON has one and as `\u00XX` otherwise, and every
/// other character as it is.
pub open spec fn json_escape_char(c: char) -> Seq<char> {
    if c == '"' {
        seq!['\\', '"']
    } else if c == '\\' {
        seq!['\\', '\\']
    } else if c == '\u{8}' {
        seq!['\\', 'b']
    } else if c == '\t' {
        seq!['\\', 't']
    } else if c == '\n' {
        seq!['\\', 'n']
    } else if c == '\u{c}' {
        seq!['\\', 'f']
    } else if c == '\r' {
        seq!['\\', 'r']
    } else if (c as u32) < 0x20 {
        seq![
            '\\',
            'u',
            '0',
            '0',
            hex_digit((c as u32 / 16) as nat),
            hex_digit((c as u32 % 16) as nat),
        ]
    } else {
        seq![c]
    }
}

/// The text `s` with each character written as `serde_json` writes it
/// inside a string.
pub open spec fn json_escaped(s: Seq<char>) -> Seq<char>
    decreases s.len(),
{
    if s.len() == 0 {
        Seq::empty()
    } else {
        json_escaped(s.drop_last()) + json_escape_char(s.last())
    }
}

/// The JSON text that `serde_json` prints for the record `[k, v]`: the key
/// as an escaped string in quotes and the count in decimal, in brackets,
/// divided by a comma.
pub open spec fn json_text(k: Seq<char>, v: u64) -> Seq<char> {
    seq!['[', '"'] + json_escaped(k) + seq!['"', ','] + decimal(v as nat) + seq![']']
}

/// Calls `serde_json::to_string` on a `(String, u64)` pair.  The contract
/// claims that printing succeeds (a string and an integer print into a
/// growing buffer, which cannot fail), that the result is the text
/// `json_text` spells out for the pair, and that `serde_json` reads that
/// text back as the same pair.
#[verifier::external_body]
fn print_record(kv: &(String, u64)) -> (r: Result<String, serde_json::Error>)
    ensures
        r is Ok,
        r matches Ok(t) ==> t@ == json_text(kv.0@, kv.1),
        r matches Ok(t) ==> json_record(t@) == Some((kv.0@, kv.1)),
{
    serde_json::to_string(kv)
}

/// The lines that a list of records is written as: each record's JSON text
/// followed by a line feed.
pub open spec fn records_text(s: Seq<Entry>) -> Seq<char>
    decreases s.len(),
{
    if s.len() == 0 {
        Seq::empty()
    } else {
        records_text(s.drop_last()) + json_text(s.last().0, s.last().1) + seq!['\n']
    }
}

/// The lines of the text `t` that follow the characters `cur` of a line
/// under way: each line ends at a line feed, which it does not hold; text
/// after the last line feed is a last line.
pub open spec fn lines_after(t: Seq<char>, cur: Seq<char>) -> Seq<Seq<char>>
    decreases t.len(),
{
    if t.len() == 0 {
        if cur.len() > 0 {
            seq![cur]
        } else {
            Seq::empty()
        }
    } else if t[0] == '\n' {
        seq![cur] + lines_after(t.drop_first(), Seq::empty())
    } else {
        lines_after(t.drop_first(), cur.push(t[0]))
    }
}

/// The lines of the text `t`.
pub open spec fn lines(t: Seq<char>) -> Seq<Seq<char>> {
    lines_after(t, Seq::empty())
}

/// No line feed occurs in `t`.
pub open spec fn one_line(t: Seq<char>) -> bool {
    forall|i: int| 0 <= i < t.len() ==> t[i] != '\n'
}

proof fn lemma_escaped_one_line(k: Seq<char>)
    ensures
        one_line(json_escaped(k)),
    decreases k.len(),
{
    if k.len() > 0 {
        lemma_escaped_one_line(k.drop_last());
        let a = json_escaped(k.drop_last());
        let b = json_escape_char(k.last());
        let c = k.last();
        assert(one_line(b)) by {
            if (c as u32) < 0x20 && c != '\n' && c != '\u{8}' && c != '\t' && c != '\u{c}' && c
                != '\r' {
                let hi = (c as u32 / 16) as nat;
                let lo = (c as u32 % 16) as nat;
                assert(hex_digit(hi) != '\n');
                assert(hex_digit(lo) != '\n');
            }
        }
        assert forall|i: int| 0 <= i < (a + b).len() implies (a + b)[i] != '\n' by {
            if i < a.len() {
                assert((a + b)[i] == a[i]);
            } else {
                assert((a + b)[i] == b[i - a.len()]);
            }
        }
    }
}

/// A record prints on one line.
proof fn lemma_json_text_one_line(k: Seq<char>, v: u64)
    ensures
        one_line(json_text(k, v)),
{
    lemma_escaped_one_line(k);
    lemma_decimal_reads_back(v as nat);
    let t = json_text(k, v);
    let e = json_escaped(k);
    let d = decimal(v as nat);
    assert forall|i: int| 0 <= i < t.len() implies t[i] != '\n' by {
        let n1 = 2 + e.len();
        let n2 = n1 + 2;
        let n3 = n2 + d.len();
        if i < 2 {
        } else if i < n1 {
            assert(t[i] == e[i - 2]);
        } else if i < n2 {
        } else if i < n3 {
            assert(t[i] == d[i - n2]);
        } else {
        }
    }
}

/// A line without line feed, then a line feed, ends the line under way.
proof fn lemma_lines_one(line: Seq<char>, rest: Seq<char>, cur: Seq<char>)
    requires
        one_line(line),
    ensures
        lines_after(line.push('\n') + rest, cur) == seq![cur + line] + lines_after(
            rest,
            Seq::empty(),
        ),
    decreases line.len(),
{
    let t = line.push('\n') + rest;
    if line.len() == 0 {
        assert(t.drop_first() =~= rest);
        assert(cur + line =~= cur);
    } else {
        let l2 = line.drop_first();
        assert(t.drop_first() =~= l2.push('\n') + rest);
        assert(line[0] != '\n');
        lemma_lines_one(l2, rest, cur.push(line[0]));
        assert(cur.push(line[0]) + l2 =~= cur + line);
    }
}

/// Text that ends with a line feed splits into its own lines and those of
/// what follows.
proof fn lemma_lines_concat(a: Seq<char>, b: Seq<char>, cur: Seq<char>)
    requires
        a.len() > 0,
        a.last() == '\n',
    ensures
        lines_after(a + b, cur) == lines_after(a, cur) + lines_after(b, Seq::empty()),
    decreases a.len(),
{
    let a2 = a.drop_first();
    assert((a + b).drop_first() =~= a2 + b);
    if a[0] == '\n' {
        if a2.len() == 0 {
            assert(a2 + b =~= b);
            assert(lines_after(a2, Seq::empty()) =~= Seq::<Seq<char>>::empty());
            assert(lines_after(a, cur) =~= seq![cur]);
        } else {
            lemma_lines_concat(a2, b, Seq::empty());
        }
    } else {
        lemma_lines_concat(a2, b, cur.push(a[0]));
    }
}

/// Records print one per line, in order: the lines of the printed text
/// are exactly the records' JSON texts, one for each record.
pub proof fn lemma_records_text_lines(s: Seq<Entry>)
    ensures
        lines(records_text(s)) == Seq::new(s.len(), |i: int| json_text(s[i].0, s[i].1)),
    decreases s.len(),
{
    if s.len() > 0 {
        let p = s.drop_last();
        lemma_records_text_lines(p);
        let jt = json_text(s.last().0, s.last().1);
        lemma_json_text_one_line(s.last().0, s.last().1);
        let a = records_text(p);
        let b = jt + seq!['\n'];
        assert(b =~= jt.push('\n') + Seq::<char>::empty());
        lemma_lines_one(jt, Seq::empty(), Seq::empty());
        assert(Seq::<char>::empty() + jt =~= jt);
        assert(lines_after(Seq::<char>::empty(), Seq::empty()) =~= Seq::<Seq<char>>::empty());
        assert(lines(b) =~= seq![jt]);
        if a.len() > 0 {
            assert(p.len() > 0);
            assert(a.last() == '\n') by {
                let pp = p.drop_last();
                assert(a == records_text(pp) + json_text(p.last().0, p.last().1) + seq!['\n']);
            }
            lemma_lines_concat(a, b, Seq::empty());
        } else {
            assert(a + b =~= b);
            assert(lines(a) =~= Seq::<Seq<char>>::empty());
        }
        assert(records_text(s) =~= a + b);
        assert(lines(records_text(s)) == lines(a) + lines(b));
        let want = Seq::new(s.len(), |i: int| json_text(s[i].0, s[i].1));
        assert forall|i: int| 0 <= i < s.len() implies #[trigger] lines(records_text(s))[i]
            == want[i] by {
            if i < p.len() {
                assert(p[i] == s[i]);
            }
        }
        assert(lines(records_text(s)) =~= want);
    } else {
        assert(lines(records_text(s)) =~= Seq::new(s.len(), |i: int| json_text(s[i].0, s[i].1)));
    }
}

/// Prints records, one JSON line each, as mappers and reducers write them.
/// Each line reads back as its record: the text has one line per record,
/// and its lines read back as the records, in order.
pub fn encode_records(pairs: &Vec<(String, u64)>) -> (r: String)
    ensures
        r@ == records_text(pairs_view(pairs@)),
        lines(r@).len() == pairs@.len(),
        forall|i: int|
            0 <= i < pairs@.len() ==> json_record(#[trigger] lines(r@)[i]) == Some(
                pairs_view(pairs@)[i],
            ),
        forall|i: int|
            0 <= i < pairs@.len() ==> json_record(
                #[trigger] json_text(pairs_view(pairs@)[i].0, pairs_view(pairs@)[i].1),
            ) == Some(pairs_view(pairs@)[i]),
{
    let mut out = String::new();
    let n = pairs.len();
    let mut i: usize = 0;
    assert(pairs_view(pairs@).take(0) =~= Seq::<Entry>::empty());
    while i < n
        invariant
            n == pairs@.len(),
            0 <= i <= n,
            records_text(pairs_view(pairs@).take(i as int)) == out@,
            forall|j: int|
                0 <= j < i ==> json_record(
                    #[trigger] json_text(pairs_view(pairs@)[j].0, pairs_view(pairs@)[j].1),
                ) == Some(pairs_view(pairs@)[j]),
        decreases n - i,
    {
        let ghost pre = pairs_view(pairs@).take(i as int);
        let ghost next = pairs_view(pairs@).take(i + 1);
        assert(next.drop_last() =~= pre);
        assert(next.last() == (pairs@[i as int].0@, pairs@[i as int].1));
        assert(pairs_view(pairs@)[i as int] == (pairs@[i as int].0@, pairs@[i as int].1));
        match print_record(&pairs[i]) {
            Ok(line) => {
                out.append(line.as_str());
                string_push(&mut out, '\n');
                assert(out@ =~= records_text(pre) + line@ + seq!['\n']);
            },
            Err(_) => {
                assert(false);
            },
        }
        i += 1;
    }
    assert(pairs_view(pairs@).take(n as int) =~= pairs_view(pairs@));
    proof {
        lemma_records_text_lines(pairs_view(pairs@));
    }
    assert forall|i: int| 0 <= i < pairs@.len() implies json_record(#[trigger] lines(out@)[i])
        == Some(pairs_view(pairs@)[i]) by {
        assert(lines(out@)[i] == json_text(pairs_view(pairs@)[i].0, pairs_view(pairs@)[i].1));
    }
    out
}

} // verus!
