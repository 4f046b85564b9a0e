//! Ranking: merging the reducers' top lists into the report.

pub mod mul_reader;

use crate::reader::{is_long, is_long_url};
use crate::text::{
    chars_of, decimal, lemma_parse_decimal, parse_u64, parse_u64_spec, push_decimal, string_of,
    string_push,
};
use vstd::prelude::*;

verus! {

/// How many URLs the report lists.
pub const TOP_N: usize = 100;

/// The first line of the report.
pub open spec fn header_text() -> Seq<char> {
    seq!['U', 'R', 'L', ',', ' ', 'F', 'r', 'e', 'q', 'u', 'e', 'n', 'c', 'y', '\n']
}

/// What follows a URL on its report line: its frequency and a line feed.
pub open spec fn report_suffix(val: u64) -> Seq<char> {
    seq![',', ' '] + decimal(val as nat) + seq!['\n']
}

/// The report line of a URL that is written as it is.
pub open spec fn report_line(url: Seq<char>, val: u64) -> Seq<char> {
    url + report_suffix(val)
}

/// What the report does with the next URL, as the contracts see it.
pub enum RankStep {
    /// The report is full.
    Stop,
    /// Write this line.
    Line(Seq<char>),
    /// Write the long URL whose hash is this, from the source file, then
    /// this rest of the line.
    Long(u64, Seq<char>),
    /// A long URL's name that holds no hash.
    BadLong,
}

/// What the report does with the next URL.
pub enum RankAction {
    /// The report is full: stop.
    Stop,
    /// Write this line.
    Line(String),
    /// Copy the long URL whose hash is this from the source file, then
    /// write this rest of the line (its frequency and a line feed).
    Long(u64, String),
    /// The URL names a long URL, but what follows the scheme is no hash.
    BadLong,
}

impl RankAction {
    /// The abstract form of an action.
    pub open spec fn step(&self) -> RankStep {
        match self {
            RankAction::Stop => RankStep::Stop,
            RankAction::Line(s) => RankStep::Line(s@),
            RankAction::Long(h, rest) => RankStep::Long(*h, rest@),
            RankAction::BadLong => RankStep::BadLong,
        }
    }
}

/// What the report does with URL `url` of frequency `val` after `written`
/// URLs, where `has_long` says whether any long URL was recorded.
pub open spec fn rank_step(written: usize, has_long: bool, url: Seq<char>, val: u64) -> RankStep {
    if written >= TOP_N {
        RankStep::Stop
    } else if has_long && is_long_url(url) {
        match parse_u64_spec(url.skip(10)) {
            Some(h) => RankStep::Long(h, report_suffix(val)),
            None => RankStep::BadLong,
        }
    } else {
        RankStep::Line(report_line(url, val))
    }
}

/// The state of the report being written.
pub struct Ranking {
    written: usize,
    has_long: bool,
}

impl Ranking {
    #[verifier::type_invariant]
    closed spec fn wf(self) -> bool {
        self.written <= TOP_N
    }

    /// How many URLs the report holds.
    pub closed spec fn spec_written(&self) -> usize {
        self.written
    }

    /// Whether long URLs were recorded.
    pub closed spec fn spec_has_long(&self) -> bool {
        self.has_long
    }

    /// An empty report; `has_long` says whether any long URL was recorded.
    pub fn new(has_long: bool) -> (r: Self)
        ensures
            r.spec_written() == 0,
            r.spec_has_long() == has_long,
    {
        Ranking { written: 0, has_long }
    }

    /// The first line of the report.
    pub fn header() -> (r: String)
        ensures
            r@ == header_text(),
    {
        let mut s = String::new();
        string_push(&mut s, 'U');
        string_push(&mut s, 'R');
        string_push(&mut s, 'L');
        string_push(&mut s, ',');
        string_push(&mut s, ' ');
        string_push(&mut s, 'F');
        string_push(&mut s, 'r');
        string_push(&mut s, 'e');
        string_push(&mut s, 'q');
        string_push(&mut s, 'u');
        string_push(&mut s, 'e');
        string_push(&mut s, 'n');
        string_push(&mut s, 'c');
        string_push(&mut s, 'y');
        string_push(&mut s, '\n');
        assert(s@ =~= header_text());
        s
    }

    /// Decides what the report does with the next URL and its frequency;
    /// every decision but `Stop` counts one more URL.
    pub fn step(&mut self, url: &str, val: u64) -> (r: RankAction)
        ensures
            r.step() == rank_step(old(self).spec_written(), old(self).spec_has_long(), url@, val),
            final(self).spec_has_long() == old(self).spec_has_long(),
            final(self).spec_written() == if old(self).spec_written() >= TOP_N {
                old(self).spec_written()
            } else {
                (old(self).spec_written() + 1) as usize
            },
            final(self).spec_written() <= TOP_N,
    {
        proof {
            use_type_invariant(&*self);
        }
        if self.written >= TOP_N {
            return RankAction::Stop;
        }
        self.written = self.written + 1;
        let chars = chars_of(url);
        if self.has_long && is_long(&chars) {
            let n = chars.len();
            let mut rest: Vec<char> = Vec::new();
            let mut i: usize = 10;
            while i < n
                invariant
                    n == chars@.len(),
                    10 <= i <= n,
                    rest@ == chars@.subrange(10, i as int),
                decreases n - i,
            {
                rest.push(chars[i]);
                assert(rest@ =~= chars@.subrange(10, i + 1));
                i += 1;
            }
            assert(rest@ =~= url@.skip(10));
            match parse_u64(&rest) {
                Some(h) => {
                    let mut suffix = String::new();
                    string_push(&mut suffix, ',');
                    string_push(&mut suffix, ' ');
                    push_decimal(&mut suffix, val);
                    string_push(&mut suffix, '\n');
                    assert(suffix@ =~= report_suffix(val));
                    RankAction::Long(h, suffix)
                },
                None => RankAction::BadLong,
            }
        } else {
            let mut line = string_of(&chars);
            string_push(&mut line, ',');
            string_push(&mut line, ' ');
            push_decimal(&mut line, val);
            string_push(&mut line, '\n');
            assert(line@ =~= report_line(url@, val));
            RankAction::Line(line)
        }
    }
}

/// Whether `t` is the end of a report line for frequency `val`: a comma
/// and a space, then digits that read back as `val`, then a line feed.
pub open spec fn states_frequency(t: Seq<char>, val: u64) -> bool {
    &&& t.len() >= 4
    &&& t[0] == ','
    &&& t[1] == ' '
    &&& t.last() == '\n'
    &&& parse_u64_spec(t.subrange(2, t.len() - 1)) == Some(val)
}

/// The report lines say what they were given: a full report stops; a URL
/// written as it is gets the line made of the URL itself followed by its
/// frequency, which reads back as the frequency given; a long URL's name
/// gives the hash written in it, followed by the frequency in the same way,
/// or is refused when no hash is written in it.
pub proof fn lemma_rank_lines(written: usize, has_long: bool, url: Seq<char>, val: u64)
    ensures
        written >= TOP_N ==> rank_step(written, has_long, url, val) is Stop,
        written < TOP_N && !(has_long && is_long_url(url)) ==> (rank_step(
            written,
            has_long,
            url,
            val,
        ) matches RankStep::Line(l) && l.len() > url.len() && l.take(url.len() as int) == url
            && states_frequency(l.skip(url.len() as int), val)),
        written < TOP_N && has_long && is_long_url(url) ==> (rank_step(
            written,
            has_long,
            url,
            val,
        ) matches RankStep::Long(h, t) && parse_u64_spec(url.skip(10)) == Some(h)
            && states_frequency(t, val)) || (rank_step(written, has_long, url, val) is BadLong
            && parse_u64_spec(url.skip(10)) is None),
{
    lemma_parse_decimal(val);
    let t = report_suffix(val);
    let dv = decimal(val as nat);
    assert(t.subrange(2, t.len() - 1) =~= dv);
    assert(t.len() >= 4);
    assert(t.last() == '\n');
    if written < TOP_N && !(has_long && is_long_url(url)) {
        let l = report_line(url, val);
        assert(l.take(url.len() as int) =~= url);
        assert(l.skip(url.len() as int) =~= t);
    }
}

} // verus!
