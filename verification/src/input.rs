//! Feeder-facing logic: validating the optional single-capture-group filter,
//! picking the text each raw line contributes, and feeding accepted lines
//! into the collector. Reading the sources themselves is the caller's work;
//! a line that could not be decoded arrives here as `None` and is skipped.

use regex::Regex;
use vstd::prelude::*;

use crate::linecollector::counts_after;
use crate::linecollector::LineCollector;

verus! {

#[verifier::external_type_specification]
#[verifier::external_body]
pub struct ExRegex(Regex);

/// Relies on regex::Regex's derived Clone, so that a filter can be cloned
/// into the feeder thread; nothing is assumed of the copy.
pub assume_specification[ <Regex as Clone>::clone ](re: &Regex) -> Regex;

/// Whether the regex engine accepts a pattern.
pub uninterp spec fn pattern_compiles(pattern: Seq<char>) -> bool;

/// How many capture groups a pattern has, the implicit whole-match group
/// included.
pub uninterp spec fn groups_of(pattern: Seq<char>) -> nat;

/// What the filter yields for a line: the text of the last capture group of
/// a match — the whole match when the pattern has no explicit group — or
/// nothing when the pattern does not match the line (a last group that did
/// not participate in the match counts as no match).
pub uninterp spec fn capture_last_of(pattern: Seq<char>, line: Seq<char>) -> Option<Seq<char>>;

/// A compiled line filter, kept together with the pattern text it was
/// compiled from, which the contracts speak of.
#[derive(Clone, Debug)]
pub struct LineFilter {
    re: Regex,
    pattern: String,
    groups: usize,
}

impl LineFilter {
    /// The pattern this filter was compiled from.
    pub closed spec fn pattern(self) -> Seq<char> {
        self.pattern@
    }

    /// The number of capture groups, the implicit whole-match group included.
    pub closed spec fn groups(self) -> nat {
        self.groups as nat
    }

    /// Reads the stored group count.
    pub fn captures_len(&self) -> (r: usize)
        ensures
            r as nat == self.groups(),
    {
        self.groups
    }
}

/// Relies on regex::Regex::new and regex::Regex::captures_len: whether a
/// pattern compiles, and its group count, depend on the pattern text alone;
/// the count includes the implicit whole-match group, so it is at least one.
/// This is the only constructor of `LineFilter`, so every filter's regex was
/// compiled from its stored pattern.
#[verifier::external_body]
fn compile_pattern(pattern: &str) -> (r: Option<LineFilter>)
    ensures
        r is Some <==> pattern_compiles(pattern@),
        r matches Some(f) ==> f.pattern() == pattern@ && f.groups() == groups_of(pattern@)
            && groups_of(pattern@) >= 1,
{
    match Regex::new(pattern) {
        Ok(re) => {
            let groups = re.captures_len();
            Some(LineFilter { re, pattern: pattern.to_owned(), groups })
        },
        Err(_) => None,
    }
}

/// Relies on regex::Regex::captures and regex::Captures::get: a match and
/// its groups are a function of the pattern and the line alone. The result
/// is the last capture group's text, `None` for a line the pattern does not
/// match or whose last group did not participate in the match.
#[verifier::external_body]
fn capture_last(f: &LineFilter, line: &str) -> (r: Option<String>)
    ensures
        match r {
            Some(s) => capture_last_of(f.pattern(), line@) == Some(s@),
            None => capture_last_of(f.pattern(), line@) is None,
        },
{
    match f.re.captures(line) {
        None => None,
        Some(caps) => match caps.get(caps.len() - 1) {
            None => None,
            Some(m) => Some(m.as_str().to_owned()),
        },
    }
}

/// The line with its trailing newline removed: a final line feed — together
/// with the carriage return before it, if any — is dropped; everything else,
/// other trailing whitespace included, stays.
pub open spec fn newline_stripped(s: Seq<char>) -> Seq<char> {
    if s.len() >= 2 && s[s.len() - 1] == '\n' && s[s.len() - 2] == '\r' {
        s.subrange(0, s.len() - 2)
    } else if s.len() >= 1 && s[s.len() - 1] == '\n' {
        s.subrange(0, s.len() - 1)
    } else {
        s
    }
}

/// Removes the trailing newline of a line, if it has one.
pub fn strip_newline(raw: &str) -> (r: String)
    ensures
        r@ == newline_stripped(raw@),
{
    let len = raw.unicode_len();
    if len >= 2 {
        let last = raw.get_char(len - 1);
        if last == '\n' {
            let prev = raw.get_char(len - 2);
            let end = if prev == '\r' {
                len - 2
            } else {
                len - 1
            };
            return raw.substring_char(0, end).to_owned();
        }
        return raw.to_owned();
    }
    if len == 1 {
        let last = raw.get_char(0);
        if last == '\n' {
            let r = String::new();
            proof {
                assert(r@ =~= newline_stripped(raw@));
            }
            return r;
        }
    }
    raw.to_owned()
}

/// Why a filter pattern was rejected.
#[derive(Debug, PartialEq, Eq, Structural)]
pub enum FilterError {
    /// The regex engine refused the pattern.
    BadPattern,
    /// The pattern has more than one capture group.
    TooManyGroups,
}

/// A filter may capture nothing or exactly one group: counting the implicit
/// whole-match group, one or two groups in all.
pub fn group_count_allowed(len: usize) -> (r: bool)
    ensures
        r == (len == 1 || len == 2),
{
    len == 1 || len == 2
}

/// Builds the line filter from a pattern. The pattern is rejected before
/// any processing starts when it does not compile or when it holds more
/// than one capture group.
pub fn parse_regex(pattern: &str) -> (r: Result<LineFilter, FilterError>)
    ensures
        r is Ok <==> pattern_compiles(pattern@) && groups_of(pattern@) <= 2,
        r matches Ok(f) ==> f.pattern() == pattern@,
        r matches Err(e) ==> (e == FilterError::BadPattern <==> !pattern_compiles(pattern@)),
        r matches Err(e) ==> (e == FilterError::TooManyGroups <==> pattern_compiles(pattern@)
            && groups_of(pattern@) > 2),
{
    match compile_pattern(pattern) {
        None => Err(FilterError::BadPattern),
        Some(f) => {
            let len = f.captures_len();
            if group_count_allowed(len) {
                Ok(f)
            } else {
                Err(FilterError::TooManyGroups)
            }
        },
    }
}

/// The pattern an optional filter applies.
pub open spec fn filter_pattern(filter: Option<LineFilter>) -> Option<Seq<char>> {
    match filter {
        None => None,
        Some(f) => Some(f.pattern()),
    }
}

/// What one decoded line contributes: without a filter, the line with its
/// newline stripped; with one, the last capture group of a match, and
/// nothing for a line that does not match.
pub open spec fn contribution(pattern: Option<Seq<char>>, line: Seq<char>) -> Option<Seq<char>> {
    match pattern {
        None => Some(newline_stripped(line)),
        Some(p) => capture_last_of(p, line),
    }
}

/// Applies the optional filter to one decoded line.
pub fn filter_line(filter: &Option<LineFilter>, raw: &str) -> (r: Option<String>)
    ensures
        match r {
            Some(s) => contribution(filter_pattern(*filter), raw@) == Some(s@),
            None => contribution(filter_pattern(*filter), raw@) is None,
        },
{
    match filter {
        None => Some(strip_newline(raw)),
        Some(f) => capture_last(f, raw),
    }
}

/// The lines a batch of raw lines contributes, in order: undecodable lines
/// (`None`) and lines the filter drops fall out; the rest contribute their
/// filtered text.
pub open spec fn kept_lines(pattern: Option<Seq<char>>, raws: Seq<Option<String>>) -> Seq<
    Seq<char>,
>
    decreases raws.len(),
{
    if raws.len() == 0 {
        Seq::empty()
    } else {
        let rest = kept_lines(pattern, raws.drop_last());
        match raws.last() {
            Some(l) => match contribution(pattern, l@) {
                Some(t) => rest.push(t),
                None => rest,
            },
            None => rest,
        }
    }
}

/// Each raw line contributes at most one kept line.
proof fn lemma_kept_lines_len(pattern: Option<Seq<char>>, raws: Seq<Option<String>>)
    ensures
        kept_lines(pattern, raws).len() <= raws.len(),
    decreases raws.len(),
{
    if raws.len() > 0 {
        lemma_kept_lines_len(pattern, raws.drop_last());
    }
}

/// Feeds a batch of raw lines through the filter into the collector, in
/// order: an undecodable line (`None`) is skipped and never ends a batch,
/// an intact line is inserted exactly when the filter keeps it, with
/// exactly the text the filter yields.
pub fn consume_lines(
    collector: &mut LineCollector,
    filter: &Option<LineFilter>,
    raws: &Vec<Option<String>>,
)
    requires
        old(collector).wf(),
        old(collector).total() + raws@.len() <= usize::MAX,
    ensures
        final(collector).wf(),
        final(collector).counts() == counts_after(
            old(collector).counts(),
            kept_lines(filter_pattern(*filter), raws@),
        ),
        final(collector).total() == old(collector).total() + kept_lines(
            filter_pattern(*filter),
            raws@,
        ).len(),
{
    let ghost pat = filter_pattern(*filter);
    let n = raws.len();
    let mut i: usize = 0;
    proof {
        assert(raws@.subrange(0, 0) =~= Seq::empty());
    }
    while i < n
        invariant
            collector.wf(),
            old(collector).wf(),
            old(collector).total() + n <= usize::MAX,
            pat == filter_pattern(*filter),
            n == raws@.len(),
            i <= n,
            collector.counts() == counts_after(
                old(collector).counts(),
                kept_lines(pat, raws@.subrange(0, i as int)),
            ),
            collector.total() == old(collector).total() + kept_lines(
                pat,
                raws@.subrange(0, i as int),
            ).len(),
            kept_lines(pat, raws@.subrange(0, i as int)).len() <= i,
        decreases n - i,
    {
        let ghost pre = raws@.subrange(0, i as int);
        let ghost post = raws@.subrange(0, i + 1);
        proof {
            assert(post.drop_last() =~= pre);
            assert(post.last() == raws@[i as int]);
        }
        let ghost m0 = old(collector).counts();
        match &raws[i] {
            Some(raw) => {
                let picked = filter_line(filter, raw.as_str());
                match picked {
                    Some(text) => {
                        collector.insert(text.as_str());
                        proof {
                            let ks = kept_lines(pat, pre);
                            assert(kept_lines(pat, post) == ks.push(text@));
                            assert(ks.push(text@).drop_last() =~= ks);
                            assert(collector.counts() == counts_after(m0, kept_lines(pat, post)));
                        }
                    },
                    None => {
                        proof {
                            assert(kept_lines(pat, post) == kept_lines(pat, pre));
                        }
                    },
                }
            },
            None => {
                proof {
                    assert(kept_lines(pat, post) == kept_lines(pat, pre));
                }
            },
        }
        i = i + 1;
    }
    proof {
        assert(raws@.subrange(0, n as int) =~= raws@);
    }
}

} // verus!
