//! What a run of rules finds.

use crate::text::{dec, push_dec};
use vstd::prelude::*;

verus! {

/// How serious a finding is.
#[derive(Debug, Clone, Copy, PartialEq, Eq, Structural)]
pub enum Severity {
    Error,
    Warning,
    Info,
}

/// The files that a rule is for.
#[derive(Debug, Clone)]
pub enum FileScope {
    /// All.
    Anywhere,
    /// Those whose path holds one of these texts; the case of ASCII letters does not
    /// matter.
    OnlyIn(Vec<String>),
    /// Those whose path holds none of these texts.
    ExceptIn(Vec<String>),
}

/// An ASCII letter in lower case; other bytes as they are.
pub open spec fn lower(c: u8) -> u8 {
    if 65 <= c <= 90 {
        (c + 32) as u8
    } else {
        c
    }
}

/// `t` stands at place `i` of `s`, but for the case of ASCII letters.
pub open spec fn stands_at(s: Seq<u8>, t: Seq<u8>, i: int) -> bool {
    &&& 0 <= i
    &&& i + t.len() <= s.len()
    &&& forall|k: int| 0 <= k < t.len() ==> lower(#[trigger] t[k]) == lower(s[i + k])
}

/// `t` stands somewhere in `s`, but for the case of ASCII letters.
pub open spec fn holds_text(s: Seq<char>, t: Seq<char>) -> bool {
    exists|i: int|
        #[trigger] stands_at(vstd::utf8::encode_utf8(s), vstd::utf8::encode_utf8(t), i)
}

/// One of the texts stands in `s`.
pub open spec fn holds_any(s: Seq<char>, pats: Seq<String>) -> bool {
    exists|j: int| 0 <= j < pats.len() && #[trigger] holds_text(s, pats[j]@)
}

fn to_lower(c: u8) -> (r: u8)
    ensures
        r == lower(c),
{
    if 65 <= c && c <= 90 {
        c + 32
    } else {
        c
    }
}

fn stands(s: &[u8], t: &[u8], i: usize) -> (r: bool)
    requires
        i + t@.len() <= s@.len(),
    ensures
        r == stands_at(s@, t@, i as int),
{
    let n: usize = s.len();
    for k in 0..t.len()
        invariant
            n == s@.len(),
            i + t@.len() <= n,
            forall|x: int| 0 <= x < k ==> lower(#[trigger] t@[x]) == lower(s@[i + x]),
    {
        if to_lower(t[k]) != to_lower(s[i + k]) {
            assert(lower(t@[k as int]) != lower(s@[i + k]));
            return false;
        }
    }
    true
}

fn contains_text(path: &str, pat: &str) -> (r: bool)
    ensures
        r == holds_text(path@, pat@),
{
    let s: &[u8] = path.as_bytes();
    let t: &[u8] = pat.as_bytes();
    let n: usize = s.len();
    let m: usize = t.len();
    if m > n {
        return false;
    }
    let mut i: usize = 0;
    while i <= n - m
        invariant
            n == s@.len(),
            m == t@.len(),
            m <= n,
            i <= n - m + 1,
            s@ == vstd::utf8::encode_utf8(path@),
            t@ == vstd::utf8::encode_utf8(pat@),
            forall|k: int| 0 <= k < i ==> !#[trigger] stands_at(s@, t@, k),
        decreases n - m + 1 - i,
    {
        if stands(s, t, i) {
            return true;
        }
        if i == n - m {
            return false;
        }
        i = i + 1;
    }
    false
}

fn contains_any(path: &str, pats: &Vec<String>) -> (r: bool)
    ensures
        r == holds_any(path@, pats@),
{
    for j in 0..pats.len()
        invariant
            forall|k: int| 0 <= k < j ==> !#[trigger] holds_text(path@, pats@[k]@),
    {
        if contains_text(path, pats[j].as_str()) {
            assert(holds_text(path@, pats@[j as int]@));
            return true;
        }
    }
    false
}

impl FileScope {
    /// The rule is for the file at `path`.
    pub open spec fn covers(self, path: Seq<char>) -> bool {
        match self {
            FileScope::Anywhere => true,
            FileScope::OnlyIn(pats) => holds_any(path, pats@),
            FileScope::ExceptIn(pats) => !holds_any(path, pats@),
        }
    }

    /// Tells whether the rule is for the file at `path`.
    pub fn allows(&self, path: &str) -> (r: bool)
        ensures
            r == self.covers(path@),
    {
        match self {
            FileScope::Anywhere => true,
            FileScope::OnlyIn(pats) => contains_any(path, pats),
            FileScope::ExceptIn(pats) => !contains_any(path, pats),
        }
    }
}

/// One violation of a rule, and where it is.
#[derive(Debug, Clone)]
pub struct Finding {
    pub rule: String,
    pub severity: Severity,
    pub keyword: String,
    pub file: String,
    pub line: usize,
    pub message: String,
}

/// The contents of a finding.
pub struct FindingView {
    pub rule: Seq<char>,
    pub severity: Severity,
    pub keyword: Seq<char>,
    pub file: Seq<char>,
    pub line: usize,
    pub message: Seq<char>,
}

impl View for Finding {
    type V = FindingView;

    open spec fn view(&self) -> FindingView {
        FindingView {
            rule: self.rule@,
            severity: self.severity,
            keyword: self.keyword@,
            file: self.file@,
            line: self.line,
            message: self.message@,
        }
    }
}

pub open spec fn finding_views(s: Seq<Finding>) -> Seq<FindingView> {
    Seq::new(s.len(), |i: int| s[i]@)
}

impl Finding {
    /// The place, as `file:line`.
    pub fn location(&self) -> (r: String)
        ensures
            r@ == self.file@ + ":"@ + dec(self.line as nat),
    {
        let mut s: String = String::from_str(self.file.as_str());
        s.append(":");
        push_dec(&mut s, self.line as u64);
        s
    }
}

/// What a run of rules found.
#[derive(Debug)]
pub struct Report {
    pub findings: Vec<Finding>,
}

impl Default for Report {
    fn default() -> (r: Self)
        ensures
            r.findings@.len() == 0,
    {
        Report { findings: Vec::new() }
    }
}

/// How many findings have a severity.
pub open spec fn count_of(s: Seq<Finding>, sev: Severity) -> nat
    decreases s.len(),
{
    if s.len() == 0 {
        0
    } else {
        count_of(s.drop_last(), sev) + if s.last().severity == sev {
            1nat
        } else {
            0
        }
    }
}

impl Report {
    /// Nothing found is an error.
    pub fn is_clean(&self) -> (r: bool)
        ensures
            r == forall|i: int|
                0 <= i < self.findings@.len() ==> (#[trigger] self.findings@[i]).severity
                    != Severity::Error,
    {
        for i in 0..self.findings.len()
            invariant
                forall|k: int|
                    0 <= k < i ==> (#[trigger] self.findings@[k]).severity != Severity::Error,
        {
            if self.findings[i].severity == Severity::Error {
                assert(self.findings@[i as int].severity == Severity::Error);
                return false;
            }
        }
        true
    }

    /// The number of findings of a severity.
    pub fn count(&self, sev: Severity) -> (r: usize)
        ensures
            r == count_of(self.findings@, sev),
    {
        let mut n: usize = 0;
        let ghost s = self.findings@;
        assert(s.take(0) =~= Seq::<Finding>::empty());
        for i in 0..self.findings.len()
            invariant
                s == self.findings@,
                n == count_of(s.take(i as int), sev),
                n <= i,
        {
            assert(s.take(i + 1).drop_last() =~= s.take(i as int));
            assert(s.take(i + 1).last() == s[i as int]);
            if self.findings[i].severity == sev {
                n = n + 1;
            }
        }
        assert(s.take(s.len() as int) =~= s);
        n
    }
}

/// A report is clean when it counts no errors.
pub proof fn law_clean_counts_no_errors(s: Seq<Finding>)
    ensures
        count_of(s, Severity::Error) == 0 <==> forall|i: int|
            0 <= i < s.len() ==> (#[trigger] s[i]).severity != Severity::Error,
    decreases s.len(),
{
    if s.len() > 0 {
        let t = s.drop_last();
        law_clean_counts_no_errors(t);
        if count_of(s, Severity::Error) == 0 {
            assert forall|i: int| 0 <= i < s.len() implies (#[trigger] s[i]).severity
                != Severity::Error by {
                if i < t.len() {
                    assert(t[i] == s[i]);
                }
            }
        } else if count_of(t, Severity::Error) > 0 {
            let i = choose|i: int|
                0 <= i < t.len() && (#[trigger] t[i]).severity == Severity::Error;
            assert(s[i] == t[i]);
        } else {
            assert(s[s.len() - 1].severity == Severity::Error);
        }
    }
}

} // verus!
