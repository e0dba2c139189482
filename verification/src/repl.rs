//! The decision logic of the interactive session: what to do with one line
//! that the line editor hands in.  The editor itself — reading, history,
//! printing — is unverified plumbing around this function.

use vstd::prelude::*;
use vstd::string::StrSliceExecFns;
use crate::lexer::is_space_char;

verus! {

/// What the session does with one input line.
#[derive(Debug, PartialEq)]
pub enum LineAction {
    /// A blank line: read the next line.
    Skip,
    /// A quit command: end the session.
    Quit,
    /// Anything else: hand the trimmed text on, and keep it in the history.
    Forward(String),
}

/// The mathematical model of a line action.
pub ghost enum LineActionModel {
    Skip,
    Quit,
    Forward(Seq<char>),
}

impl View for LineAction {
    type V = LineActionModel;

    open spec fn view(&self) -> LineActionModel {
        match self {
            LineAction::Skip => LineActionModel::Skip,
            LineAction::Quit => LineActionModel::Quit,
            LineAction::Forward(s) => LineActionModel::Forward(s@),
        }
    }
}

/// The index of the first non-whitespace character at or after `j`.
pub open spec fn scan_space(s: Seq<char>, j: int) -> int
    decreases s.len() - j,
{
    if 0 <= j < s.len() && is_space_char(s[j]) {
        scan_space(s, j + 1)
    } else {
        j
    }
}

/// One past the last non-whitespace character strictly before `j`.
pub open spec fn rscan_space(s: Seq<char>, j: int) -> int
    decreases j,
{
    if 0 < j <= s.len() && is_space_char(s[j - 1]) {
        rscan_space(s, j - 1)
    } else {
        j
    }
}

/// The line with leading and trailing whitespace removed.
pub open spec fn spec_trim(s: Seq<char>) -> Seq<char> {
    if scan_space(s, 0) == s.len() {
        Seq::empty()
    } else {
        s.subrange(scan_space(s, 0), rscan_space(s, s.len() as int))
    }
}

/// What the session decides for one line: skip it when blank after trimming,
/// quit on the quit commands, otherwise forward the trimmed text.
pub open spec fn spec_classify(s: Seq<char>) -> LineActionModel {
    let t = spec_trim(s);
    if t.len() == 0 {
        LineActionModel::Skip
    } else if t == ":q"@ || t == ":quit"@ || t == "exit"@ {
        LineActionModel::Quit
    } else {
        LineActionModel::Forward(t)
    }
}

proof fn lemma_scan_space_at(s: Seq<char>, j: int, k: int)
    requires
        0 <= j <= k <= s.len(),
        forall|m: int| j <= m < k ==> is_space_char(s[m]),
        k == s.len() || !is_space_char(s[k]),
    ensures
        scan_space(s, j) == k,
    decreases k - j,
{
    if j < k {
        lemma_scan_space_at(s, j + 1, k);
    }
}

proof fn lemma_rscan_space_at(s: Seq<char>, j: int, k: int)
    requires
        0 <= k <= j <= s.len(),
        forall|m: int| k <= m < j ==> is_space_char(s[m]),
        k == 0 || !is_space_char(s[k - 1]),
    ensures
        rscan_space(s, j) == k,
    decreases j - k,
{
    if k < j {
        lemma_rscan_space_at(s, j - 1, k);
    }
}

/// True when the string equals the given text.
fn str_text_eq(a: &String, b: &str) -> (r: bool)
    ensures
        r == (a@ == b@),
{
    let bs: String = b.to_owned();
    a.eq(&bs)
}

fn is_space(c: char) -> (r: bool)
    ensures
        r == is_space_char(c),
{
    let u = c as u32;
    (0x09 <= u && u <= 0x0D) || u == 0x20 || u == 0x85 || u == 0xA0 || u == 0x1680 || (0x2000 <= u
        && u <= 0x200A) || u == 0x2028 || u == 0x2029 || u == 0x202F || u == 0x205F || u == 0x3000
}

/// Decide what the session does with one input line: exactly what
/// `spec_classify` says of its characters.
#[verifier::loop_isolation(false)]
pub fn classify_line(line: &str) -> (r: LineAction)
    ensures
        r@ == spec_classify(line@),
{
    let ghost s = line@;
    let n = line.unicode_len();
    let mut a: usize = 0;
    while a < n && is_space(line.get_char(a))
        invariant
            a <= n,
            n == s.len(),
            forall|m: int| 0 <= m < a ==> is_space_char(s[m]),
        decreases n - a,
    {
        a = a + 1;
    }
    proof {
        lemma_scan_space_at(s, 0, a as int);
    }
    if a == n {
        return LineAction::Skip;
    }
    let mut b: usize = n;
    while b > 0 && is_space(line.get_char(b - 1))
        invariant
            b <= n,
            n == s.len(),
            forall|m: int| b <= m < n ==> is_space_char(s[m]),
        decreases b,
    {
        b = b - 1;
    }
    proof {
        lemma_rscan_space_at(s, n as int, b as int);
    }
    // a marks a non-whitespace character, so the backward scan stops at or
    // after it
    proof {
        assert(!is_space_char(s[a as int]));
        assert(b as int > a as int) by {
            if b as int <= a as int {
                assert(is_space_char(s[a as int]));
            }
        };
    }
    let trimmed = line.substring_char(a, b).to_owned();
    if str_text_eq(&trimmed, ":q") || str_text_eq(&trimmed, ":quit") || str_text_eq(
        &trimmed,
        "exit",
    ) {
        LineAction::Quit
    } else {
        proof {
            assert(spec_trim(s).len() > 0);
        }
        LineAction::Forward(trimmed)
    }
}

} // verus!
