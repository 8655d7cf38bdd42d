//! Neighbour unreachability detection (NUD) states, as the kernel reports
//! them in the last field of a neighbour-table line.
use vstd::prelude::*;
use crate::text::{
    all_upper_letters, ascii_raised, eq_ignore_case, fold_char, is_ascii_text, lemma_raised_matches,
    str_eq,
};

verus! {

/// The text that `str::to_uppercase` makes of `s`.
pub uninterp spec fn upper_of(s: Seq<char>) -> Seq<char>;

/// Relies on `str::to_uppercase`: Unicode upper-casing, a function of the
/// characters alone, which raises the ASCII letters of ASCII text and leaves
/// its other characters as they are.
#[verifier::external_body]
fn to_upper(s: &str) -> (r: String)
    ensures
        r@ == upper_of(s@),
        is_ascii_text(s@) ==> ascii_raised(s@, r@),
{
    s.to_uppercase()
}

/// Reachability status of a neighbour entry. `UNKNOWN` stands for any word
/// that is not one of the nine kernel keywords.
#[derive(Debug, Clone, Copy, PartialEq, Eq, Structural)]
pub enum NudState {
    UNKNOWN,
    PERMANENT,
    NOARP,
    REACHABLE,
    STALE,
    NONE,
    INCOMPLETE,
    DELAY,
    PROBE,
    FAILED,
}

/// The keyword, in upper case, that names a known state (empty for `UNKNOWN`).
pub open spec fn keyword(s: NudState) -> Seq<char> {
    match s {
        NudState::UNKNOWN => Seq::<char>::empty(),
        NudState::PERMANENT => seq!['P', 'E', 'R', 'M', 'A', 'N', 'E', 'N', 'T'],
        NudState::NOARP => seq!['N', 'O', 'A', 'R', 'P'],
        NudState::REACHABLE => seq!['R', 'E', 'A', 'C', 'H', 'A', 'B', 'L', 'E'],
        NudState::STALE => seq!['S', 'T', 'A', 'L', 'E'],
        NudState::NONE => seq!['N', 'O', 'N', 'E'],
        NudState::INCOMPLETE => seq!['I', 'N', 'C', 'O', 'M', 'P', 'L', 'E', 'T', 'E'],
        NudState::DELAY => seq!['D', 'E', 'L', 'A', 'Y'],
        NudState::PROBE => seq!['P', 'R', 'O', 'B', 'E'],
        NudState::FAILED => seq!['F', 'A', 'I', 'L', 'E', 'D'],
    }
}

/// The state whose keyword is exactly the upper-cased word `u`, else
/// `UNKNOWN`.
pub open spec fn nud_of_upper(u: Seq<char>) -> NudState {
    if u == keyword(NudState::PERMANENT) {
        NudState::PERMANENT
    } else if u == keyword(NudState::NOARP) {
        NudState::NOARP
    } else if u == keyword(NudState::REACHABLE) {
        NudState::REACHABLE
    } else if u == keyword(NudState::STALE) {
        NudState::STALE
    } else if u == keyword(NudState::NONE) {
        NudState::NONE
    } else if u == keyword(NudState::INCOMPLETE) {
        NudState::INCOMPLETE
    } else if u == keyword(NudState::DELAY) {
        NudState::DELAY
    } else if u == keyword(NudState::PROBE) {
        NudState::PROBE
    } else if u == keyword(NudState::FAILED) {
        NudState::FAILED
    } else {
        NudState::UNKNOWN
    }
}

/// The state that the word `t` names: the one whose keyword is `t` in upper
/// case.
pub open spec fn nud_of(t: Seq<char>) -> NudState {
    nud_of_upper(upper_of(t))
}

/// For an ASCII word: the known state whose keyword equals `t` up to ASCII
/// case, else `UNKNOWN`.
pub open spec fn nud_of_ascii(t: Seq<char>) -> NudState {
    if eq_ignore_case(t, keyword(NudState::PERMANENT)) {
        NudState::PERMANENT
    } else if eq_ignore_case(t, keyword(NudState::NOARP)) {
        NudState::NOARP
    } else if eq_ignore_case(t, keyword(NudState::REACHABLE)) {
        NudState::REACHABLE
    } else if eq_ignore_case(t, keyword(NudState::STALE)) {
        NudState::STALE
    } else if eq_ignore_case(t, keyword(NudState::NONE)) {
        NudState::NONE
    } else if eq_ignore_case(t, keyword(NudState::INCOMPLETE)) {
        NudState::INCOMPLETE
    } else if eq_ignore_case(t, keyword(NudState::DELAY)) {
        NudState::DELAY
    } else if eq_ignore_case(t, keyword(NudState::PROBE)) {
        NudState::PROBE
    } else if eq_ignore_case(t, keyword(NudState::FAILED)) {
        NudState::FAILED
    } else {
        NudState::UNKNOWN
    }
}

/// Reads an upper-cased word as the state it names.
pub fn nud_from_upper(u: &str) -> (r: NudState)
    ensures
        r == nud_of_upper(u@),
{
    proof {
        reveal_strlit("PERMANENT");
        reveal_strlit("NOARP");
        reveal_strlit("REACHABLE");
        reveal_strlit("STALE");
        reveal_strlit("NONE");
        reveal_strlit("INCOMPLETE");
        reveal_strlit("DELAY");
        reveal_strlit("PROBE");
        reveal_strlit("FAILED");
        assert("PERMANENT"@ == keyword(NudState::PERMANENT));
        assert("NOARP"@ == keyword(NudState::NOARP));
        assert("REACHABLE"@ == keyword(NudState::REACHABLE));
        assert("STALE"@ == keyword(NudState::STALE));
        assert("NONE"@ == keyword(NudState::NONE));
        assert("INCOMPLETE"@ == keyword(NudState::INCOMPLETE));
        assert("DELAY"@ == keyword(NudState::DELAY));
        assert("PROBE"@ == keyword(NudState::PROBE));
        assert("FAILED"@ == keyword(NudState::FAILED));
    }
    if str_eq(u, "PERMANENT") {
        NudState::PERMANENT
    } else if str_eq(u, "NOARP") {
        NudState::NOARP
    } else if str_eq(u, "REACHABLE") {
        NudState::REACHABLE
    } else if str_eq(u, "STALE") {
        NudState::STALE
    } else if str_eq(u, "NONE") {
        NudState::NONE
    } else if str_eq(u, "INCOMPLETE") {
        NudState::INCOMPLETE
    } else if str_eq(u, "DELAY") {
        NudState::DELAY
    } else if str_eq(u, "PROBE") {
        NudState::PROBE
    } else if str_eq(u, "FAILED") {
        NudState::FAILED
    } else {
        NudState::UNKNOWN
    }
}

/// Reads a state keyword in any letter case; any other word gives `UNKNOWN`.
/// An ASCII word reads as the state whose keyword it equals up to case.
pub fn parse_nud_from_str(nud_state_str: &str) -> (r: NudState)
    ensures
        r == nud_of(nud_state_str@),
        is_ascii_text(nud_state_str@) ==> r == nud_of_ascii(nud_state_str@),
{
    let u = to_upper(nud_state_str);
    proof {
        if is_ascii_text(nud_state_str@) {
            lemma_upper_agrees(nud_state_str@, u@);
        }
    }
    nud_from_upper(u.as_str())
}

proof fn lemma_keywords_upper(s: NudState)
    ensures
        all_upper_letters(keyword(s)),
{
}

/// On ASCII text, matching the upper-cased word exactly agrees with matching
/// the word up to case.
proof fn lemma_upper_agrees(t: Seq<char>, u: Seq<char>)
    requires
        ascii_raised(t, u),
    ensures
        nud_of_upper(u) == nud_of_ascii(t),
{
    lemma_keywords_upper(NudState::PERMANENT);
    lemma_keywords_upper(NudState::NOARP);
    lemma_keywords_upper(NudState::REACHABLE);
    lemma_keywords_upper(NudState::STALE);
    lemma_keywords_upper(NudState::NONE);
    lemma_keywords_upper(NudState::INCOMPLETE);
    lemma_keywords_upper(NudState::DELAY);
    lemma_keywords_upper(NudState::PROBE);
    lemma_keywords_upper(NudState::FAILED);
    lemma_raised_matches(t, u, keyword(NudState::PERMANENT));
    lemma_raised_matches(t, u, keyword(NudState::NOARP));
    lemma_raised_matches(t, u, keyword(NudState::REACHABLE));
    lemma_raised_matches(t, u, keyword(NudState::STALE));
    lemma_raised_matches(t, u, keyword(NudState::NONE));
    lemma_raised_matches(t, u, keyword(NudState::INCOMPLETE));
    lemma_raised_matches(t, u, keyword(NudState::DELAY));
    lemma_raised_matches(t, u, keyword(NudState::PROBE));
    lemma_raised_matches(t, u, keyword(NudState::FAILED));
}

/// Any word equal to a state's keyword up to ASCII letter case reads as that
/// state, and a word equal to no keyword reads as `UNKNOWN` (for ASCII words,
/// what `parse_nud_from_str` returns).
pub proof fn lemma_keyword_any_case(t: Seq<char>, s: NudState)
    ensures
        s != NudState::UNKNOWN && eq_ignore_case(t, keyword(s)) ==> nud_of_ascii(t) == s,
        (forall|k: NudState| k != NudState::UNKNOWN ==> !eq_ignore_case(t, #[trigger] keyword(k)))
            ==> nud_of_ascii(t) == NudState::UNKNOWN,
{
    if s != NudState::UNKNOWN && eq_ignore_case(t, keyword(s)) {
        // Keywords of equal length differ at their first letter.
        assert forall|k: NudState| k != s && k != NudState::UNKNOWN
            implies !eq_ignore_case(t, #[trigger] keyword(k)) by {
            if eq_ignore_case(t, keyword(k)) {
                assert(fold_char(t[0]) == fold_char(keyword(s)[0]));
                assert(fold_char(t[0]) == fold_char(keyword(k)[0]));
                if keyword(k)[0] == keyword(s)[0] {
                    assert(fold_char(t[1]) == fold_char(keyword(s)[1]));
                    assert(fold_char(t[1]) == fold_char(keyword(k)[1]));
                }
            }
        }
    }
    if forall|k: NudState| k != NudState::UNKNOWN ==> !eq_ignore_case(t, #[trigger] keyword(k)) {
        assert(!eq_ignore_case(t, keyword(NudState::PERMANENT)));
        assert(!eq_ignore_case(t, keyword(NudState::NOARP)));
        assert(!eq_ignore_case(t, keyword(NudState::REACHABLE)));
        assert(!eq_ignore_case(t, keyword(NudState::STALE)));
        assert(!eq_ignore_case(t, keyword(NudState::NONE)));
        assert(!eq_ignore_case(t, keyword(NudState::INCOMPLETE)));
        assert(!eq_ignore_case(t, keyword(NudState::DELAY)));
        assert(!eq_ignore_case(t, keyword(NudState::PROBE)));
        assert(!eq_ignore_case(t, keyword(NudState::FAILED)));
    }
}

} // verus!
