//! Character-level helpers: splitting on a delimiter and ASCII case-insensitive
//! comparison.
use vstd::prelude::*;

verus! {

/// The pieces of `s` between occurrences of `d`. Consecutive delimiters give
/// empty pieces, and there is always at least one piece.
pub open spec fn split_on(s: Seq<char>, d: char) -> Seq<Seq<char>>
    decreases s.len(),
{
    if s.len() == 0 {
        seq![Seq::<char>::empty()]
    } else {
        let rest = split_on(s.drop_last(), d);
        if s.last() == d {
            rest.push(Seq::<char>::empty())
        } else {
            rest.update(rest.len() - 1, rest.last().push(s.last()))
        }
    }
}

pub proof fn lemma_split_on_nonempty(s: Seq<char>, d: char)
    ensures
        split_on(s, d).len() >= 1,
    decreases s.len(),
{
    if s.len() > 0 {
        lemma_split_on_nonempty(s.drop_last(), d);
    }
}

/// `c` folded to lower case when it is an ASCII upper-case letter.
pub open spec fn is_upper_ascii(c: char) -> bool {
    65 <= c as u32 && c as u32 <= 90
}

pub open spec fn is_lower_ascii(c: char) -> bool {
    97 <= c as u32 && c as u32 <= 122
}

pub open spec fn fold_char(c: char) -> int {
    if is_upper_ascii(c) {
        c as u32 as int + 32
    } else {
        c as u32 as int
    }
}

/// `a` and `b` are equal up to the case of ASCII letters.
pub open spec fn eq_ignore_case(a: Seq<char>, b: Seq<char>) -> bool {
    &&& a.len() == b.len()
    &&& forall|i: int| 0 <= i < a.len() ==> #[trigger] fold_char(a[i]) == fold_char(b[i])
}

pub fn fold_char_exec(c: char) -> (r: u32)
    ensures
        r == fold_char(c),
{
    let v = c as u32;
    if 65 <= v && v <= 90 {
        v + 32
    } else {
        c as u32
    }
}

/// Compares `a` and `b` ignoring the case of ASCII letters.
pub fn str_eq_ignore_case(a: &str, b: &str) -> (r: bool)
    ensures
        r == eq_ignore_case(a@, b@),
{
    let n = a.unicode_len();
    if n != b.unicode_len() {
        return false;
    }
    let mut i: usize = 0;
    while i < n
        invariant
            n == a@.len() == b@.len(),
            i <= n,
            forall|j: int| 0 <= j < i ==> #[trigger] fold_char(a@[j]) == fold_char(b@[j]),
        decreases n - i,
    {
        if fold_char_exec(a.get_char(i)) != fold_char_exec(b.get_char(i)) {
            return false;
        }
        i += 1;
    }
    true
}

/// Splits `s` at each occurrence of `d`, keeping empty pieces.
pub fn split_str(s: &str, d: char) -> (r: Vec<String>)
    ensures
        r@.map_values(|t: String| t@) == split_on(s@, d),
{
    let n = s.unicode_len();
    let mut pieces: Vec<String> = Vec::new();
    let mut start: usize = 0;
    let mut i: usize = 0;
    proof {
        assert(s@.subrange(0, 0) =~= Seq::<char>::empty());
        assert(pieces@.map_values(|t: String| t@).push(s@.subrange(0, 0)) =~= split_on(
            Seq::<char>::empty(),
            d,
        ));
    }
    while i < n
        invariant
            n == s@.len(),
            start <= i <= n,
            split_on(s@.subrange(0, i as int), d) == pieces@.map_values(|t: String| t@).push(
                s@.subrange(start as int, i as int),
            ),
        decreases n - i,
    {
        let c = s.get_char(i);
        proof {
            assert(s@.subrange(0, i + 1).drop_last() == s@.subrange(0, i as int));
            assert(s@.subrange(0, i + 1).last() == c);
        }
        if c == d {
            let piece = String::from_str(s.substring_char(start, i));
            pieces.push(piece);
            start = i + 1;
            proof {
                assert(s@.subrange(start as int, i + 1) =~= Seq::<char>::empty());
                assert(pieces@.map_values(|t: String| t@) =~= split_on(s@.subrange(0, i as int), d).drop_last().push(piece@));
            }
        } else {
            proof {
                assert(s@.subrange(start as int, i + 1) =~= s@.subrange(start as int, i as int).push(c));
            }
        }
        i += 1;
    }
    pieces.push(String::from_str(s.substring_char(start, n)));
    proof {
        assert(s@.subrange(0, n as int) =~= s@);
        assert(pieces@.map_values(|t: String| t@) =~= split_on(s@, d));
    }
    pieces
}

/// Every character of `s` is ASCII.
pub open spec fn is_ascii_text(s: Seq<char>) -> bool {
    forall|i: int| 0 <= i < s.len() ==> (#[trigger] s[i]) as u32 <= 127
}

/// `r` is `s` with the ASCII letters `a` to `z` raised to `A` to `Z`.
pub open spec fn ascii_raised(s: Seq<char>, r: Seq<char>) -> bool {
    &&& r.len() == s.len()
    &&& forall|i: int|
        0 <= i < s.len() ==> (#[trigger] r[i]) as u32 as int == if is_lower_ascii(s[i]) {
            s[i] as u32 as int - 32
        } else {
            s[i] as u32 as int
        }
}

/// `r` is `s` with the ASCII letters `A` to `Z` lowered to `a` to `z`.
pub open spec fn ascii_lowered(s: Seq<char>, r: Seq<char>) -> bool {
    &&& r.len() == s.len()
    &&& forall|i: int|
        0 <= i < s.len() ==> (#[trigger] r[i]) as u32 as int == if is_upper_ascii(s[i]) {
            s[i] as u32 as int + 32
        } else {
            s[i] as u32 as int
        }
}

/// Every character of `k` is an upper-case ASCII letter.
pub open spec fn all_upper_letters(k: Seq<char>) -> bool {
    forall|i: int| 0 <= i < k.len() ==> is_upper_ascii(#[trigger] k[i])
}

/// Raising the letters of `t` gives the upper-case word `k` exactly when `t`
/// equals `k` up to ASCII case.
pub proof fn lemma_raised_matches(t: Seq<char>, u: Seq<char>, k: Seq<char>)
    requires
        ascii_raised(t, u),
        all_upper_letters(k),
    ensures
        (u == k) == eq_ignore_case(t, k),
{
    if eq_ignore_case(t, k) {
        assert forall|i: int| 0 <= i < k.len() implies u[i] == k[i] by {
            assert(fold_char(t[i]) == fold_char(k[i]));
            assert(is_upper_ascii(k[i]));
            assert(u[i] as u32 as int == if is_lower_ascii(t[i]) {
                t[i] as u32 as int - 32
            } else {
                t[i] as u32 as int
            });
            assert(u[i] as u32 == k[i] as u32);
            vstd::utf8::char_u32_cast(u[i], k[i] as u32);
            vstd::utf8::char_u32_cast(k[i], k[i] as u32);
        }
        assert(u =~= k);
    }
    if u == k {
        assert forall|i: int| 0 <= i < t.len() implies #[trigger] fold_char(t[i]) == fold_char(k[i]) by {
            assert(u[i] == k[i]);
            assert(is_upper_ascii(k[i]));
            assert(u[i] as u32 as int == if is_lower_ascii(t[i]) {
                t[i] as u32 as int - 32
            } else {
                t[i] as u32 as int
            });
        }
    }
}

/// Compares `a` and `b` character by character.
pub fn str_eq(a: &str, b: &str) -> (r: bool)
    ensures
        r == (a@ == b@),
{
    let n = a.unicode_len();
    if n != b.unicode_len() {
        return false;
    }
    let mut i: usize = 0;
    while i < n
        invariant
            n == a@.len() == b@.len(),
            i <= n,
            forall|j: int| 0 <= j < i ==> a@[j] == b@[j],
        decreases n - i,
    {
        if a.get_char(i) != b.get_char(i) {
            return false;
        }
        i += 1;
    }
    assert(a@ =~= b@);
    true
}

/// Unicode White_Space, the characters that `char::is_whitespace` accepts.
pub open spec fn is_white_space(c: char) -> bool {
    ('\u{9}' <= c && c <= '\u{d}') || c == ' ' || c == '\u{85}' || c == '\u{a0}' || c == '\u{1680}'
        || ('\u{2000}' <= c && c <= '\u{200a}') || c == '\u{2028}' || c == '\u{2029}' || c
        == '\u{202f}' || c == '\u{205f}' || c == '\u{3000}'
}

/// `s` without its leading and trailing white space.
pub open spec fn trimmed(s: Seq<char>) -> Seq<char>
    decreases s.len(),
{
    if s.len() == 0 {
        s
    } else if is_white_space(s[0]) {
        trimmed(s.drop_first())
    } else if is_white_space(s.last()) {
        trimmed(s.drop_last())
    } else {
        s
    }
}

} // verus!
