//! IP addresses in their textual forms: dotted-quad IPv4 and colon-separated
//! IPv6, with `::` compression and an optional trailing dotted quad.
use vstd::prelude::*;
use crate::text::{split_on, split_str};

verus! {

/// A parsed address: four octets, or eight 16-bit groups.
#[derive(Debug, Clone, PartialEq, Eq)]
pub enum IpAddr {
    V4(Vec<u8>),
    V6(Vec<u16>),
}

impl IpAddr {
    /// Four octets for IPv4, eight groups for IPv6.
    pub open spec fn wf(&self) -> bool {
        match self {
            IpAddr::V4(o) => o.len() == 4,
            IpAddr::V6(g) => g.len() == 8,
        }
    }
}

/// The mathematical value of an `IpAddr`.
pub enum IpView {
    V4(Seq<u8>),
    V6(Seq<u16>),
}

impl View for IpAddr {
    type V = IpView;

    open spec fn view(&self) -> IpView {
        match self {
            IpAddr::V4(o) => IpView::V4(o@),
            IpAddr::V6(g) => IpView::V6(g@),
        }
    }
}

pub open spec fn is_dec_digit(c: char) -> bool {
    '0' <= c && c <= '9'
}

pub open spec fn is_hex_digit(c: char) -> bool {
    is_dec_digit(c) || ('a' <= c && c <= 'f') || ('A' <= c && c <= 'F')
}

pub open spec fn hex_digit_value(c: char) -> nat {
    if is_dec_digit(c) {
        (c as u32 - '0' as u32) as nat
    } else if 'a' <= c && c <= 'f' {
        (c as u32 - 'a' as u32 + 10) as nat
    } else {
        (c as u32 - 'A' as u32 + 10) as nat
    }
}

/// The number that the digits `p` spell in base `radix`.
pub open spec fn digits_value(p: Seq<char>, radix: nat) -> nat
    decreases p.len(),
{
    if p.len() == 0 {
        0
    } else {
        digits_value(p.drop_last(), radix) * radix + hex_digit_value(p.last())
    }
}

/// One decimal octet: one to three digits, no leading zero unless the octet
/// is `0` itself, and a value of at most 255.
pub open spec fn octet_of(p: Seq<char>) -> Option<u8> {
    if 1 <= p.len() <= 3 && (forall|i: int| 0 <= i < p.len() ==> is_dec_digit(#[trigger] p[i]))
        && (p.len() == 1 || p[0] != '0') && digits_value(p, 10) <= 255 {
        Some(digits_value(p, 10) as u8)
    } else {
        None
    }
}

/// One IPv6 group: one to four hexadecimal digits of either case.
pub open spec fn group_of(p: Seq<char>) -> Option<u16> {
    if 1 <= p.len() <= 4 && (forall|i: int| 0 <= i < p.len() ==> is_hex_digit(#[trigger] p[i])) {
        Some(digits_value(p, 16) as u16)
    } else {
        None
    }
}

/// A dotted-quad IPv4 address: exactly four octets separated by `.`.
pub open spec fn ipv4_of(t: Seq<char>) -> Option<Seq<u8>> {
    let ps = split_on(t, '.');
    if ps.len() == 4 && (forall|i: int| 0 <= i < 4 ==> (#[trigger] octet_of(ps[i])).is_some()) {
        Some(Seq::new(4, |i: int| octet_of(ps[i]).unwrap()))
    } else {
        None
    }
}

/// Every piece of `ps` is a hexadecimal group.
pub open spec fn all_groups(ps: Seq<Seq<char>>) -> bool {
    forall|i: int| 0 <= i < ps.len() ==> (#[trigger] group_of(ps[i])).is_some()
}

pub open spec fn group_values(ps: Seq<Seq<char>>) -> Seq<u16> {
    Seq::new(ps.len(), |i: int| group_of(ps[i]).unwrap())
}

/// The two groups that a dotted quad stands for inside an IPv6 address.
pub open spec fn quad_groups(o: Seq<u8>) -> Seq<u16> {
    seq![(o[0] * 256 + o[1]) as u16, (o[2] * 256 + o[3]) as u16]
}

/// A run of groups: hexadecimal groups, of which the last may instead be a
/// dotted quad worth two groups.
pub open spec fn groups_of(ps: Seq<Seq<char>>) -> Option<Seq<u16>> {
    if ps.len() == 0 {
        Some(Seq::<u16>::empty())
    } else if !all_groups(ps.drop_last()) {
        None
    } else if group_of(ps.last()).is_some() {
        Some(group_values(ps))
    } else if ipv4_of(ps.last()).is_some() {
        Some(group_values(ps.drop_last()) + quad_groups(ipv4_of(ps.last()).unwrap()))
    } else {
        None
    }
}

/// Index of the first empty piece of `ps`.
pub open spec fn first_empty(ps: Seq<Seq<char>>) -> int {
    choose|j: int| 0 <= j < ps.len() && ps[j].len() == 0 && forall|i: int| 0 <= i < j ==> ps[i].len() > 0
}

/// The pieces after a `::` whose first colon ends piece `j`, with the lone
/// empty piece of a trailing `::` removed.
pub open spec fn tail_pieces(ps: Seq<Seq<char>>, j: int) -> Seq<Seq<char>> {
    let start = if j == 0 { 2 } else { j + 1 };
    let rest = ps.subrange(start, ps.len() as int);
    if rest.len() == 1 && rest[0].len() == 0 {
        Seq::<Seq<char>>::empty()
    } else {
        rest
    }
}

/// An IPv6 address: eight groups, or fewer around one `::` that stands for
/// at least one zero group.
#[verifier::opaque]
pub open spec fn ipv6_of(t: Seq<char>) -> Option<Seq<u16>> {
    let ps = split_on(t, ':');
    if forall|i: int| 0 <= i < ps.len() ==> (#[trigger] ps[i]).len() > 0 {
        match groups_of(ps) {
            Some(g) => if g.len() == 8 { Some(g) } else { None },
            None => None,
        }
    } else {
        let j = first_empty(ps);
        let head = ps.subrange(0, j);
        let well_placed = if j == 0 { ps.len() >= 3 && ps[1].len() == 0 } else { j + 2 <= ps.len() };
        if !well_placed || !all_groups(head) {
            None
        } else {
            match groups_of(tail_pieces(ps, j)) {
                Some(tg) => if j + tg.len() <= 7 {
                    Some(group_values(head) + Seq::new((8 - j - tg.len()) as nat, |i: int| 0u16) + tg)
                } else {
                    None
                },
                None => None,
            }
        }
    }
}

/// An address as the text `t` gives it: IPv4 when `t` is a dotted quad,
/// else IPv6.
pub open spec fn ip_of(t: Seq<char>) -> Option<IpView> {
    match ipv4_of(t) {
        Some(o) => Some(IpView::V4(o)),
        None => match ipv6_of(t) {
            Some(g) => Some(IpView::V6(g)),
            None => None,
        },
    }
}

pub open spec fn radix_pow(radix: nat, n: nat) -> nat
    decreases n,
{
    if n == 0 {
        1
    } else {
        radix_pow(radix, (n - 1) as nat) * radix
    }
}

proof fn lemma_radix_pow_small(radix: nat, n: nat)
    requires
        radix == 10 || radix == 16,
        n <= 4,
    ensures
        radix_pow(radix, n) <= 65536,
{
    reveal_with_fuel(radix_pow, 5);
}

pub open spec fn is_digit_in(c: char, radix: nat) -> bool {
    if radix == 10 {
        is_dec_digit(c)
    } else {
        is_hex_digit(c)
    }
}

fn digit_value(c: char) -> (r: u32)
    requires
        is_hex_digit(c),
    ensures
        r == hex_digit_value(c),
{
    if '0' <= c && c <= '9' {
        c as u32 - '0' as u32
    } else if 'a' <= c && c <= 'f' {
        c as u32 - 'a' as u32 + 10
    } else {
        c as u32 - 'A' as u32 + 10
    }
}

/// Reads one to four digits of base 10 or 16 that make up all of `p`.
fn parse_number(p: &str, radix: u32) -> (r: Option<u32>)
    requires
        radix == 10 || radix == 16,
    ensures
        r.is_some() <==> (1 <= p@.len() <= 4 && forall|i: int|
            0 <= i < p@.len() ==> is_digit_in(#[trigger] p@[i], radix as nat)),
        r.is_some() ==> r.unwrap() == digits_value(p@, radix as nat) && r.unwrap() < 65536,
{
    let n = p.unicode_len();
    if n < 1 || n > 4 {
        return None;
    }
    let mut v: u32 = 0;
    let mut i: usize = 0;
    proof {
        assert(p@.subrange(0, 0) =~= Seq::<char>::empty());
    }
    while i < n
        invariant
            n == p@.len(),
            1 <= n <= 4,
            i <= n,
            radix == 10 || radix == 16,
            v == digits_value(p@.subrange(0, i as int), radix as nat),
            v < radix_pow(radix as nat, i as nat),
            forall|j: int| 0 <= j < i ==> is_digit_in(#[trigger] p@[j], radix as nat),
        decreases n - i,
    {
        let c = p.get_char(i);
        let ok = if radix == 10 {
            '0' <= c && c <= '9'
        } else {
            ('0' <= c && c <= '9') || ('a' <= c && c <= 'f') || ('A' <= c && c <= 'F')
        };
        if !ok {
            return None;
        }
        let d = digit_value(c);
        proof {
            lemma_radix_pow_small(radix as nat, i as nat);
            assert(p@.subrange(0, i + 1).drop_last() =~= p@.subrange(0, i as int));
            assert(d < radix);
            let pw = radix_pow(radix as nat, i as nat);
            assert(v * radix + d < pw * radix) by (nonlinear_arith)
                requires
                    v < pw,
                    d < radix,
            ;
            assert(v * radix <= 65536 * 16) by (nonlinear_arith)
                requires
                    v < 65536,
                    radix <= 16,
            ;
        }
        v = v * radix + d;
        i += 1;
    }
    proof {
        lemma_radix_pow_small(radix as nat, n as nat);
        assert(p@.subrange(0, n as int) =~= p@);
    }
    Some(v)
}

/// Reads one decimal octet of a dotted quad.
pub fn parse_octet(p: &str) -> (r: Option<u8>)
    ensures
        r == octet_of(p@),
{
    let n = p.unicode_len();
    if n > 3 {
        return None;
    }
    match parse_number(p, 10) {
        None => None,
        Some(v) => {
            if n > 1 && p.get_char(0) == '0' {
                None
            } else if v > 255 {
                None
            } else {
                Some(v as u8)
            }
        },
    }
}

/// Reads one hexadecimal group of an IPv6 address.
pub fn parse_group(p: &str) -> (r: Option<u16>)
    ensures
        r == group_of(p@),
{
    match parse_number(p, 16) {
        None => None,
        Some(v) => Some(v as u16),
    }
}

pub open spec fn opt_seq<T>(r: Option<Vec<T>>) -> Option<Seq<T>> {
    match r {
        Some(v) => Some(v@),
        None => None,
    }
}

pub open spec fn pieces(ps: Seq<String>) -> Seq<Seq<char>> {
    ps.map_values(|t: String| t@)
}

/// Reads a dotted-quad IPv4 address.
pub fn parse_ipv4(t: &str) -> (r: Option<Vec<u8>>)
    ensures
        opt_seq(r) == ipv4_of(t@),
        r matches Some(o) ==> o.len() == 4,
{
    let ps = split_str(t, '.');
    let ghost sp = split_on(t@, '.');
    if ps.len() != 4 {
        return None;
    }
    let mut o: Vec<u8> = Vec::new();
    let mut i: usize = 0;
    while i < 4
        invariant
            pieces(ps@) == sp,
            sp == split_on(t@, '.'),
            ps.len() == 4,
            i <= 4,
            o.len() == i,
            forall|j: int| 0 <= j < i ==> #[trigger] octet_of(sp[j]) == Some(o@[j]),
        decreases 4 - i,
    {
        assert(sp[i as int] == ps@[i as int]@);
        match parse_octet(ps[i].as_str()) {
            None => {
                return None;
            },
            Some(x) => {
                o.push(x);
            },
        }
        i += 1;
    }
    proof {
        assert(forall|j: int| 0 <= j < 4 ==> (#[trigger] octet_of(sp[j])).is_some());
        assert(o@ =~= Seq::new(4, |j: int| octet_of(sp[j]).unwrap()));
    }
    Some(o)
}

/// Reads pieces `lo..hi` of `ps` as hexadecimal groups.
fn parse_hex_run(ps: &Vec<String>, lo: usize, hi: usize) -> (r: Option<Vec<u16>>)
    requires
        lo <= hi <= ps.len(),
    ensures
        r.is_some() == all_groups(pieces(ps@).subrange(lo as int, hi as int)),
        r.is_some() ==> r.unwrap()@ == group_values(pieces(ps@).subrange(lo as int, hi as int)),
{
    let ghost sub = pieces(ps@).subrange(lo as int, hi as int);
    let mut g: Vec<u16> = Vec::new();
    let mut i: usize = lo;
    while i < hi
        invariant
            lo <= i <= hi <= ps.len(),
            sub == pieces(ps@).subrange(lo as int, hi as int),
            g.len() == i - lo,
            forall|j: int| 0 <= j < i - lo ==> #[trigger] group_of(sub[j]) == Some(g@[j]),
        decreases hi - i,
    {
        assert(sub[i - lo] == ps@[i as int]@);
        match parse_group(ps[i].as_str()) {
            None => {
                return None;
            },
            Some(x) => {
                g.push(x);
            },
        }
        i += 1;
    }
    proof {
        assert(all_groups(sub));
        assert(g@ =~= group_values(sub));
    }
    Some(g)
}

/// Reads pieces `lo..hi` of `ps` as a run of groups whose last piece may be
/// a dotted quad.
fn parse_groups(ps: &Vec<String>, lo: usize, hi: usize) -> (r: Option<Vec<u16>>)
    requires
        lo <= hi <= ps.len(),
    ensures
        opt_seq(r) == groups_of(pieces(ps@).subrange(lo as int, hi as int)),
{
    let ghost sub = pieces(ps@).subrange(lo as int, hi as int);
    if lo == hi {
        return Some(Vec::new());
    }
    proof {
        assert(sub.drop_last() =~= pieces(ps@).subrange(lo as int, hi - 1));
        assert(sub.last() == ps@[hi - 1]@);
    }
    let mut g = match parse_hex_run(ps, lo, hi - 1) {
        None => {
            return None;
        },
        Some(g) => g,
    };
    let last = ps[hi - 1].as_str();
    match parse_group(last) {
        Some(x) => {
            g.push(x);
            proof {
                assert(g@ =~= group_values(sub));
            }
            Some(g)
        },
        None => match parse_ipv4(last) {
            Some(o) => {
                let hi_word: u16 = o[0] as u16 * 256 + o[1] as u16;
                let lo_word: u16 = o[2] as u16 * 256 + o[3] as u16;
                g.push(hi_word);
                g.push(lo_word);
                proof {
                    assert(g@ =~= group_values(sub.drop_last()) + quad_groups(o@));
                }
                Some(g)
            },
            None => None,
        },
    }
}

/// Index of the first empty piece of `ps`, or its length when none is.
fn find_empty(ps: &Vec<String>) -> (r: usize)
    ensures
        r <= ps.len(),
        forall|i: int| 0 <= i < r ==> (#[trigger] pieces(ps@)[i]).len() > 0,
        r < ps.len() ==> pieces(ps@)[r as int].len() == 0,
{
    let mut j: usize = 0;
    while j < ps.len()
        invariant
            j <= ps.len(),
            forall|i: int| 0 <= i < j ==> (#[trigger] pieces(ps@)[i]).len() > 0,
        decreases ps.len() - j,
    {
        if ps[j].as_str().is_empty() {
            return j;
        }
        j += 1;
    }
    j
}

/// Reads an IPv6 address.
pub fn parse_ipv6(t: &str) -> (r: Option<Vec<u16>>)
    ensures
        opt_seq(r) == ipv6_of(t@),
        r matches Some(g) ==> g.len() == 8,
{
    reveal(ipv6_of);
    let ps = split_str(t, ':');
    let ghost sp = split_on(t@, ':');
    let n = ps.len();
    let j = find_empty(&ps);
    if j == n {
        proof {
            assert(pieces(ps@).subrange(0, n as int) =~= sp);
        }
        return match parse_groups(&ps, 0, n) {
            Some(g) => if g.len() == 8 {
                Some(g)
            } else {
                None
            },
            None => None,
        };
    }
    proof {
        let k = first_empty(sp);
        assert(sp[j as int].len() == 0);
        assert(k == j) by {
            if k < j {
                assert(sp[k].len() > 0);
            } else if k > j {
                assert(sp[j as int].len() > 0);
            }
        }
    }
    let well_placed = if j == 0 {
        n >= 3 && ps[1].as_str().is_empty()
    } else {
        j < n - 1
    };
    if !well_placed {
        return None;
    }
    let mut head = match parse_hex_run(&ps, 0, j) {
        None => {
            return None;
        },
        Some(h) => h,
    };
    let start: usize = if j == 0 {
        2
    } else {
        j + 1
    };
    let ghost rest = sp.subrange(start as int, n as int);
    let mut tail = if n - start == 1 && ps[start].as_str().is_empty() {
        proof {
            assert(rest[0] == sp[start as int]);
        }
        Vec::new()
    } else {
        match parse_groups(&ps, start, n) {
            None => {
                return None;
            },
            Some(g) => g,
        }
    };
    proof {
        assert(groups_of(tail_pieces(sp, j as int)) == Some(tail@));
    }
    if j + tail.len() > 7 {
        return None;
    }
    let zeros: usize = 8 - j - tail.len();
    let mut k: usize = 0;
    let ghost head0 = head@;
    while k < zeros
        invariant
            k <= zeros,
            head@ == head0 + Seq::new(k as nat, |i: int| 0u16),
        decreases zeros - k,
    {
        head.push(0u16);
        k += 1;
        proof {
            assert(head@ =~= head0 + Seq::new(k as nat, |i: int| 0u16));
        }
    }
    let ghost tail0 = tail@;
    head.append(&mut tail);
    proof {
        assert(head@ =~= group_values(sp.subrange(0, j as int)) + Seq::new(
            (8 - j - tail0.len()) as nat,
            |i: int| 0u16,
        ) + tail0);
    }
    Some(head)
}

/// Reads an IPv4 or IPv6 address; a dotted quad is read as IPv4.
pub fn parse_ip_addr(t: &str) -> (r: Option<IpAddr>)
    ensures
        ip_of(t@) == (match r {
            Some(a) => Some(a@),
            None => None,
        }),
        r matches Some(a) ==> a.wf(),
{
    match parse_ipv4(t) {
        Some(o) => Some(IpAddr::V4(o)),
        None => match parse_ipv6(t) {
            Some(g) => Some(IpAddr::V6(g)),
            None => None,
        },
    }
}

} // verus!
