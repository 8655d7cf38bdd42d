//! The printed form of addresses, and how it relates to what the parser
//! reads: a dotted quad is always printed as it was read, and printed forms
//! read back as the address they print.
use vstd::prelude::*;
use crate::ip::{
    all_groups, digits_value, first_empty, group_of, group_values, groups_of, hex_digit_value, ipv4_of,
    ipv6_of, is_dec_digit, is_digit_in, is_hex_digit, octet_of, radix_pow, tail_pieces,
};
use crate::text::split_on;

verus! {

/// The lower-case digit for `d`, below sixteen.
pub open spec fn digit_char(d: nat) -> char {
    if d == 0 { '0' } else if d == 1 { '1' } else if d == 2 { '2' } else if d == 3 { '3' }
    else if d == 4 { '4' } else if d == 5 { '5' } else if d == 6 { '6' } else if d == 7 { '7' }
    else if d == 8 { '8' } else if d == 9 { '9' } else if d == 10 { 'a' } else if d == 11 { 'b' }
    else if d == 12 { 'c' } else if d == 13 { 'd' } else if d == 14 { 'e' } else { 'f' }
}

/// `n` written in base `radix` with no leading zero.
pub open spec fn digits_text(n: nat, radix: nat) -> Seq<char>
    decreases n,
{
    if (radix != 10 && radix != 16) || n < radix {
        seq![digit_char(n)]
    } else if radix == 10 {
        digits_text(n / 10, radix).push(digit_char(n % 10))
    } else {
        digits_text(n / 16, radix).push(digit_char(n % 16))
    }
}

/// The pieces `ps` with `d` between each two.
pub open spec fn join(ps: Seq<Seq<char>>, d: char) -> Seq<char>
    decreases ps.len(),
{
    if ps.len() == 0 {
        Seq::<char>::empty()
    } else if ps.len() == 1 {
        ps[0]
    } else {
        join(ps.drop_last(), d).push(d) + ps.last()
    }
}

/// The printed form of an IPv4 address: four decimal octets joined by `.`.
pub open spec fn ipv4_text(o: Seq<u8>) -> Seq<char> {
    join(Seq::new(4, |i: int| digits_text(o[i] as nat, 10)), '.')
}

/// The eight groups of an IPv6 address in lower-case hexadecimal without
/// leading zeros, joined by `:`. This is the printed form of every address
/// with no two adjacent zero groups.
pub open spec fn ipv6_full_text(g: Seq<u16>) -> Seq<char> {
    join(hex_pieces(g), ':')
}

/// Each group in lower-case hexadecimal without leading zeros.
pub open spec fn hex_pieces(g: Seq<u16>) -> Seq<Seq<char>> {
    Seq::new(g.len(), |i: int| digits_text(g[i] as nat, 16))
}

/// The eight groups with the `l` groups from `s` on left out and `::` in
/// their place. With `l` groups of zeros there, the longest such run (when it
/// has two groups or more), this is the printed form.
pub open spec fn ipv6_compressed_text(g: Seq<u16>, s: int, l: int) -> Seq<char> {
    join(hex_pieces(g.subrange(0, s)), ':') + seq![':', ':'] + join(hex_pieces(g.subrange(s + l, 8)), ':')
}

/// The printed form of an IPv4-mapped IPv6 address `::ffff:a.b.c.d`.
pub open spec fn ipv6_mapped_text(o: Seq<u8>) -> Seq<char> {
    seq![':', ':', 'f', 'f', 'f', 'f', ':'] + ipv4_text(o)
}

proof fn lemma_digit_char(d: nat, radix: nat)
    requires
        radix == 10 || radix == 16,
        d < radix,
    ensures
        is_digit_in(digit_char(d), radix),
        is_hex_digit(digit_char(d)),
        hex_digit_value(digit_char(d)) == d,
        digit_char(d) != '.' && digit_char(d) != ':',
        digit_char(d) == '0' <==> d == 0,
{
}

proof fn lemma_digit_char_of(c: char)
    requires
        is_dec_digit(c),
    ensures
        digit_char(hex_digit_value(c)) == c,
{
}

proof fn lemma_digits_text(n: nat, radix: nat, k: nat)
    requires
        radix == 10 || radix == 16,
        k >= 1,
        n < radix_pow(radix, k),
    ensures
        ({
            let t = digits_text(n, radix);
            &&& 1 <= t.len() <= k
            &&& forall|i: int| 0 <= i < t.len() ==> is_digit_in(#[trigger] t[i], radix)
            &&& forall|i: int| 0 <= i < t.len() ==> is_hex_digit(#[trigger] t[i])
            &&& forall|i: int| 0 <= i < t.len() ==> (#[trigger] t[i]) != '.' && t[i] != ':'
            &&& digits_value(t, radix) == n
            &&& (t[0] == '0' ==> n == 0)
        }),
    decreases n,
{
    let t = digits_text(n, radix);
    if n < radix {
        lemma_digit_char(n, radix);
        assert(t =~= seq![digit_char(n)]);
        assert(t.drop_last() =~= Seq::<char>::empty());
        assert(digits_value(t.drop_last(), radix) == 0);
        assert(t.last() == digit_char(n));
    } else {
        let q = n / radix;
        let r = n % radix;
        assert(k >= 2) by {
            if k == 1 {
                assert(radix_pow(radix, 1) == radix_pow(radix, 0) * radix);
            }
        }
        let p = radix_pow(radix, (k - 1) as nat);
        assert(radix_pow(radix, k) == p * radix);
        assert(q < p && q < n && r < radix && n == q * radix + r) by (nonlinear_arith)
            requires
                n < p * radix,
                q == n / radix,
                r == n % radix,
                radix >= 10,
                n >= radix,
        ;
        lemma_digits_text(q, radix, (k - 1) as nat);
        lemma_digit_char(r, radix);
        let s = digits_text(q, radix);
        assert(t == s.push(digit_char(r)));
        assert(t.last() == digit_char(r));
        assert(t.drop_last() =~= s);
        assert(t[0] == s[0]);
        assert forall|i: int| 0 <= i < t.len() implies is_digit_in(#[trigger] t[i], radix)
            && is_hex_digit(t[i]) && t[i] != '.' && t[i] != ':' by {
            if i < s.len() {
                assert(t[i] == s[i]);
            }
        }
    }
}

/// A run of decimal digits with no leading zero is the decimal text of its
/// value.
proof fn lemma_canonical_decimal(p: Seq<char>)
    requires
        p.len() >= 1,
        forall|i: int| 0 <= i < p.len() ==> is_dec_digit(#[trigger] p[i]),
        p.len() == 1 || p[0] != '0',
    ensures
        p == digits_text(digits_value(p, 10), 10),
    decreases p.len(),
{
    let v = digits_value(p, 10);
    let c = p.last();
    let d = hex_digit_value(c);
    lemma_digit_char_of(c);
    if p.len() == 1 {
        assert(p.drop_last() =~= Seq::<char>::empty());
        assert(digits_value(p.drop_last(), 10) == 0);
        assert(v == d && d < 10);
        assert(p =~= seq![c]);
        assert(digits_text(v, 10) =~= p);
    } else {
        let s = p.drop_last();
        assert(s[0] == p[0]);
        assert forall|i: int| 0 <= i < s.len() implies is_dec_digit(#[trigger] s[i]) by {
            assert(s[i] == p[i]);
        }
        lemma_canonical_decimal(s);
        let w = digits_value(s, 10);
        // A leading digit other than zero makes the prefix worth at least one.
        assert(w >= 1) by {
            if w == 0 {
                lemma_digits_text_of_zero();
                assert(s == seq!['0']);
                assert(s[0] == '0');
                if s.len() == 1 {
                    assert(p[0] == '0');
                }
            }
        }
        assert(v == w * 10 + d);
        assert(d < 10);
        assert(v / 10 == w && v % 10 == d && v >= 10) by (nonlinear_arith)
            requires
                v == w * 10 + d,
                d < 10,
                w >= 1,
        ;
        assert(digits_text(v, 10) == digits_text(w, 10).push(digit_char(d)));
        assert(p =~= s.push(c));
    }
}

proof fn lemma_digits_text_of_zero()
    ensures
        digits_text(0, 10) == seq!['0'],
{
}

/// Splitting the text of pieces joined by a character that none of them
/// holds gives the pieces back.
proof fn lemma_split_join(ps: Seq<Seq<char>>, d: char)
    requires
        ps.len() >= 1,
        forall|i: int, j: int| 0 <= i < ps.len() && 0 <= j < ps[i].len() ==> #[trigger] ps[i][j] != d,
    ensures
        split_on(join(ps, d), d) == ps,
    decreases ps.len(),
{
    if ps.len() == 1 {
        lemma_split_extend(Seq::<char>::empty(), ps[0], d);
        assert(Seq::<char>::empty() + ps[0] =~= ps[0]);
        let e = split_on(Seq::<char>::empty(), d);
        assert(e.update(0, e[0] + ps[0]) =~= ps);
    } else {
        let init = ps.drop_last();
        assert forall|i: int, j: int| 0 <= i < init.len() && 0 <= j < init[i].len() implies #[trigger] init[i][j] != d by {
            assert(init[i] == ps[i]);
        }
        lemma_split_join(init, d);
        let x = join(init, d).push(d);
        assert(split_on(x, d) == split_on(join(init, d), d).push(Seq::<char>::empty())) by {
            assert(x.drop_last() =~= join(init, d));
        }
        assert forall|j: int| 0 <= j < ps.last().len() implies #[trigger] ps.last()[j] != d by {
            assert(ps.last() == ps[ps.len() - 1]);
        }
        lemma_split_extend(x, ps.last(), d);
        let sx = split_on(x, d);
        assert(sx.update(sx.len() - 1, sx.last() + ps.last()) =~= ps);
    }
}

/// Appending text with no `d` in it extends the last piece.
proof fn lemma_split_extend(x: Seq<char>, b: Seq<char>, d: char)
    requires
        forall|j: int| 0 <= j < b.len() ==> #[trigger] b[j] != d,
    ensures
        ({
            let sx = split_on(x, d);
            split_on(x + b, d) == sx.update(sx.len() - 1, sx.last() + b)
        }),
    decreases b.len(),
{
    crate::text::lemma_split_on_nonempty(x, d);
    let sx = split_on(x, d);
    if b.len() == 0 {
        assert(x + b =~= x);
        assert(sx.last() + b =~= sx.last());
        assert(sx.update(sx.len() - 1, sx.last()) =~= sx);
    } else {
        let b0 = b.drop_last();
        assert forall|j: int| 0 <= j < b0.len() implies #[trigger] b0[j] != d by {
            assert(b0[j] == b[j]);
        }
        lemma_split_extend(x, b0, d);
        assert((x + b).drop_last() =~= x + b0);
        assert((x + b).last() == b.last());
        let mid = sx.update(sx.len() - 1, sx.last() + b0);
        assert(b.last() == b[b.len() - 1]);
        assert(b.last() != d);
        assert(mid.len() == sx.len());
        assert(mid.last() == sx.last() + b0);
        assert((sx.last() + b0).push(b.last()) =~= sx.last() + b);
        assert(mid.update(mid.len() - 1, mid.last().push(b.last())) =~= sx.update(
            sx.len() - 1,
            sx.last() + b,
        ));
    }
}

/// Text is the join of its own pieces.
proof fn lemma_join_split(t: Seq<char>, d: char)
    ensures
        join(split_on(t, d), d) == t,
    decreases t.len(),
{
    crate::text::lemma_split_on_nonempty(t, d);
    if t.len() == 0 {
        assert(split_on(t, d) =~= seq![Seq::<char>::empty()]);
    } else {
        let s = t.drop_last();
        lemma_join_split(s, d);
        crate::text::lemma_split_on_nonempty(s, d);
        let rest = split_on(s, d);
        if t.last() == d {
            assert(rest.push(Seq::<char>::empty()).drop_last() =~= rest);
            assert(join(rest, d).push(d) + Seq::<char>::empty() =~= t);
        } else {
            let u = rest.update(rest.len() - 1, rest.last().push(t.last()));
            if rest.len() == 1 {
                assert(u[0] =~= t);
            } else {
                assert(u.drop_last() =~= rest.drop_last());
                assert(join(rest.drop_last(), d).push(d) + rest.last().push(t.last()) =~= (join(
                    rest.drop_last(),
                    d,
                ).push(d) + rest.last()).push(t.last()));
                assert(t =~= s.push(t.last()));
            }
        }
    }
}

/// A dotted quad that reads as an address is that address's printed form.
pub proof fn lemma_ipv4_read_is_printed(t: Seq<char>)
    requires
        ipv4_of(t).is_some(),
    ensures
        t == ipv4_text(ipv4_of(t).unwrap()),
{
    let ps = split_on(t, '.');
    let o = ipv4_of(t).unwrap();
    let qs = Seq::new(4, |i: int| digits_text(o[i] as nat, 10));
    assert forall|i: int| 0 <= i < 4 implies #[trigger] ps[i] == qs[i] by {
        assert(octet_of(ps[i]).is_some());
        lemma_canonical_decimal(ps[i]);
        assert(o[i] == octet_of(ps[i]).unwrap());
    }
    assert(ps =~= qs);
    lemma_join_split(t, '.');
}

/// The printed form of an IPv4 address reads back as that address.
pub proof fn lemma_ipv4_round_trip(o: Seq<u8>)
    requires
        o.len() == 4,
    ensures
        ipv4_of(ipv4_text(o)) == Some(o),
{
    let qs = Seq::new(4, |i: int| digits_text(o[i] as nat, 10));
    reveal_with_fuel(radix_pow, 4);
    assert forall|i: int| 0 <= i < 4 implies #[trigger] octet_of(qs[i]) == Some(o[i]) by {
        lemma_digits_text(o[i] as nat, 10, 3);
        if o[i] == 0 {
            assert(qs[i] == seq!['0']);
        }
    }
    assert forall|i: int, j: int| 0 <= i < qs.len() && 0 <= j < qs[i].len() implies #[trigger] qs[i][j] != '.' by {
        lemma_digits_text(o[i] as nat, 10, 3);
    }
    lemma_split_join(qs, '.');
    assert(Seq::new(4, |i: int| octet_of(qs[i]).unwrap()) =~= o);
}

/// The eight groups of an IPv6 address, written out in full, read back as
/// that address.
pub proof fn lemma_ipv6_round_trip(g: Seq<u16>)
    requires
        g.len() == 8,
    ensures
        ipv6_of(ipv6_full_text(g)) == Some(g),
{
    reveal(ipv6_of);
    let qs = hex_pieces(g);
    reveal_with_fuel(radix_pow, 5);
    assert forall|i: int| 0 <= i < 8 implies #[trigger] group_of(qs[i]) == Some(g[i]) by {
        lemma_digits_text(g[i] as nat, 16, 4);
    }
    assert forall|i: int, j: int| 0 <= i < qs.len() && 0 <= j < qs[i].len() implies #[trigger] qs[i][j] != ':' by {
        lemma_digits_text(g[i] as nat, 16, 4);
    }
    lemma_split_join(qs, ':');
    let ps = split_on(ipv6_full_text(g), ':');
    assert(ps == qs);
    assert forall|i: int| 0 <= i < ps.len() implies (#[trigger] ps[i]).len() > 0 by {
        lemma_digits_text(g[i] as nat, 16, 4);
    }
    assert(all_groups(qs.drop_last())) by {
        assert forall|i: int| 0 <= i < qs.drop_last().len() implies (#[trigger] group_of(qs.drop_last()[i])).is_some() by {
            assert(qs.drop_last()[i] == qs[i]);
        }
    }
    assert(qs.last() == qs[7]);
    assert(group_values(qs) =~= g);
    assert(groups_of(qs) == Some(g));
}

proof fn lemma_hex_pieces(g: Seq<u16>)
    ensures
        all_groups(hex_pieces(g)),
        group_values(hex_pieces(g)) == g,
        forall|i: int| 0 <= i < g.len() ==> (#[trigger] hex_pieces(g)[i]).len() > 0,
        forall|i: int, j: int|
            0 <= i < g.len() && 0 <= j < hex_pieces(g)[i].len() ==> #[trigger] hex_pieces(g)[i][j] != ':',
{
    reveal(ipv6_of);
    let qs = hex_pieces(g);
    reveal_with_fuel(radix_pow, 5);
    assert forall|i: int| 0 <= i < g.len() implies #[trigger] group_of(qs[i]) == Some(g[i]) && qs[i].len() > 0
        && forall|j: int| 0 <= j < qs[i].len() ==> #[trigger] qs[i][j] != ':' by {
        lemma_digits_text(g[i] as nat, 16, 4);
    }
    assert(group_values(qs) =~= g);
}

/// Text ending in `d` followed by joined pieces splits into the pieces of
/// the text before `d`, then those pieces.
proof fn lemma_split_after(x: Seq<char>, ts: Seq<Seq<char>>, d: char)
    requires
        ts.len() >= 1,
        forall|i: int, j: int| 0 <= i < ts.len() && 0 <= j < ts[i].len() ==> #[trigger] ts[i][j] != d,
    ensures
        split_on(x.push(d) + join(ts, d), d) == split_on(x, d) + ts,
    decreases ts.len(),
{
    let sx = split_on(x, d);
    assert(x.push(d).drop_last() =~= x);
    let sp = split_on(x.push(d), d);
    assert(sp == sx.push(Seq::<char>::empty()));
    if ts.len() == 1 {
        assert forall|j: int| 0 <= j < ts[0].len() implies #[trigger] ts[0][j] != d by {}
        lemma_split_extend(x.push(d), ts[0], d);
        assert(sp.update(sp.len() - 1, sp.last() + ts[0]) =~= sx + ts);
    } else {
        let init = ts.drop_last();
        assert forall|i: int, j: int| 0 <= i < init.len() && 0 <= j < init[i].len() implies #[trigger] init[i][j] != d by {
            assert(init[i] == ts[i]);
        }
        lemma_split_after(x, init, d);
        let y = x.push(d) + join(init, d);
        assert(x.push(d) + join(ts, d) =~= y.push(d) + ts.last());
        assert(y.push(d).drop_last() =~= y);
        let sy = split_on(y.push(d), d);
        assert(sy == (sx + init).push(Seq::<char>::empty()));
        assert forall|j: int| 0 <= j < ts.last().len() implies #[trigger] ts.last()[j] != d by {
            assert(ts.last() == ts[ts.len() - 1]);
        }
        lemma_split_extend(y.push(d), ts.last(), d);
        assert(sy.update(sy.len() - 1, sy.last() + ts.last()) =~= sx + ts);
    }
}

/// The pieces of `a :: b`, where `a` and `b` join the pieces `hs` and `ts`.
proof fn lemma_split_compressed(hs: Seq<Seq<char>>, ts: Seq<Seq<char>>)
    requires
        forall|i: int, j: int| 0 <= i < hs.len() && 0 <= j < hs[i].len() ==> #[trigger] hs[i][j] != ':',
        forall|i: int, j: int| 0 <= i < ts.len() && 0 <= j < ts[i].len() ==> #[trigger] ts[i][j] != ':',
    ensures
        ({
            let e = Seq::<char>::empty();
            let ps = split_on(join(hs, ':') + seq![':', ':'] + join(ts, ':'), ':');
            let lead = if hs.len() == 0 { seq![e, e] } else { hs.push(e) };
            ps == lead + (if ts.len() == 0 { seq![e] } else { ts })
        }),
{
    let e = Seq::<char>::empty();
    let a = join(hs, ':');
    let x = a.push(':');
    let t = a + seq![':', ':'] + join(ts, ':');
    assert(a + seq![':', ':'] =~= x.push(':'));
    let sa = split_on(a, ':');
    let lead = if hs.len() == 0 { seq![e, e] } else { hs.push(e) };
    assert(x.drop_last() =~= a);
    assert(split_on(x, ':') == sa.push(e));
    if hs.len() == 0 {
        assert(sa =~= seq![e]);
    } else {
        lemma_split_join(hs, ':');
    }
    assert(split_on(x, ':') =~= lead);
    if ts.len() == 0 {
        assert(t =~= x.push(':'));
        assert(x.push(':').drop_last() =~= x);
        assert(split_on(t, ':') =~= lead + seq![e]);
    } else {
        assert(t =~= x.push(':') + join(ts, ':'));
        lemma_split_after(x, ts, ':');
    }
}

/// Leaving out a run of zero groups in favour of `::` gives text that reads
/// back as the address.
pub proof fn lemma_ipv6_compressed_round_trip(g: Seq<u16>, s: int, l: int)
    requires
        g.len() == 8,
        0 <= s,
        1 <= l,
        s + l <= 8,
        forall|i: int| s <= i < s + l ==> g[i] == 0,
    ensures
        ipv6_of(ipv6_compressed_text(g, s, l)) == Some(g),
{
    let hg = g.subrange(0, s);
    let tg = g.subrange(s + l, 8);
    let hs = hex_pieces(hg);
    let ts = hex_pieces(tg);
    lemma_hex_pieces(hg);
    lemma_hex_pieces(tg);
    lemma_split_compressed(hs, ts);
    let t = ipv6_compressed_text(g, s, l);
    let ps = split_on(t, ':');
    let j: int = s;
    // The first empty piece stands where the run was left out.
    assert(ps[j].len() == 0);
    assert forall|i: int| 0 <= i < j implies (#[trigger] ps[i]).len() > 0 by {
        assert(ps[i] == hs[i]);
    }
    assert(ps.subrange(0, j) =~= hs);
    assert(tail_pieces(ps, j) =~= ts);
    if ts.len() == 0 {
        assert(ts =~= Seq::<Seq<char>>::empty());
        assert(groups_of(ts) == Some(Seq::<u16>::empty()));
    } else {
        assert(ts.drop_last() == hex_pieces(tg.drop_last()));
        lemma_hex_pieces(tg.drop_last());
        assert(ts.last() == ts[ts.len() - 1]);
        assert(group_of(ts.last()).is_some());
    }
    assert(groups_of(ts) == Some(tg));
    lemma_ipv6_of_compressed(t, j, tg);
    assert(group_values(hs) + Seq::new((8 - j - tg.len()) as nat, |i: int| 0u16) + tg =~= g);
}

/// What `ipv6_of` gives for text with a `::` whose first colon ends piece `j`.
proof fn lemma_ipv6_of_compressed(t: Seq<char>, j: int, tg: Seq<u16>)
    requires
        0 <= j < split_on(t, ':').len(),
        split_on(t, ':')[j].len() == 0,
        forall|i: int| 0 <= i < j ==> (#[trigger] split_on(t, ':')[i]).len() > 0,
        if j == 0 {
            split_on(t, ':').len() >= 3 && split_on(t, ':')[1].len() == 0
        } else {
            j + 2 <= split_on(t, ':').len()
        },
        all_groups(split_on(t, ':').subrange(0, j)),
        groups_of(tail_pieces(split_on(t, ':'), j)) == Some(tg),
        j + tg.len() <= 7,
    ensures
        ipv6_of(t) == Some(
            group_values(split_on(t, ':').subrange(0, j)) + Seq::new((8 - j - tg.len()) as nat, |i: int| 0u16)
                + tg,
        ),
{
    reveal(ipv6_of);
    let ps = split_on(t, ':');
    assert(!(forall|i: int| 0 <= i < ps.len() ==> (#[trigger] ps[i]).len() > 0));
    assert(first_empty(ps) == j) by {
        let k = first_empty(ps);
        if k < j {
            assert(ps[k].len() > 0);
        } else if k > j {
            assert(ps[j].len() > 0);
        }
    }
}

/// The printed form of an IPv4-mapped address reads back as that address.
pub proof fn lemma_ipv6_mapped_round_trip(o: Seq<u8>)
    requires
        o.len() == 4,
    ensures
        ipv6_of(ipv6_mapped_text(o)) == Some(
            seq![0u16, 0, 0, 0, 0, 0xffff, (o[0] * 256 + o[1]) as u16, (o[2] * 256 + o[3]) as u16],
        ),
{
    let e = Seq::<char>::empty();
    let ff = seq!['f', 'f', 'f', 'f'];
    let v4 = ipv4_text(o);
    let ts = seq![ff, v4];
    let hs = Seq::<Seq<char>>::empty();
    lemma_ipv4_round_trip(o);
    lemma_ipv4_text_chars(o);
    assert(join(ts.drop_last(), ':') == ff);
    assert(join(ts, ':') =~= ff.push(':') + v4);
    assert(join(hs, ':') + seq![':', ':'] + join(ts, ':') =~= ipv6_mapped_text(o));
    lemma_split_compressed(hs, ts);
    let ps = split_on(ipv6_mapped_text(o), ':');
    assert(ps =~= seq![e, e, ff, v4]);
    assert(ps.subrange(0, 0) =~= Seq::<Seq<char>>::empty());
    assert(tail_pieces(ps, 0) =~= ts);
    assert(ts.drop_last() =~= seq![ff]);
    assert(group_of(ff) == Some(0xffffu16)) by {
        reveal_with_fuel(digits_value, 5);
    }
    assert(all_groups(ts.drop_last()));
    assert(group_of(v4).is_none()) by {
        assert(v4.len() > 4);
    }
    let tg = seq![0xffffu16, (o[0] * 256 + o[1]) as u16, (o[2] * 256 + o[3]) as u16];
    assert(group_values(ts.drop_last()) =~= seq![0xffffu16]);
    assert(groups_of(ts) =~= Some(tg));
    lemma_ipv6_of_compressed(ipv6_mapped_text(o), 0, tg);
    assert(group_values(ps.subrange(0, 0)) + Seq::new(5, |i: int| 0u16) + tg =~= seq![
        0u16,
        0,
        0,
        0,
        0,
        0xffff,
        (o[0] * 256 + o[1]) as u16,
        (o[2] * 256 + o[3]) as u16,
    ]);
}

/// The printed form of an IPv4 address: digits and dots, at least seven
/// characters.
proof fn lemma_ipv4_text_chars(o: Seq<u8>)
    requires
        o.len() == 4,
    ensures
        ipv4_text(o).len() >= 7,
        forall|j: int| 0 <= j < ipv4_text(o).len() ==> #[trigger] ipv4_text(o)[j] != ':',
{
    let qs = Seq::new(4, |i: int| digits_text(o[i] as nat, 10));
    reveal_with_fuel(radix_pow, 4);
    assert forall|i: int| 0 <= i < 4 implies (#[trigger] qs[i]).len() >= 1 && forall|j: int|
        0 <= j < qs[i].len() ==> #[trigger] qs[i][j] != ':' by {
        lemma_digits_text(o[i] as nat, 10, 3);
    }
    lemma_join_chars(qs, '.', ':');
}

/// Joining by `d` pieces without `c` gives text without `c` (for `c` other
/// than `d`), of at least one character per piece plus the separators.
proof fn lemma_join_chars(ps: Seq<Seq<char>>, d: char, c: char)
    requires
        d != c,
        forall|i: int| 0 <= i < ps.len() ==> (#[trigger] ps[i]).len() >= 1,
        forall|i: int, j: int| 0 <= i < ps.len() && 0 <= j < ps[i].len() ==> #[trigger] ps[i][j] != c,
    ensures
        ps.len() >= 1 ==> join(ps, d).len() >= 2 * ps.len() - 1,
        forall|j: int| 0 <= j < join(ps, d).len() ==> #[trigger] join(ps, d)[j] != c,
    decreases ps.len(),
{
    if ps.len() == 1 {
        assert(ps[0].len() >= 1);
        assert forall|j: int| 0 <= j < join(ps, d).len() implies #[trigger] join(ps, d)[j] != c by {
            assert(ps[0][j] != c);
        }
    } else if ps.len() > 1 {
        let init = ps.drop_last();
        assert forall|i: int, j: int| 0 <= i < init.len() && 0 <= j < init[i].len() implies #[trigger] init[i][j] != c by {
            assert(init[i] == ps[i]);
        }
        assert forall|i: int| 0 <= i < init.len() implies (#[trigger] init[i]).len() >= 1 by {
            assert(init[i] == ps[i]);
        }
        lemma_join_chars(init, d, c);
        let a = join(init, d);
        let l = ps.last();
        assert(l == ps[ps.len() - 1]);
        assert(l.len() >= 1);
        assert forall|j: int| 0 <= j < join(ps, d).len() implies #[trigger] join(ps, d)[j] != c by {
            if j < a.len() {
                assert(join(ps, d)[j] == a[j]);
            } else if j > a.len() {
                assert(join(ps, d)[j] == l[j - a.len() - 1]);
            }
        }
    }
}

} // verus!
