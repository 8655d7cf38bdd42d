//! Neighbour-table records and the parsers that read them from the lines of
//! the `ip neigh` listing.
use vstd::prelude::*;
use crate::ip::{ip_of, ipv4_of, parse_ip_addr, IpAddr, IpView};
use crate::ip_text::{ipv4_text, lemma_ipv4_read_is_printed};
use crate::nud::{nud_of, parse_nud_from_str, NudState};
use crate::text::{
    ascii_lowered, eq_ignore_case, is_ascii_text, split_on, split_str, str_eq_ignore_case, trimmed,
};

verus! {

/// The text that `str::to_lowercase` makes of `s`.
pub uninterp spec fn lower_of(s: Seq<char>) -> Seq<char>;

/// Relies on `str::to_lowercase`: Unicode lower-casing, a function of the
/// characters alone, which lowers the ASCII letters of ASCII text and leaves
/// its other characters as they are.
#[verifier::external_body]
fn to_lower(s: &str) -> (r: String)
    ensures
        r@ == lower_of(s@),
        is_ascii_text(s@) ==> ascii_lowered(s@, r@),
{
    s.to_lowercase()
}

/// Relies on `str::trim`: the text without leading and trailing white space,
/// white space being Unicode White_Space.
#[verifier::external_body]
fn trim_str(s: &str) -> (r: &str)
    ensures
        r@ == trimmed(s@),
{
    s.trim()
}

/// Why a line could not be read as a neighbour entry.
#[derive(Debug, Clone, Copy, PartialEq, Eq, Structural)]
pub enum FormatReason {
    /// Fewer than six space-separated fields.
    UnexpectedString,
    /// The first field is not an IPv4 or IPv6 address.
    BadAddress,
    /// The second field is not `dev`.
    NoDevice,
    /// The fourth field is not `lladdr`.
    NoLinkLayerAddress,
}

/// The wording of each reason.
pub open spec fn reason_text(r: FormatReason) -> Seq<char> {
    match r {
        FormatReason::UnexpectedString => "unexpected string"@,
        FormatReason::BadAddress => "failed to parse address"@,
        FormatReason::NoDevice => "no device name found"@,
        FormatReason::NoLinkLayerAddress => "no link layer address found"@,
    }
}

impl FormatReason {
    /// A short human-readable account of the reason.
    pub fn describe(&self) -> (r: &'static str)
        ensures
            r@ == reason_text(*self),
    {
        match self {
            FormatReason::UnexpectedString => "unexpected string",
            FormatReason::BadAddress => "failed to parse address",
            FormatReason::NoDevice => "no device name found",
            FormatReason::NoLinkLayerAddress => "no link layer address found",
        }
    }
}

/// Failure of a neighbour-table query.
#[derive(Debug, Clone, PartialEq, Eq)]
pub enum NeighborError {
    /// The command could not be started; carries the system's description.
    ExecutionError(String),
    /// The command exited with a failure status; carries its error output,
    /// lower-cased.
    CommandError(Vec<u8>),
    /// A line did not have the expected shape; carries the line and why.
    FormatError(String, FormatReason),
}

/// One neighbour entry.
#[derive(Debug, Clone, PartialEq, Eq)]
pub struct ArpTable {
    pub ip: IpAddr,
    pub iface: String,
    pub mac_addr: String,
    pub nud_state: NudState,
}

pub struct ArpView {
    pub ip: IpView,
    pub iface: Seq<char>,
    pub mac_addr: Seq<char>,
    pub nud_state: NudState,
}

impl ArpTable {
    /// The address holds four octets or eight groups.
    pub open spec fn wf(&self) -> bool {
        self.ip.wf()
    }
}

impl View for ArpTable {
    type V = ArpView;

    open spec fn view(&self) -> ArpView {
        ArpView { ip: self.ip@, iface: self.iface@, mac_addr: self.mac_addr@, nud_state: self.nud_state }
    }
}

pub open spec fn dev_word() -> Seq<char> {
    seq!['d', 'e', 'v']
}

pub open spec fn lladdr_word() -> Seq<char> {
    seq!['l', 'l', 'a', 'd', 'd', 'r']
}

/// What a line reads as: fields are the pieces between single spaces; the
/// address, `dev`, interface, `lladdr` and MAC address stand first, the state
/// last, and the fields in between are ignored.
#[verifier::opaque]
pub open spec fn line_result(s: Seq<char>) -> Result<ArpView, FormatReason> {
    let ts = split_on(s, ' ');
    if ts.len() < 6 {
        Err(FormatReason::UnexpectedString)
    } else if ip_of(ts[0]).is_none() {
        Err(FormatReason::BadAddress)
    } else if !eq_ignore_case(ts[1], dev_word()) {
        Err(FormatReason::NoDevice)
    } else if !eq_ignore_case(ts[3], lladdr_word()) {
        Err(FormatReason::NoLinkLayerAddress)
    } else {
        Ok(
            ArpView {
                ip: ip_of(ts[0]).unwrap(),
                iface: ts[2],
                mac_addr: lower_of(ts[4]),
                nud_state: nud_of(ts.last()),
            },
        )
    }
}

/// `r` is what parsing the line `s` must give.
pub open spec fn line_outcome(s: Seq<char>, r: Result<ArpTable, NeighborError>) -> bool {
    match r {
        Ok(a) => line_result(s) == Ok::<ArpView, FormatReason>(a@),
        Err(NeighborError::FormatError(l, why)) => l@ == s && line_result(s) == Err::<ArpView, FormatReason>(why),
        Err(_) => false,
    }
}

impl ArpTable {
    /// Reads one line of the neighbour listing:
    /// `<address> dev <interface> lladdr <mac> ... <state>`.
    pub fn parse_from_string(s: &str) -> (r: Result<ArpTable, NeighborError>)
        ensures
            line_outcome(s@, r),
            r matches Ok(a) ==> a.wf(),
            r matches Ok(a) ==> (is_ascii_text(split_on(s@, ' ')[4]) ==> ascii_lowered(
                split_on(s@, ' ')[4],
                a.mac_addr@,
            )),
    {
        proof {
            reveal(line_result);
        }
        let ts = split_str(s, ' ');
        let ghost sp = split_on(s@, ' ');
        let n = ts.len();
        if n < 6 {
            return Err(NeighborError::FormatError(String::from_str(s), FormatReason::UnexpectedString));
        }
        assert(ts@[0]@ == sp[0] && ts@[1]@ == sp[1] && ts@[2]@ == sp[2]);
        assert(ts@[3]@ == sp[3] && ts@[4]@ == sp[4] && ts@[n - 1]@ == sp.last());
        let ip = match parse_ip_addr(ts[0].as_str()) {
            Some(a) => a,
            None => {
                return Err(NeighborError::FormatError(String::from_str(s), FormatReason::BadAddress));
            },
        };
        proof {
            reveal_strlit("dev");
            reveal_strlit("lladdr");
            assert("dev"@ == dev_word());
            assert("lladdr"@ == lladdr_word());
        }
        if !str_eq_ignore_case(ts[1].as_str(), "dev") {
            return Err(NeighborError::FormatError(String::from_str(s), FormatReason::NoDevice));
        }
        let iface = ts[2].clone();
        if !str_eq_ignore_case(ts[3].as_str(), "lladdr") {
            return Err(NeighborError::FormatError(String::from_str(s), FormatReason::NoLinkLayerAddress));
        }
        let mac_addr = to_lower(ts[4].as_str());
        let nud_state = parse_nud_from_str(ts[n - 1].as_str());
        Ok(ArpTable { ip, iface, mac_addr, nud_state })
    }
}

/// The lines of a listing split at `\n`, each trimmed, blank ones left out,
/// in their order.
pub open spec fn kept_lines(ps: Seq<Seq<char>>) -> Seq<Seq<char>>
    decreases ps.len(),
{
    if ps.len() == 0 {
        Seq::<Seq<char>>::empty()
    } else {
        let rest = kept_lines(ps.drop_last());
        let t = trimmed(ps.last());
        if t.len() == 0 {
            rest
        } else {
            rest.push(t)
        }
    }
}

pub open spec fn listing_lines(text: Seq<char>) -> Seq<Seq<char>> {
    kept_lines(split_on(text, '\n'))
}

/// The records of the lines `ls`, one per line and in order, or the first
/// line that cannot be read and why.
pub open spec fn parse_all(ls: Seq<Seq<char>>) -> Result<Seq<ArpView>, (Seq<char>, FormatReason)>
    decreases ls.len(),
{
    if ls.len() == 0 {
        Ok(Seq::<ArpView>::empty())
    } else {
        match parse_all(ls.drop_last()) {
            Err(e) => Err(e),
            Ok(rs) => match line_result(ls.last()) {
                Ok(v) => Ok(rs.push(v)),
                Err(why) => Err((ls.last(), why)),
            },
        }
    }
}

pub open spec fn views(v: Seq<ArpTable>) -> Seq<ArpView> {
    v.map_values(|a: ArpTable| a@)
}

/// `r` is what reading the lines `ls` must give.
pub open spec fn listing_outcome(ls: Seq<Seq<char>>, r: Result<Vec<ArpTable>, NeighborError>) -> bool {
    match r {
        Ok(v) => parse_all(ls) == Ok::<Seq<ArpView>, (Seq<char>, FormatReason)>(views(v@)),
        Err(NeighborError::FormatError(l, why)) => parse_all(ls) == Err::<Seq<ArpView>, (Seq<char>, FormatReason)>((l@, why)),
        Err(_) => false,
    }
}

proof fn lemma_kept_lines_concat(a: Seq<Seq<char>>, b: Seq<Seq<char>>)
    ensures
        kept_lines(a + b) == kept_lines(a) + kept_lines(b),
    decreases b.len(),
{
    if b.len() == 0 {
        assert(a + b =~= a);
        assert(kept_lines(a) + kept_lines(b) =~= kept_lines(a));
    } else {
        lemma_kept_lines_concat(a, b.drop_last());
        assert((a + b).drop_last() =~= a + b.drop_last());
        let t = trimmed(b.last());
        if t.len() != 0 {
            assert(kept_lines(a) + kept_lines(b) =~= (kept_lines(a) + kept_lines(b.drop_last())).push(t));
        }
    }
}

proof fn lemma_parse_all_err_stays(ls: Seq<Seq<char>>, more: Seq<Seq<char>>)
    requires
        parse_all(ls).is_err(),
    ensures
        parse_all(ls + more) == parse_all(ls),
    decreases more.len(),
{
    if more.len() == 0 {
        assert(ls + more =~= ls);
    } else {
        lemma_parse_all_err_stays(ls, more.drop_last());
        assert((ls + more).drop_last() =~= ls + more.drop_last());
    }
}

proof fn lemma_kept_lines_step(sp: Seq<Seq<char>>, i: int)
    requires
        0 <= i < sp.len(),
    ensures
        kept_lines(sp.subrange(0, i + 1)) == (if trimmed(sp[i]).len() == 0 {
            kept_lines(sp.subrange(0, i))
        } else {
            kept_lines(sp.subrange(0, i)).push(trimmed(sp[i]))
        }),
{
    assert(sp.subrange(0, i + 1).drop_last() =~= sp.subrange(0, i));
}

proof fn lemma_listing_fails_at(sp: Seq<Seq<char>>, i: int)
    requires
        0 <= i < sp.len(),
        parse_all(kept_lines(sp.subrange(0, i + 1))).is_err(),
    ensures
        parse_all(kept_lines(sp)) == parse_all(kept_lines(sp.subrange(0, i + 1))),
{
    let ks = kept_lines(sp.subrange(0, i + 1));
    assert(sp =~= sp.subrange(0, i + 1) + sp.subrange(i + 1, sp.len() as int));
    lemma_kept_lines_concat(sp.subrange(0, i + 1), sp.subrange(i + 1, sp.len() as int));
    lemma_parse_all_err_stays(ks, kept_lines(sp.subrange(i + 1, sp.len() as int)));
}

/// Reads every non-blank line of a listing, trimmed; fails on the first line
/// that cannot be read, with no records.
pub fn parse_listing(text: &str) -> (r: Result<Vec<ArpTable>, NeighborError>)
    ensures
        listing_outcome(listing_lines(text@), r),
        r matches Ok(v) ==> forall|i: int| 0 <= i < v.len() ==> (#[trigger] v[i]).wf(),
{
    let ps = split_str(text, '\n');
    let ghost sp = split_on(text@, '\n');
    let mut out: Vec<ArpTable> = Vec::new();
    let mut i: usize = 0;
    proof {
        assert(sp.subrange(0, 0) =~= Seq::<Seq<char>>::empty());
        assert(views(out@) =~= Seq::<ArpView>::empty());
    }
    while i < ps.len()
        invariant
            i <= ps.len(),
            ps@.map_values(|t: String| t@) == sp,
            sp == split_on(text@, '\n'),
            parse_all(kept_lines(sp.subrange(0, i as int))) == Ok::<Seq<ArpView>, (Seq<char>, FormatReason)>(views(out@)),
            forall|k: int| 0 <= k < out.len() ==> (#[trigger] out[k]).wf(),
        decreases ps.len() - i,
    {
        let t = trim_str(ps[i].as_str());
        proof {
            assert(sp[i as int] == ps@[i as int]@);
            lemma_kept_lines_step(sp, i as int);
            let pk = kept_lines(sp.subrange(0, i as int));
            assert(pk.push(t@).drop_last() =~= pk);
        }
        if !t.is_empty() {
            match ArpTable::parse_from_string(t) {
                Ok(a) => {
                    let ghost before = out@;
                    out.push(a);
                    proof {
                        assert(line_result(t@) == Ok::<ArpView, FormatReason>(a@));
                        assert(views(out@) =~= views(before).push(a@));
                    }
                },
                Err(e) => {
                    proof {
                        assert(parse_all(kept_lines(sp.subrange(0, i + 1))).is_err());
                        lemma_listing_fails_at(sp, i as int);
                    }
                    return Err(e);
                },
            }
        }
        i += 1;
    }
    proof {
        assert(sp.subrange(0, i as int) =~= sp);
    }
    Ok(out)
}

/// `b` with ASCII upper-case letters made lower case.
pub open spec fn ascii_lower(b: Seq<u8>) -> Seq<u8> {
    Seq::new(b.len(), |i: int| if 65 <= b[i] <= 90 { (b[i] + 32) as u8 } else { b[i] })
}

/// Lower-cases the ASCII letters of `b`.
pub fn ascii_lowercase(b: &[u8]) -> (r: Vec<u8>)
    ensures
        r@ == ascii_lower(b@),
{
    let mut r: Vec<u8> = Vec::new();
    let mut i: usize = 0;
    while i < b.len()
        invariant
            i <= b.len(),
            r@ == ascii_lower(b@).subrange(0, i as int),
        decreases b.len() - i,
    {
        let c = b[i];
        let l: u8 = if 65 <= c && c <= 90 {
            c + 32
        } else {
            c
        };
        r.push(l);
        i += 1;
        proof {
            assert(r@ =~= ascii_lower(b@).subrange(0, i as int));
        }
    }
    proof {
        assert(r@ =~= ascii_lower(b@));
    }
    r
}

/// Turns the outcome of one run of the neighbour-listing command into
/// records: a failure status gives `CommandError` with the error output
/// lower-cased and reads no line; a success reads the standard output.
pub fn neighbors_from_output(success: bool, stdout: &str, stderr: &[u8]) -> (r: Result<
    Vec<ArpTable>,
    NeighborError,
>)
    ensures
        !success ==> (r matches Err(NeighborError::CommandError(e)) && e@ == ascii_lower(stderr@)),
        success ==> listing_outcome(listing_lines(stdout@), r),
        r matches Ok(v) ==> forall|i: int| 0 <= i < v.len() ==> (#[trigger] v[i]).wf(),
{
    if !success {
        return Err(NeighborError::CommandError(ascii_lowercase(stderr)));
    }
    parse_listing(stdout)
}

/// A line that reads as an entry keeps its address as read from the first
/// field (for IPv4, the field is exactly the address's printed form), its
/// interface name verbatim, its MAC address lower-cased, and takes its state
/// from the last field.
pub proof fn lemma_fields_kept(s: Seq<char>)
    requires
        line_result(s).is_ok(),
    ensures
        ({
            let ts = split_on(s, ' ');
            let v = line_result(s).unwrap();
            &&& v.ip == ip_of(ts[0]).unwrap()
            &&& v.iface == ts[2]
            &&& v.mac_addr == lower_of(ts[4])
            &&& v.nud_state == nud_of(ts.last())
            &&& (v.ip matches IpView::V4(o) ==> ts[0] == ipv4_text(o))
        }),
{
    reveal(line_result);
    let t0 = split_on(s, ' ')[0];
    if ipv4_of(t0).is_some() {
        lemma_ipv4_read_is_printed(t0);
    }
}

/// A line of fewer than six space-separated fields is refused.
pub proof fn lemma_too_few_fields(s: Seq<char>)
    requires
        split_on(s, ' ').len() < 6,
    ensures
        line_result(s) == Err::<ArpView, FormatReason>(FormatReason::UnexpectedString),
{
    reveal(line_result);
}

/// A line whose second field is not `dev`, in any letter case, is refused,
/// whatever its other fields hold.
pub proof fn lemma_no_device(s: Seq<char>)
    requires
        split_on(s, ' ').len() >= 2,
        !eq_ignore_case(split_on(s, ' ')[1], dev_word()),
    ensures
        line_result(s).is_err(),
{
    reveal(line_result);
}

/// A line whose fourth field is not `lladdr`, in any letter case, is refused.
pub proof fn lemma_no_link_layer_address(s: Seq<char>)
    requires
        split_on(s, ' ').len() >= 4,
        !eq_ignore_case(split_on(s, ' ')[3], lladdr_word()),
    ensures
        line_result(s).is_err(),
{
    reveal(line_result);
}

/// Two parses of the same line give structurally identical outcomes.
pub proof fn lemma_parse_twice_same(
    s: Seq<char>,
    r1: Result<ArpTable, NeighborError>,
    r2: Result<ArpTable, NeighborError>,
)
    requires
        line_outcome(s, r1),
        line_outcome(s, r2),
    ensures
        match (r1, r2) {
            (Ok(a1), Ok(a2)) => a1@ == a2@,
            (Err(NeighborError::FormatError(l1, w1)), Err(NeighborError::FormatError(l2, w2))) => l1@
                == l2@ && w1 == w2,
            _ => false,
        },
{
}

/// One line that cannot be read fails the whole listing: no record is
/// returned for the others.
pub proof fn lemma_one_bad_line_fails_all(
    ls: Seq<Seq<char>>,
    k: int,
    r: Result<Vec<ArpTable>, NeighborError>,
)
    requires
        0 <= k < ls.len(),
        line_result(ls[k]).is_err(),
        listing_outcome(ls, r),
    ensures
        parse_all(ls).is_err(),
        r.is_err(),
{
    lemma_bad_line_fails(ls, k);
}

proof fn lemma_bad_line_fails(ls: Seq<Seq<char>>, k: int)
    requires
        0 <= k < ls.len(),
        line_result(ls[k]).is_err(),
    ensures
        parse_all(ls).is_err(),
    decreases ls.len(),
{
    if k < ls.len() - 1 {
        assert(ls.drop_last()[k] == ls[k]);
        lemma_bad_line_fails(ls.drop_last(), k);
    }
}

} // verus!
