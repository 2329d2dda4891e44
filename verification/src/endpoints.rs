//! Endpoint discovery: turns the host's interface and address data into an
//! ordered list of reachable base URLs, each with a pre-rendered QR image.
//! Link-local IPv6 addresses are never kept; loopback endpoints are kept but
//! marked, and sort after the others.

use vstd::prelude::*;
use vstd::seq_lib::group_to_multiset_ensures;
use crate::listing::{lemma_insert_to_multiset, lemma_lex_le_total, lex_le, str_le};
use crate::qr::{qr_accepts, qr_svg_fragment, render_url_svg};
use crate::sizefmt::{dec_digit, spec_dec, u64_to_dec};

verus! {

/// A network address the service may be reached at: four octets, or eight
/// 16-bit groups.
#[derive(Clone, Copy, Debug, PartialEq, Eq, Structural)]
pub enum IpAddress {
    V4(u8, u8, u8, u8),
    V6(u16, u16, u16, u16, u16, u16, u16, u16),
}

/// `true` for an address in `fe80::/10`, the IPv6 link-local block: its
/// first ten bits are `1111111010`.
pub open spec fn is_link_local_v6(ip: IpAddress) -> bool {
    match ip {
        IpAddress::V4(_, _, _, _) => false,
        IpAddress::V6(s0, _, _, _, _, _, _, _) => (s0 & 0xffc0) == 0xfe80,
    }
}

/// Exec test for [`is_link_local_v6`].
pub fn is_link_local(ip: &IpAddress) -> (b: bool)
    ensures
        b == is_link_local_v6(*ip),
{
    match ip {
        IpAddress::V4(_, _, _, _) => false,
        IpAddress::V6(s0, _, _, _, _, _, _, _) => (*s0 & 0xffc0) == 0xfe80,
    }
}

/// The groups of an IPv6 address, most significant first; empty for IPv4.
pub open spec fn v6_groups(ip: IpAddress) -> Seq<u16> {
    match ip {
        IpAddress::V4(_, _, _, _) => Seq::empty(),
        IpAddress::V6(s0, s1, s2, s3, s4, s5, s6, s7) => seq![s0, s1, s2, s3, s4, s5, s6, s7],
    }
}

/// The lowercase hexadecimal digit character for `d` in `0..=15`.
pub open spec fn hex_digit(d: int) -> char {
    if d < 10 {
        dec_digit(d)
    } else if d == 10 {
        'a'
    } else if d == 11 {
        'b'
    } else if d == 12 {
        'c'
    } else if d == 13 {
        'd'
    } else if d == 14 {
        'e'
    } else {
        'f'
    }
}

/// The lowercase hexadecimal digits of `n`, most significant first, without
/// leading zeros.
pub open spec fn spec_hex(n: int) -> Seq<char>
    decreases n,
{
    if n < 16 {
        seq![hex_digit(n)]
    } else {
        spec_hex(n / 16).push(hex_digit(n % 16))
    }
}

/// The single character of a hexadecimal digit.
fn hex_digit_str(d: u16) -> (r: &'static str)
    requires
        d < 16,
    ensures
        r@ == seq![hex_digit(d as int)],
{
    proof {
        reveal_strlit("0");
        reveal_strlit("1");
        reveal_strlit("2");
        reveal_strlit("3");
        reveal_strlit("4");
        reveal_strlit("5");
        reveal_strlit("6");
        reveal_strlit("7");
        reveal_strlit("8");
        reveal_strlit("9");
        reveal_strlit("a");
        reveal_strlit("b");
        reveal_strlit("c");
        reveal_strlit("d");
        reveal_strlit("e");
        reveal_strlit("f");
    }
    if d == 0 {
        "0"
    } else if d == 1 {
        "1"
    } else if d == 2 {
        "2"
    } else if d == 3 {
        "3"
    } else if d == 4 {
        "4"
    } else if d == 5 {
        "5"
    } else if d == 6 {
        "6"
    } else if d == 7 {
        "7"
    } else if d == 8 {
        "8"
    } else if d == 9 {
        "9"
    } else if d == 10 {
        "a"
    } else if d == 11 {
        "b"
    } else if d == 12 {
        "c"
    } else if d == 13 {
        "d"
    } else if d == 14 {
        "e"
    } else {
        "f"
    }
}

/// `n` in lowercase hexadecimal.
fn u16_to_hex(n: u16) -> (r: String)
    ensures
        r@ == spec_hex(n as int),
    decreases n,
{
    if n < 16 {
        String::from_str(hex_digit_str(n))
    } else {
        let r = u16_to_hex(n / 16);
        r.concat(hex_digit_str(n % 16))
    }
}

/// The groups of `s` in hexadecimal, joined with `:`.
pub open spec fn spec_groups_text(s: Seq<u16>) -> Seq<char>
    decreases s.len(),
{
    if s.len() == 0 {
        Seq::empty()
    } else if s.len() == 1 {
        spec_hex(s[0] as int)
    } else {
        spec_hex(s[0] as int) + ":"@ + spec_groups_text(s.drop_first())
    }
}

/// The groups `v[from..to]` in hexadecimal, joined with `:`.
fn hex_groups(v: &Vec<u16>, from: usize, to: usize) -> (r: String)
    requires
        from <= to <= v@.len(),
    ensures
        r@ == spec_groups_text(v@.subrange(from as int, to as int)),
    decreases to - from,
{
    if from == to {
        proof {
            assert(v@.subrange(from as int, to as int) =~= Seq::<u16>::empty());
        }
        String::new()
    } else if to - from == 1 {
        u16_to_hex(v[from])
    } else {
        let head = u16_to_hex(v[from]).concat(":");
        let rest = hex_groups(v, from + 1, to);
        proof {
            assert(v@.subrange(from as int, to as int).drop_first() =~= v@.subrange(
                from + 1 as int,
                to as int,
            ));
        }
        head.concat(rest.as_str())
    }
}

/// The length of the run of zero groups starting at `i`.
pub open spec fn zero_run_len(s: Seq<u16>, i: int) -> int
    decreases s.len() - i,
{
    if 0 <= i && i < s.len() && s[i] == 0 {
        1 + zero_run_len(s, i + 1)
    } else {
        0
    }
}

/// Keeps the better of a candidate run and the best so far: a run is taken
/// only when it spans at least two groups and beats the earlier best
/// strictly, so the leftmost longest run wins.
pub open spec fn better_run(cur: Option<(int, int)>, start: int, len: int) -> Option<(int, int)> {
    if len >= 2 && (cur is None || len > cur.unwrap().1) {
        Some((start, len))
    } else {
        cur
    }
}

/// The best zero run at or after `i`, folded over every start position.
pub open spec fn best_zero_run_from(s: Seq<u16>, i: int, cur: Option<(int, int)>) -> Option<
    (int, int),
>
    decreases s.len() - i,
{
    if i < 0 || i >= s.len() {
        cur
    } else {
        best_zero_run_from(s, i + 1, better_run(cur, i, zero_run_len(s, i)))
    }
}

/// The leftmost longest run of at least two zero groups, if any.
pub open spec fn best_zero_run(s: Seq<u16>) -> Option<(int, int)> {
    best_zero_run_from(s, 0, None)
}

/// The text of an IPv6 address: hexadecimal groups joined with `:`, with the
/// leftmost longest run of two or more zero groups compressed to `::`.
pub open spec fn spec_v6_text(s: Seq<u16>) -> Seq<char> {
    match best_zero_run(s) {
        None => spec_groups_text(s),
        Some((st, l)) => spec_groups_text(s.subrange(0, st)) + "::"@ + spec_groups_text(
            s.subrange(st + l, s.len() as int),
        ),
    }
}

/// The text of an IPv4 address: the four octets in decimal, joined with `.`.
pub open spec fn spec_v4_text(a: u8, b: u8, c: u8, d: u8) -> Seq<char> {
    spec_dec(a as int) + "."@ + spec_dec(b as int) + "."@ + spec_dec(c as int) + "."@ + spec_dec(
        d as int,
    )
}

/// The display text of an address.
pub open spec fn spec_ip_text(ip: IpAddress) -> Seq<char> {
    match ip {
        IpAddress::V4(a, b, c, d) => spec_v4_text(a, b, c, d),
        IpAddress::V6(_, _, _, _, _, _, _, _) => spec_v6_text(v6_groups(ip)),
    }
}

/// The display text of an address, as [`spec_ip_text`] gives it.
pub fn format_ip(ip: &IpAddress) -> (r: String)
    ensures
        r@ == spec_ip_text(*ip),
{
    match ip {
        IpAddress::V4(a, b, c, d) => {
            let s = u64_to_dec(*a as u64).concat(".");
            let s = s.concat(u64_to_dec(*b as u64).as_str()).concat(".");
            let s = s.concat(u64_to_dec(*c as u64).as_str()).concat(".");
            let out = s.concat(u64_to_dec(*d as u64).as_str());
            proof {
                assert(out@ =~= spec_v4_text(*a, *b, *c, *d));
            }
            out
        },
        IpAddress::V6(s0, s1, s2, s3, s4, s5, s6, s7) => {
            let v: Vec<u16> = vec![*s0, *s1, *s2, *s3, *s4, *s5, *s6, *s7];
            proof {
                assert(v@ == v6_groups(*ip));
            }
            let mut best: Option<(usize, usize)> = None;
            let mut i: usize = 0;
            while i < 8
                invariant
                    0 <= i <= 8,
                    v@.len() == 8,
                    (match best {
                        Some((bs, bl)) => 0 <= bs && 2 <= bl && bs + bl <= 8,
                        None => true,
                    }),
                    best_zero_run(v@) == best_zero_run_from(
                        v@,
                        i as int,
                        match best {
                            Some((bs, bl)) => Some((bs as int, bl as int)),
                            None => None,
                        },
                    ),
                decreases 8 - i,
            {
                let mut j: usize = i;
                while j < 8 && v[j] == 0
                    invariant
                        i <= j <= 8,
                        v@.len() == 8,
                        zero_run_len(v@, i as int) == (j - i) + zero_run_len(v@, j as int),
                    decreases 8 - j,
                {
                    j = j + 1;
                }
                let l = j - i;
                if l >= 2 && (match best {
                    None => true,
                    Some((_, bl)) => l > bl,
                }) {
                    best = Some((i, l));
                }
                i = i + 1;
            }
            match best {
                None => {
                    let out = hex_groups(&v, 0, 8);
                    proof {
                        assert(v@.subrange(0, 8) =~= v@);
                    }
                    out
                },
                Some((st, l)) => {
                    let s = hex_groups(&v, 0, st).concat("::");
                    let out = s.concat(hex_groups(&v, st + l, 8).as_str());
                    proof {
                        assert(out@ =~= spec_v6_text(v@));
                    }
                    out
                },
            }
        },
    }
}

/// The base URL at which the service listens on `ip` and `port`:
/// `http://{ip}:{port}`, the address bracketed for IPv6.
pub open spec fn spec_url(ip: IpAddress, port: u16) -> Seq<char> {
    match ip {
        IpAddress::V4(_, _, _, _) => "http://"@ + spec_ip_text(ip) + ":"@ + spec_dec(port as int),
        IpAddress::V6(_, _, _, _, _, _, _, _) => "http://["@ + spec_ip_text(ip) + "]:"@ + spec_dec(
            port as int,
        ),
    }
}

/// The base URL for `ip` and `port`, as [`spec_url`] gives it.
pub fn format_url(ip: &IpAddress, port: u16) -> (r: String)
    ensures
        r@ == spec_url(*ip, port),
{
    let addr = format_ip(ip);
    match ip {
        IpAddress::V4(_, _, _, _) => {
            let s = String::from_str("http://").concat(addr.as_str()).concat(":");
            let out = s.concat(u64_to_dec(port as u64).as_str());
            proof {
                assert(out@ =~= spec_url(*ip, port));
            }
            out
        },
        IpAddress::V6(_, _, _, _, _, _, _, _) => {
            let s = String::from_str("http://[").concat(addr.as_str()).concat("]:");
            let out = s.concat(u64_to_dec(port as u64).as_str());
            proof {
                assert(out@ =~= spec_url(*ip, port));
            }
            out
        },
    }
}

/// One reachable endpoint: the interface it sits on, its address, its base
/// URL, and the QR image of that URL as an inline SVG fragment.
#[derive(Debug, Clone)]
pub struct ListenUrl {
    pub is_loopback: bool,
    pub interface: String,
    pub ip: IpAddress,
    pub url: String,
    pub qr_code_svg: String,
}

/// One of the host's network interfaces, as plain values: its name, whether
/// its link is up, whether it is the loopback interface, and its addresses.
#[derive(Debug, Clone)]
pub struct NetInterface {
    pub name: String,
    pub is_up: bool,
    pub is_loopback: bool,
    pub ips: Vec<IpAddress>,
}

/// Address order: IPv4 before IPv6, then numeric, most significant first.
pub open spec fn spec_ip_le(a: IpAddress, b: IpAddress) -> bool {
    match (a, b) {
        (IpAddress::V4(a0, a1, a2, a3), IpAddress::V4(b0, b1, b2, b3)) => {
            if a0 != b0 {
                a0 < b0
            } else if a1 != b1 {
                a1 < b1
            } else if a2 != b2 {
                a2 < b2
            } else {
                a3 <= b3
            }
        },
        (IpAddress::V4(_, _, _, _), IpAddress::V6(_, _, _, _, _, _, _, _)) => true,
        (IpAddress::V6(_, _, _, _, _, _, _, _), IpAddress::V4(_, _, _, _)) => false,
        (
            IpAddress::V6(a0, a1, a2, a3, a4, a5, a6, a7),
            IpAddress::V6(b0, b1, b2, b3, b4, b5, b6, b7),
        ) => {
            if a0 != b0 {
                a0 < b0
            } else if a1 != b1 {
                a1 < b1
            } else if a2 != b2 {
                a2 < b2
            } else if a3 != b3 {
                a3 < b3
            } else if a4 != b4 {
                a4 < b4
            } else if a5 != b5 {
                a5 < b5
            } else if a6 != b6 {
                a6 < b6
            } else {
                a7 <= b7
            }
        },
    }
}

/// Exec comparison for [`spec_ip_le`].
fn ip_le(a: &IpAddress, b: &IpAddress) -> (r: bool)
    ensures
        r == spec_ip_le(*a, *b),
{
    match (a, b) {
        (IpAddress::V4(a0, a1, a2, a3), IpAddress::V4(b0, b1, b2, b3)) => {
            if a0 != b0 {
                a0 < b0
            } else if a1 != b1 {
                a1 < b1
            } else if a2 != b2 {
                a2 < b2
            } else {
                a3 <= b3
            }
        },
        (IpAddress::V4(_, _, _, _), IpAddress::V6(_, _, _, _, _, _, _, _)) => true,
        (IpAddress::V6(_, _, _, _, _, _, _, _), IpAddress::V4(_, _, _, _)) => false,
        (
            IpAddress::V6(a0, a1, a2, a3, a4, a5, a6, a7),
            IpAddress::V6(b0, b1, b2, b3, b4, b5, b6, b7),
        ) => {
            if a0 != b0 {
                a0 < b0
            } else if a1 != b1 {
                a1 < b1
            } else if a2 != b2 {
                a2 < b2
            } else if a3 != b3 {
                a3 < b3
            } else if a4 != b4 {
                a4 < b4
            } else if a5 != b5 {
                a5 < b5
            } else if a6 != b6 {
                a6 < b6
            } else {
                a7 <= b7
            }
        },
    }
}

/// Display order of endpoints: non-loopback before loopback, then by
/// interface name, then by address.
pub open spec fn spec_endpoint_le(a: ListenUrl, b: ListenUrl) -> bool {
    if a.is_loopback != b.is_loopback {
        !a.is_loopback
    } else if a.interface@ != b.interface@ {
        lex_le(a.interface@, b.interface@)
    } else {
        spec_ip_le(a.ip, b.ip)
    }
}

/// The endpoint order is total.
pub proof fn lemma_endpoint_le_total(a: ListenUrl, b: ListenUrl)
    ensures
        spec_endpoint_le(a, b) || spec_endpoint_le(b, a),
{
    lemma_lex_le_total(a.interface@, b.interface@);
}

/// Exec comparison for [`spec_endpoint_le`].
fn endpoint_le(a: &ListenUrl, b: &ListenUrl) -> (r: bool)
    ensures
        r == spec_endpoint_le(*a, *b),
{
    if a.is_loopback != b.is_loopback {
        !a.is_loopback
    } else if !(a.interface == b.interface) {
        str_le(a.interface.as_str(), b.interface.as_str())
    } else {
        ip_le(&a.ip, &b.ip)
    }
}

/// Endpoints sorted for display.
pub open spec fn sorted_endpoints(s: Seq<ListenUrl>) -> bool {
    forall|i: int| 0 <= i < s.len() - 1 ==> spec_endpoint_le(#[trigger] s[i], s[i + 1])
}

/// The mathematical content of one endpoint.
pub open spec fn endpoint_model(e: ListenUrl) -> (bool, Seq<char>, IpAddress, Seq<char>, Seq<char>) {
    (e.is_loopback, e.interface@, e.ip, e.url@, e.qr_code_svg@)
}

/// The contents of a whole endpoint list, entry by entry.
pub open spec fn eps_model(s: Seq<ListenUrl>) -> Seq<
    (bool, Seq<char>, IpAddress, Seq<char>, Seq<char>),
>
    decreases s.len(),
{
    if s.len() == 0 {
        Seq::empty()
    } else {
        eps_model(s.drop_last()).push(endpoint_model(s.last()))
    }
}

/// [`eps_model`] maps the endpoints one for one.
pub proof fn lemma_eps_model_index(s: Seq<ListenUrl>)
    ensures
        eps_model(s).len() == s.len(),
        forall|j: int| 0 <= j < s.len() ==> eps_model(s)[j] == endpoint_model(s[j]),
    decreases s.len(),
{
    if s.len() > 0 {
        lemma_eps_model_index(s.drop_last());
    }
}

/// The endpoints one interface owes: one per address that is kept (IPv4, or
/// IPv6 outside the link-local block) and whose URL the QR encoder accepts,
/// in address order.
pub open spec fn owed_of_ips(looped: bool, name: Seq<char>, ips: Seq<IpAddress>, port: u16) -> Seq<
    (bool, Seq<char>, IpAddress, Seq<char>, Seq<char>),
>
    decreases ips.len(),
{
    if ips.len() == 0 {
        Seq::empty()
    } else {
        let rest = owed_of_ips(looped, name, ips.drop_last(), port);
        let ip = ips.last();
        if !is_link_local_v6(ip) && qr_accepts(spec_url(ip, port)) {
            rest.push((looped, name, ip, spec_url(ip, port), qr_svg_fragment(spec_url(ip, port))))
        } else {
            rest
        }
    }
}

/// Everything discovery owes: the owed endpoints of each up interface, one
/// per retained address whose URL the encoder accepts.
pub open spec fn owed_endpoints(ifs: Seq<NetInterface>, port: u16) -> Seq<
    (bool, Seq<char>, IpAddress, Seq<char>, Seq<char>),
>
    decreases ifs.len(),
{
    if ifs.len() == 0 {
        Seq::empty()
    } else {
        let rest = owed_endpoints(ifs.drop_last(), port);
        let f = ifs.last();
        if f.is_up {
            rest + owed_of_ips(f.is_loopback, f.name@, f.ips@, port)
        } else {
            rest
        }
    }
}

/// The endpoint for one address of one interface, QR image included. `None`
/// exactly when the QR encoder refuses the URL; discovery skips such an
/// address and goes on.
pub fn endpoint_for(name: &str, looped: bool, ip: IpAddress, port: u16) -> (r: Option<ListenUrl>)
    ensures
        r is Some <==> qr_accepts(spec_url(ip, port)),
        r matches Some(e) ==> e.is_loopback == looped && e.interface@ == name@ && e.ip == ip
            && e.url@ == spec_url(ip, port) && e.qr_code_svg@ == qr_svg_fragment(
            spec_url(ip, port),
        ),
{
    let url = format_url(&ip, port);
    match render_url_svg(url.as_str()) {
        None => None,
        Some(svg) => Some(
            ListenUrl {
                is_loopback: looped,
                interface: String::from_str(name),
                ip,
                url,
                qr_code_svg: svg,
            },
        ),
    }
}

/// Inserts an endpoint into a sorted list, after its equals, keeping the
/// list sorted; the other elements stay, and exactly the new one is added.
fn insert_sorted_endpoint(out: &mut Vec<ListenUrl>, x: ListenUrl)
    requires
        sorted_endpoints(old(out)@),
    ensures
        sorted_endpoints(final(out)@),
        final(out)@.len() == old(out)@.len() + 1,
        forall|k: int|
            0 <= k < final(out)@.len() ==> (#[trigger] final(out)@[k] == x || exists|q: int|
                0 <= q < old(out)@.len() && final(out)@[k] == old(out)@[q]),
        eps_model(final(out)@).to_multiset() == eps_model(old(out)@).to_multiset().insert(
            endpoint_model(x),
        ),
{
    let n = out.len();
    let mut p: usize = 0;
    while p < n && endpoint_le(&out[p], &x)
        invariant
            0 <= p <= n,
            n == out@.len(),
            forall|q: int| 0 <= q < p ==> spec_endpoint_le(#[trigger] out@[q], x),
            sorted_endpoints(out@),
            out@ == old(out)@,
        decreases n - p,
    {
        p = p + 1;
    }
    let ghost pre = out@;
    let ghost xm = endpoint_model(x);
    proof {
        if p < pre.len() {
            lemma_endpoint_le_total(pre[p as int], x);
        }
    }
    out.insert(p, x);
    proof {
        let s2 = out@;
        lemma_eps_model_index(s2);
        lemma_eps_model_index(pre);
        assert(eps_model(s2) =~= eps_model(pre).insert(p as int, xm));
        lemma_insert_to_multiset(eps_model(pre), p as int, xm);
        assert forall|i: int| 0 <= i < s2.len() - 1 implies spec_endpoint_le(
            #[trigger] s2[i],
            s2[i + 1],
        ) by {
            if i + 1 < p {
                assert(s2[i] == pre[i] && s2[i + 1] == pre[i + 1]);
            } else if i + 1 == p {
                assert(s2[i] == pre[i]);
            } else if i == p {
                assert(s2[i + 1] == pre[i]);
            } else {
                assert(s2[i] == pre[i - 1] && s2[i + 1] == pre[i]);
            }
        }
        assert forall|k: int| 0 <= k < s2.len() implies (#[trigger] s2[k] == x || exists|q: int|
            0 <= q < pre.len() && s2[k] == pre[q]) by {
            if k < p {
                assert(s2[k] == pre[k]);
            } else if k > p {
                assert(s2[k] == pre[k - 1]);
            }
        }
    }
}

/// An endpoint that discovery owes to the interface data: an up interface's
/// address, not link-local, carrying that interface's name and loopback
/// mark, the base URL for the given port, and that URL's QR image.
pub open spec fn endpoint_from(ifs: Seq<NetInterface>, port: u16, e: ListenUrl) -> bool {
    exists|i: int, j: int|
        0 <= i < ifs.len() && 0 <= j < ifs[i].ips@.len() && (#[trigger] ifs[i].ips@[j]) == e.ip
            && ifs[i].is_up && !is_link_local_v6(e.ip) && e.is_loopback == ifs[i].is_loopback
            && e.interface@ == ifs[i].name@ && e.url@ == spec_url(e.ip, port) && e.qr_code_svg@
            == qr_svg_fragment(spec_url(e.ip, port))
}

/// Endpoint discovery over the host's interface data: keeps the addresses
/// of up interfaces, IPv4 unconditionally and IPv6 only when not link-local,
/// builds each base URL and its QR image, and sorts for display. The result
/// holds exactly one endpoint per such address whose URL the QR encoder
/// accepts; an address whose URL it refuses is skipped, never aborting the
/// rest. No link-local IPv6 address ever appears.
pub fn list_urls(interfaces: &Vec<NetInterface>, port: u16) -> (r: Vec<ListenUrl>)
    ensures
        sorted_endpoints(r@),
        eps_model(r@).to_multiset() == owed_endpoints(interfaces@, port).to_multiset(),
        forall|k: int| 0 <= k < r@.len() ==> endpoint_from(interfaces@, port, #[trigger] r@[k]),
        forall|k: int| 0 <= k < r@.len() ==> !is_link_local_v6(#[trigger] r@[k].ip),
{
    broadcast use group_to_multiset_ensures;

    let n = interfaces.len();
    let mut out: Vec<ListenUrl> = Vec::new();
    let mut i: usize = 0;
    proof {
        assert(interfaces@.take(0) =~= Seq::<NetInterface>::empty());
        assert(eps_model(out@) =~= owed_endpoints(interfaces@.take(0), port));
    }
    while i < n
        invariant
            0 <= i <= n,
            n == interfaces@.len(),
            sorted_endpoints(out@),
            eps_model(out@).to_multiset() == owed_endpoints(
                interfaces@.take(i as int),
                port,
            ).to_multiset(),
            forall|k: int|
                0 <= k < out@.len() ==> endpoint_from(interfaces@, port, #[trigger] out@[k]),
        decreases n - i,
    {
        let iface = &interfaces[i];
        let ghost owed_before = owed_endpoints(interfaces@.take(i as int), port);
        if iface.is_up {
            let m = iface.ips.len();
            let mut j: usize = 0;
            proof {
                assert(iface.ips@.take(0) =~= Seq::<IpAddress>::empty());
                assert(owed_of_ips(iface.is_loopback, iface.name@, iface.ips@.take(0), port)
                    =~= Seq::<(bool, Seq<char>, IpAddress, Seq<char>, Seq<char>)>::empty());
                assert(owed_before + owed_of_ips(
                    iface.is_loopback,
                    iface.name@,
                    iface.ips@.take(0),
                    port,
                ) =~= owed_before);
            }
            while j < m
                invariant
                    0 <= j <= m,
                    0 <= i < n,
                    n == interfaces@.len(),
                    m == interfaces@[i as int].ips@.len(),
                    iface == interfaces@[i as int],
                    iface.is_up,
                    owed_before == owed_endpoints(interfaces@.take(i as int), port),
                    sorted_endpoints(out@),
                    eps_model(out@).to_multiset() == (owed_before + owed_of_ips(
                        iface.is_loopback,
                        iface.name@,
                        iface.ips@.take(j as int),
                        port,
                    )).to_multiset(),
                    forall|k: int|
                        0 <= k < out@.len() ==> endpoint_from(
                            interfaces@,
                            port,
                            #[trigger] out@[k],
                        ),
                decreases m - j,
            {
                broadcast use group_to_multiset_ensures;

                let ghost ow_prev = owed_of_ips(
                    iface.is_loopback,
                    iface.name@,
                    iface.ips@.take(j as int),
                    port,
                );
                proof {
                    assert(iface.ips@.take(j + 1 as int).drop_last() =~= iface.ips@.take(
                        j as int,
                    ));
                    assert(iface.ips@.take(j + 1 as int).last() == iface.ips@[j as int]);
                }
                let ip = iface.ips[j];
                if !is_link_local(&ip) {
                    match endpoint_for(iface.name.as_str(), iface.is_loopback, ip, port) {
                        None => {},
                        Some(e) => {
                            proof {
                                assert(endpoint_from(interfaces@, port, e));
                            }
                            let ghost em = endpoint_model(e);
                            insert_sorted_endpoint(&mut out, e);
                            proof {
                                assert(owed_of_ips(
                                    iface.is_loopback,
                                    iface.name@,
                                    iface.ips@.take(j + 1 as int),
                                    port,
                                ) =~= ow_prev.push(em));
                                assert(owed_before + ow_prev.push(em) =~= (owed_before
                                    + ow_prev).push(em));
                            }
                        },
                    }
                }
                j = j + 1;
            }
            proof {
                assert(iface.ips@.take(m as int) =~= iface.ips@);
                assert(interfaces@.take(i + 1 as int).drop_last() =~= interfaces@.take(i as int));
                assert(interfaces@.take(i + 1 as int).last() == interfaces@[i as int]);
                assert(owed_endpoints(interfaces@.take(i + 1 as int), port) =~= owed_before
                    + owed_of_ips(iface.is_loopback, iface.name@, iface.ips@, port));
            }
        } else {
            proof {
                assert(interfaces@.take(i + 1 as int).drop_last() =~= interfaces@.take(i as int));
                assert(interfaces@.take(i + 1 as int).last() == interfaces@[i as int]);
                assert(owed_endpoints(interfaces@.take(i + 1 as int), port) =~= owed_before);
            }
        }
        i = i + 1;
    }
    proof {
        assert(interfaces@.take(n as int) =~= interfaces@);
        assert forall|k: int| 0 <= k < out@.len() implies !is_link_local_v6(
            #[trigger] out@[k].ip,
        ) by {
            assert(endpoint_from(interfaces@, port, out@[k]));
        }
    }
    out
}

} // verus!
