//! IP addresses and the textual forms in which they are written: dotted
//! decimal for IPv4, colon-separated hexadecimal groups for IPv6 (with at
//! most one `::` standing for a run of zero groups, and an optional
//! dotted-decimal tail).

use vstd::prelude::*;
use vstd::string::StringSliceAdditionalSpecFns;

use crate::text::{
    COLON, DOT, group_value, octet_value, parse_group, parse_octet, ranges_view, split,
    split_ranges,
};

verus! {

/// An IP address, either version 4 (32 bits) or version 6 (128 bits), each
/// held as the unsigned number whose big-endian bytes are the address.
#[derive(Clone, Copy, Debug, PartialEq, Eq, Structural)]
pub enum IpAddr {
    V4(u32),
    V6(u128),
}

/// The IPv4 address with the octets `o0.o1.o2.o3`.
pub open spec fn ipv4_from_octets(o0: u8, o1: u8, o2: u8, o3: u8) -> u32 {
    (o0 * 0x100_0000 + o1 * 0x1_0000 + o2 * 0x100 + o3) as u32
}

/// The address that a dotted-decimal text denotes: exactly four octets
/// separated by dots.
pub open spec fn parse_ipv4_text(s: Seq<u8>) -> Option<u32> {
    let p = split(s, DOT);
    if p.len() == 4 && octet_value(p[0]) is Some && octet_value(p[1]) is Some && octet_value(
        p[2],
    ) is Some && octet_value(p[3]) is Some {
        Some(
            ipv4_from_octets(
                octet_value(p[0]).unwrap(),
                octet_value(p[1]).unwrap(),
                octet_value(p[2]).unwrap(),
                octet_value(p[3]).unwrap(),
            ),
        )
    } else {
        None
    }
}

/// The 16-bit groups that one colon-separated piece of an IPv6 text stands
/// for: one hexadecimal group, or, where `embedded_v4` allows it, a
/// dotted-decimal IPv4 address standing for two groups.
pub open spec fn piece_groups(p: Seq<u8>, embedded_v4: bool) -> Option<Seq<u16>> {
    match group_value(p) {
        Some(g) => Some(seq![g]),
        None => if embedded_v4 {
            match parse_ipv4_text(p) {
                Some(a) => Some(seq![(a / 0x1_0000) as u16, (a % 0x1_0000) as u16]),
                None => None,
            }
        } else {
            None
        },
    }
}

/// The groups that a list of pieces stands for, in order; only the last
/// piece may be an embedded IPv4 address, and only when `v4_last` holds.
pub open spec fn pieces_groups(ps: Seq<Seq<u8>>, v4_last: bool) -> Option<Seq<u16>>
    decreases ps.len(),
{
    if ps.len() == 0 {
        Some(Seq::<u16>::empty())
    } else {
        match (pieces_groups(ps.drop_last(), false), piece_groups(ps.last(), v4_last)) {
            (Some(a), Some(b)) => Some(a + b),
            _ => None,
        }
    }
}

/// The IPv6 address whose eight 16-bit groups are `g`, most significant first.
pub open spec fn ipv6_from_groups(g: Seq<u16>) -> u128 {
    (g[0] * 0x1_0000_0000_0000_0000_0000_0000_0000 + g[1] * 0x1_0000_0000_0000_0000_0000_0000
        + g[2] * 0x1_0000_0000_0000_0000_0000 + g[3] * 0x1_0000_0000_0000_0000 + g[4]
        * 0x1_0000_0000_0000 + g[5] * 0x1_0000_0000 + g[6] * 0x1_0000 + g[7]) as u128
}

pub open spec fn double_colon_at(s: Seq<u8>, k: int) -> bool {
    0 <= k && k + 1 < s.len() && s[k] == COLON && s[k + 1] == COLON
}

/// `k` is where the first `::` of `s` begins.
pub open spec fn first_double_colon_at(s: Seq<u8>, k: int) -> bool {
    double_colon_at(s, k) && forall|j: int| 0 <= j < k ==> !double_colon_at(s, j)
}

/// The colon-separated pieces of one side of a `::`; an empty side has none.
pub open spec fn colon_pieces(t: Seq<u8>) -> Seq<Seq<u8>> {
    if t.len() == 0 {
        Seq::<Seq<u8>>::empty()
    } else {
        split(t, COLON)
    }
}

/// `n` zero groups.
pub open spec fn zero_groups(n: int) -> Seq<u16> {
    Seq::new(n as nat, |i: int| 0u16)
}

/// The address that an IPv6 text denotes. Without `::` the pieces must make
/// exactly eight groups. With `::` (its first occurrence), the pieces before
/// it are plain groups, those after it may end in an IPv4 address, together
/// they make at most seven groups, and `::` stands for the zero groups
/// that fill the address up to eight.
pub open spec fn parse_ipv6_text(s: Seq<u8>) -> Option<u128> {
    if exists|k: int| first_double_colon_at(s, k) {
        let k = choose|k: int| first_double_colon_at(s, k);
        match (
            pieces_groups(colon_pieces(s.take(k)), false),
            pieces_groups(colon_pieces(s.skip(k + 2)), true),
        ) {
            (Some(h), Some(t)) => if h.len() + t.len() <= 7 {
                Some(ipv6_from_groups(h + zero_groups(8 - h.len() - t.len()) + t))
            } else {
                None
            },
            _ => None,
        }
    } else {
        match pieces_groups(split(s, COLON), true) {
            Some(g) => if g.len() == 8 {
                Some(ipv6_from_groups(g))
            } else {
                None
            },
            None => None,
        }
    }
}

/// The address that a text denotes, trying IPv4 first and then IPv6.
pub open spec fn parse_ip_text(s: Seq<u8>) -> Option<IpAddr> {
    match parse_ipv4_text(s) {
        Some(a) => Some(IpAddr::V4(a)),
        None => match parse_ipv6_text(s) {
            Some(a) => Some(IpAddr::V6(a)),
            None => None,
        },
    }
}

/// Reads the dotted-decimal IPv4 address `s[start..end]`.
pub fn parse_ipv4_bytes(s: &[u8], start: usize, end: usize) -> (res: Option<u32>)
    requires
        start <= end <= s@.len(),
    ensures
        res == parse_ipv4_text(s@.subrange(start as int, end as int)),
{
    let pieces = split_ranges(s, start, end, DOT);
    let ghost p = split(s@.subrange(start as int, end as int), DOT);
    if pieces.len() != 4 {
        return None;
    }
    assert(ranges_view(s@, pieces@)[0] == p[0]);
    assert(ranges_view(s@, pieces@)[1] == p[1]);
    assert(ranges_view(s@, pieces@)[2] == p[2]);
    assert(ranges_view(s@, pieces@)[3] == p[3]);
    let o0 = match parse_octet(s, pieces[0].0, pieces[0].1) {
        Some(o) => o,
        None => return None,
    };
    let o1 = match parse_octet(s, pieces[1].0, pieces[1].1) {
        Some(o) => o,
        None => return None,
    };
    let o2 = match parse_octet(s, pieces[2].0, pieces[2].1) {
        Some(o) => o,
        None => return None,
    };
    let o3 = match parse_octet(s, pieces[3].0, pieces[3].1) {
        Some(o) => o,
        None => return None,
    };
    Some((o0 as u32) * 0x100_0000 + (o1 as u32) * 0x1_0000 + (o2 as u32) * 0x100 + (o3 as u32))
}

proof fn lemma_pieces_groups_prefix_fails(ps: Seq<Seq<u8>>, m: int, v4_last: bool)
    requires
        0 <= m < ps.len(),
        pieces_groups(ps.take(m), false) is None,
    ensures
        pieces_groups(ps, v4_last) is None,
    decreases ps.len(),
{
    if m == ps.len() - 1 {
        assert(ps.drop_last() =~= ps.take(m));
    } else {
        assert(ps.drop_last().take(m) =~= ps.take(m));
        lemma_pieces_groups_prefix_fails(ps.drop_last(), m, false);
    }
}

/// Reads the groups of the pieces `s[r.0..r.1]` for each `r` of `ranges`.
fn parse_pieces(s: &[u8], ranges: &Vec<(usize, usize)>, v4_last: bool) -> (res: Option<Vec<u16>>)
    requires
        forall|k: int|
            0 <= k < ranges@.len() ==> #[trigger] ranges@[k].0 <= ranges@[k].1 <= s@.len(),
    ensures
        match res {
            Some(g) => pieces_groups(ranges_view(s@, ranges@), v4_last) == Some(g@),
            None => pieces_groups(ranges_view(s@, ranges@), v4_last) is None,
        },
{
    let ghost ps = ranges_view(s@, ranges@);
    let n = ranges.len();
    let mut groups: Vec<u16> = Vec::new();
    let mut j: usize = 0;
    assert(ps.take(0) =~= Seq::<Seq<u8>>::empty());
    while j < n
        invariant
            n == ranges@.len(),
            ps == ranges_view(s@, ranges@),
            j <= n,
            forall|k: int|
                0 <= k < ranges@.len() ==> #[trigger] ranges@[k].0 <= ranges@[k].1 <= s@.len(),
            pieces_groups(ps.take(j as int), v4_last && j == n) == Some(groups@),
        decreases n - j,
    {
        let (a, b) = ranges[j];
        let last = j + 1 == n;
        let ghost flag = v4_last && last;
        let ghost piece = s@.subrange(a as int, b as int);
        assert(ps[j as int] == piece);
        assert(ps.take(j + 1).drop_last() =~= ps.take(j as int));
        assert(ps.take(j + 1).last() == piece);
        let ghost before = groups@;
        match parse_group(s, a, b) {
            Some(g) => {
                groups.push(g);
                assert(groups@ =~= before + seq![g]);
            },
            None => {
                let allowed = v4_last && last;
                if !allowed {
                    proof {
                        if !last {
                            lemma_pieces_groups_prefix_fails(ps, j + 1, v4_last);
                        } else {
                            assert(ps.take(j + 1) =~= ps);
                        }
                    }
                    return None;
                }
                match parse_ipv4_bytes(s, a, b) {
                    Some(x) => {
                        groups.push((x / 0x1_0000) as u16);
                        groups.push((x % 0x1_0000) as u16);
                        assert(groups@ =~= before + seq![
                            (x / 0x1_0000) as u16,
                            (x % 0x1_0000) as u16,
                        ]);
                    },
                    None => {
                        assert(ps.take(j + 1) =~= ps);
                        return None;
                    },
                }
            },
        }
        j = j + 1;
    }
    assert(ps.take(n as int) =~= ps);
    proof {
        if n == 0 {
            assert(ps =~= Seq::<Seq<u8>>::empty());
        }
    }
    Some(groups)
}

/// Where the first `::` of `s` begins, if anywhere.
fn find_double_colon(s: &[u8]) -> (res: Option<usize>)
    ensures
        match res {
            Some(k) => first_double_colon_at(s@, k as int),
            None => forall|k: int| !double_colon_at(s@, k),
        },
{
    let n = s.len();
    let mut i: usize = 0;
    while n >= 2 && i < n - 1
        invariant
            n == s@.len(),
            i <= n,
            forall|j: int| 0 <= j < i ==> !double_colon_at(s@, j),
        decreases n - i,
    {
        if s[i] == COLON && s[i + 1] == COLON {
            return Some(i);
        }
        i = i + 1;
    }
    None
}

fn ipv6_of_groups(g: &Vec<u16>) -> (res: u128)
    requires
        g@.len() == 8,
    ensures
        res == ipv6_from_groups(g@),
{
    (g[0] as u128) * 0x1_0000_0000_0000_0000_0000_0000_0000 + (g[1] as u128)
        * 0x1_0000_0000_0000_0000_0000_0000 + (g[2] as u128) * 0x1_0000_0000_0000_0000_0000
        + (g[3] as u128) * 0x1_0000_0000_0000_0000 + (g[4] as u128) * 0x1_0000_0000_0000
        + (g[5] as u128) * 0x1_0000_0000 + (g[6] as u128) * 0x1_0000 + (g[7] as u128)
}

/// Reads the IPv6 address that the whole of `s` spells.
pub fn parse_ipv6_bytes(s: &[u8]) -> (res: Option<u128>)
    ensures
        res == parse_ipv6_text(s@),
{
    let n = s.len();
    match find_double_colon(s) {
        Some(k) => {
            proof {
                assert(first_double_colon_at(s@, k as int));
                let c = choose|c: int| first_double_colon_at(s@, c);
                assert(c == k as int) by {
                    if c < k as int {
                        assert(!double_colon_at(s@, c));
                    } else if c > k as int {
                        assert(!double_colon_at(s@, k as int));
                    }
                }
            }
            let head = if k == 0 {
                Vec::new()
            } else {
                split_ranges(s, 0, k, COLON)
            };
            assert(ranges_view(s@, head@) == colon_pieces(s@.take(k as int))) by {
                assert(s@.take(k as int) =~= s@.subrange(0, k as int));
                if k == 0 {
                    assert(ranges_view(s@, head@) =~= Seq::<Seq<u8>>::empty());
                }
            }
            let tail = if k + 2 == n {
                Vec::new()
            } else {
                split_ranges(s, k + 2, n, COLON)
            };
            assert(ranges_view(s@, tail@) == colon_pieces(s@.skip(k + 2))) by {
                assert(s@.skip(k + 2) =~= s@.subrange(k + 2, n as int));
                if k + 2 == n {
                    assert(ranges_view(s@, tail@) =~= Seq::<Seq<u8>>::empty());
                }
            }
            let hg = match parse_pieces(s, &head, false) {
                Some(g) => g,
                None => return None,
            };
            let tg = match parse_pieces(s, &tail, true) {
                Some(g) => g,
                None => return None,
            };
            if hg.len() > 7 || tg.len() > 7 - hg.len() {
                return None;
            }
            let zeros = 8 - hg.len() - tg.len();
            let mut all: Vec<u16> = Vec::new();
            let mut i: usize = 0;
            while i < hg.len()
                invariant
                    i <= hg@.len(),
                    all@ == hg@.take(i as int),
                decreases hg@.len() - i,
            {
                all.push(hg[i]);
                i = i + 1;
                assert(all@ =~= hg@.take(i as int));
            }
            assert(hg@.take(hg@.len() as int) =~= hg@);
            let mut z: usize = 0;
            while z < zeros
                invariant
                    z <= zeros,
                    all@ == hg@ + zero_groups(z as int),
                decreases zeros - z,
            {
                all.push(0);
                z = z + 1;
                assert(all@ =~= hg@ + zero_groups(z as int));
            }
            let mut t: usize = 0;
            while t < tg.len()
                invariant
                    t <= tg@.len(),
                    all@ == hg@ + zero_groups(zeros as int) + tg@.take(t as int),
                decreases tg@.len() - t,
            {
                all.push(tg[t]);
                t = t + 1;
                assert(all@ =~= hg@ + zero_groups(zeros as int) + tg@.take(t as int));
            }
            assert(tg@.take(tg@.len() as int) =~= tg@);
            Some(ipv6_of_groups(&all))
        },
        None => {
            let pieces = split_ranges(s, 0, n, COLON);
            assert(s@.subrange(0, n as int) =~= s@);
            let g = match parse_pieces(s, &pieces, true) {
                Some(g) => g,
                None => return None,
            };
            if g.len() != 8 {
                return None;
            }
            Some(ipv6_of_groups(&g))
        },
    }
}

/// Reads the IP address that the whole of `s` spells, IPv4 first.
pub fn parse_ip_bytes(s: &[u8]) -> (res: Option<IpAddr>)
    ensures
        res == parse_ip_text(s@),
{
    let n = s.len();
    assert(s@.subrange(0, n as int) =~= s@);
    match parse_ipv4_bytes(s, 0, n) {
        Some(a) => Some(IpAddr::V4(a)),
        None => match parse_ipv6_bytes(s) {
            Some(a) => Some(IpAddr::V6(a)),
            None => None,
        },
    }
}

/// Reads the IP address that `text` spells; `None` where it spells none.
pub fn parse_ip_addr(text: &str) -> (res: Option<IpAddr>)
    ensures
        res == parse_ip_text(text.spec_bytes()),
{
    parse_ip_bytes(text.as_bytes())
}

} // verus!
