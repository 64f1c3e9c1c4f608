//! The reserved ("bogon") address blocks, which should not appear as
//! addresses of hosts on the public Internet, and the lookup that names the
//! block an address belongs to.

use vstd::prelude::*;
use vstd::string::StringSliceAdditionalSpecFns;

use crate::ip_addr::{IpAddr, ipv4_from_octets, ipv6_from_groups, parse_ip_addr, parse_ip_text};
use crate::ip_format::{
    format_ipv4, format_ipv4_mapped, format_ipv6, lemma_ipv4_mapped_text, lemma_ipv4_text,
    lemma_ipv6_text,
};
use crate::ip_collection::{AddressCollection, AddressCollectionView, IpRange};

verus! {

/// A reserved address block and the words that describe it.
pub struct Bogon {
    pub range: AddressCollection,
    pub description: &'static str,
}

/// What a `Bogon` holds.
#[verifier::ext_equal]
pub struct BogonView {
    pub range: AddressCollectionView,
    pub description: Seq<char>,
}

impl View for Bogon {
    type V = BogonView;

    open spec fn view(&self) -> BogonView {
        BogonView { range: self.range@, description: self.description@ }
    }
}

/// The IPv4 address `a.b.c.d`.
pub open spec fn ipv4_addr(a: u8, b: u8, c: u8, d: u8) -> IpAddr {
    IpAddr::V4(ipv4_from_octets(a, b, c, d))
}

/// The IPv6 address with the groups `g0:g1:g2:g3:g4:g5:g6:g7`.
pub open spec fn ipv6_addr(
    g0: u16,
    g1: u16,
    g2: u16,
    g3: u16,
    g4: u16,
    g5: u16,
    g6: u16,
    g7: u16,
) -> IpAddr {
    IpAddr::V6(ipv6_from_groups(seq![g0, g1, g2, g3, g4, g5, g6, g7]))
}

fn ipv4(a: u8, b: u8, c: u8, d: u8) -> (res: IpAddr)
    ensures
        res == ipv4_addr(a, b, c, d),
{
    IpAddr::V4((a as u32) * 0x100_0000 + (b as u32) * 0x1_0000 + (c as u32) * 0x100 + (d as u32))
}

fn ipv6(g0: u16, g1: u16, g2: u16, g3: u16, g4: u16, g5: u16, g6: u16, g7: u16) -> (res: IpAddr)
    ensures
        res == ipv6_addr(g0, g1, g2, g3, g4, g5, g6, g7),
{
    IpAddr::V6(
        (g0 as u128) * 0x1_0000_0000_0000_0000_0000_0000_0000 + (g1 as u128)
            * 0x1_0000_0000_0000_0000_0000_0000 + (g2 as u128) * 0x1_0000_0000_0000_0000_0000
            + (g3 as u128) * 0x1_0000_0000_0000_0000 + (g4 as u128) * 0x1_0000_0000_0000
            + (g5 as u128) * 0x1_0000_0000 + (g6 as u128) * 0x1_0000 + (g7 as u128),
    )
}

/// The reserved blocks, in the order in which they are looked up: the IPv4
/// blocks, then the IPv6 blocks.
pub open spec fn bogon_table() -> Seq<BogonView> {
    seq![
        // 0.0.0.0-0.255.255.255
        BogonView {
            range: AddressCollectionView {
                ips: Seq::empty(),
                ranges: seq![
                    IpRange { start: ipv4_addr(0, 0, 0, 0), end: ipv4_addr(0, 255, 255, 255) },
                ],
            },
            description: "\"this\" network"@,
        },
        // 10.0.0.0-10.255.255.255, 172.16.0.0-172.31.255.255, 192.168.0.0-192.168.255.255
        BogonView {
            range: AddressCollectionView {
                ips: Seq::empty(),
                ranges: seq![
                    IpRange { start: ipv4_addr(10, 0, 0, 0), end: ipv4_addr(10, 255, 255, 255) },
                    IpRange { start: ipv4_addr(172, 16, 0, 0), end: ipv4_addr(172, 31, 255, 255) },
                    IpRange { start: ipv4_addr(192, 168, 0, 0), end: ipv4_addr(192, 168, 255, 255) },
                ],
            },
            description: "private-use networks"@,
        },
        // 100.64.0.0-100.127.255.255
        BogonView {
            range: AddressCollectionView {
                ips: Seq::empty(),
                ranges: seq![
                    IpRange { start: ipv4_addr(100, 64, 0, 0), end: ipv4_addr(100, 127, 255, 255) },
                ],
            },
            description: "carrier-grade NAT"@,
        },
        // 127.0.0.0-127.255.255.255
        BogonView {
            range: AddressCollectionView {
                ips: Seq::empty(),
                ranges: seq![
                    IpRange { start: ipv4_addr(127, 0, 0, 0), end: ipv4_addr(127, 255, 255, 255) },
                ],
            },
            description: "loopback"@,
        },
        // 169.254.0.0-169.254.255.255
        BogonView {
            range: AddressCollectionView {
                ips: Seq::empty(),
                ranges: seq![
                    IpRange { start: ipv4_addr(169, 254, 0, 0), end: ipv4_addr(169, 254, 255, 255) },
                ],
            },
            description: "link local"@,
        },
        // 192.0.0.0-192.0.0.255
        BogonView {
            range: AddressCollectionView {
                ips: Seq::empty(),
                ranges: seq![
                    IpRange { start: ipv4_addr(192, 0, 0, 0), end: ipv4_addr(192, 0, 0, 255) },
                ],
            },
            description: "IETF protocol assignments"@,
        },
        // 192.0.2.0-192.0.2.255
        BogonView {
            range: AddressCollectionView {
                ips: Seq::empty(),
                ranges: seq![
                    IpRange { start: ipv4_addr(192, 0, 2, 0), end: ipv4_addr(192, 0, 2, 255) },
                ],
            },
            description: "TEST-NET-1"@,
        },
        // 198.18.0.0-198.19.255.255
        BogonView {
            range: AddressCollectionView {
                ips: Seq::empty(),
                ranges: seq![
                    IpRange { start: ipv4_addr(198, 18, 0, 0), end: ipv4_addr(198, 19, 255, 255) },
                ],
            },
            description: "network interconnect device benchmark testing"@,
        },
        // 198.51.100.0-198.51.100.255
        BogonView {
            range: AddressCollectionView {
                ips: Seq::empty(),
                ranges: seq![
                    IpRange { start: ipv4_addr(198, 51, 100, 0), end: ipv4_addr(198, 51, 100, 255) },
                ],
            },
            description: "TEST-NET-2"@,
        },
        // 203.0.113.0-203.0.113.255
        BogonView {
            range: AddressCollectionView {
                ips: Seq::empty(),
                ranges: seq![
                    IpRange { start: ipv4_addr(203, 0, 113, 0), end: ipv4_addr(203, 0, 113, 255) },
                ],
            },
            description: "TEST-NET-3"@,
        },
        // 240.0.0.0-255.255.255.255
        BogonView {
            range: AddressCollectionView {
                ips: Seq::empty(),
                ranges: seq![
                    IpRange { start: ipv4_addr(240, 0, 0, 0), end: ipv4_addr(255, 255, 255, 255) },
                ],
            },
            description: "reserved for future use"@,
        },
        // ::
        BogonView {
            range: AddressCollectionView {
                ips: seq![ipv6_addr(0, 0, 0, 0, 0, 0, 0, 0)],
                ranges: Seq::empty(),
            },
            description: "node-scope unicast unspecified"@,
        },
        // ::1
        BogonView {
            range: AddressCollectionView {
                ips: seq![ipv6_addr(0, 0, 0, 0, 0, 0, 0, 0x1)],
                ranges: Seq::empty(),
            },
            description: "node-scope unicast loopback"@,
        },
        // ::ffff:0.0.0.0-::ffff:255.255.255.255
        BogonView {
            range: AddressCollectionView {
                ips: Seq::empty(),
                ranges: seq![
                    IpRange { start: ipv6_addr(0, 0, 0, 0, 0, 0xffff, 0, 0), end: ipv6_addr(0, 0, 0, 0, 0, 0xffff, 0xffff, 0xffff) },
                ],
            },
            description: "IPv4-mapped"@,
        },
        // ::-::255.255.255.255
        BogonView {
            range: AddressCollectionView {
                ips: Seq::empty(),
                ranges: seq![
                    IpRange { start: ipv6_addr(0, 0, 0, 0, 0, 0, 0, 0), end: ipv6_addr(0, 0, 0, 0, 0, 0, 0xffff, 0xffff) },
                ],
            },
            description: "IPv4-compatible"@,
        },
        // 100::-100::ffff:ffff:ffff:ffff
        BogonView {
            range: AddressCollectionView {
                ips: Seq::empty(),
                ranges: seq![
                    IpRange { start: ipv6_addr(0x100, 0, 0, 0, 0, 0, 0, 0), end: ipv6_addr(0x100, 0, 0, 0, 0xffff, 0xffff, 0xffff, 0xffff) },
                ],
            },
            description: "remotely triggered black hole"@,
        },
        // 2001:10::-2001:1f:ffff:ffff:ffff:ffff:ffff:ffff
        BogonView {
            range: AddressCollectionView {
                ips: Seq::empty(),
                ranges: seq![
                    IpRange { start: ipv6_addr(0x2001, 0x10, 0, 0, 0, 0, 0, 0), end: ipv6_addr(0x2001, 0x1f, 0xffff, 0xffff, 0xffff, 0xffff, 0xffff, 0xffff) },
                ],
            },
            description: "ORCHID"@,
        },
        // 2001:db8::-2001:db8:ffff:ffff:ffff:ffff:ffff:ffff, 3fff::-3fff:fff:ffff:ffff:ffff:ffff:ffff:ffff
        BogonView {
            range: AddressCollectionView {
                ips: Seq::empty(),
                ranges: seq![
                    IpRange { start: ipv6_addr(0x2001, 0xdb8, 0, 0, 0, 0, 0, 0), end: ipv6_addr(0x2001, 0xdb8, 0xffff, 0xffff, 0xffff, 0xffff, 0xffff, 0xffff) },
                    IpRange { start: ipv6_addr(0x3fff, 0, 0, 0, 0, 0, 0, 0), end: ipv6_addr(0x3fff, 0xfff, 0xffff, 0xffff, 0xffff, 0xffff, 0xffff, 0xffff) },
                ],
            },
            description: "documentation prefix"@,
        },
        // fc00::-fdff:ffff:ffff:ffff:ffff:ffff:ffff:ffff
        BogonView {
            range: AddressCollectionView {
                ips: Seq::empty(),
                ranges: seq![
                    IpRange { start: ipv6_addr(0xfc00, 0, 0, 0, 0, 0, 0, 0), end: ipv6_addr(0xfdff, 0xffff, 0xffff, 0xffff, 0xffff, 0xffff, 0xffff, 0xffff) },
                ],
            },
            description: "ULA"@,
        },
        // fe80::-febf:ffff:ffff:ffff:ffff:ffff:ffff:ffff
        BogonView {
            range: AddressCollectionView {
                ips: Seq::empty(),
                ranges: seq![
                    IpRange { start: ipv6_addr(0xfe80, 0, 0, 0, 0, 0, 0, 0), end: ipv6_addr(0xfebf, 0xffff, 0xffff, 0xffff, 0xffff, 0xffff, 0xffff, 0xffff) },
                ],
            },
            description: "link-local unicast"@,
        },
        // fec0::-feff:ffff:ffff:ffff:ffff:ffff:ffff:ffff
        BogonView {
            range: AddressCollectionView {
                ips: Seq::empty(),
                ranges: seq![
                    IpRange { start: ipv6_addr(0xfec0, 0, 0, 0, 0, 0, 0, 0), end: ipv6_addr(0xfeff, 0xffff, 0xffff, 0xffff, 0xffff, 0xffff, 0xffff, 0xffff) },
                ],
            },
            description: "site-local unicast"@,
        },
    ]
}

/// The description of the first block of `table` that holds `ip`.
pub open spec fn bogon_description(table: Seq<BogonView>, ip: IpAddr) -> Option<Seq<char>>
    decreases table.len(),
{
    if table.len() == 0 {
        None
    } else if table[0].range.contains(ip) {
        Some(table[0].description)
    } else {
        bogon_description(table.drop_first(), ip)
    }
}

/// What `is_bogon` answers for the text whose UTF-8 bytes are `address`:
/// the description of the first reserved block that holds the address the
/// text spells, and nothing where the text spells no address or the address
/// lies in no reserved block.
pub open spec fn spec_is_bogon(address: Seq<u8>) -> Option<Seq<char>> {
    match parse_ip_text(address) {
        Some(ip) => bogon_description(bogon_table(), ip),
        None => None,
    }
}

/// The lookup answers with the first block that holds the address: it
/// answers nothing exactly when no block holds it, and otherwise the
/// description of a block that holds it and that no earlier block precedes.
pub proof fn lemma_bogon_description(table: Seq<BogonView>, ip: IpAddr)
    ensures
        bogon_description(table, ip) is None <==> forall|k: int|
            0 <= k < table.len() ==> !(#[trigger] table[k]).range.contains(ip),
        bogon_description(table, ip) matches Some(d) ==> exists|k: int|
            0 <= k < table.len() && (#[trigger] table[k]).range.contains(ip)
                && table[k].description == d && forall|j: int|
                0 <= j < k ==> !(#[trigger] table[j]).range.contains(ip),
    decreases table.len(),
{
    if table.len() > 0 {
        let rest = table.drop_first();
        lemma_bogon_description(rest, ip);
        if table[0].range.contains(ip) {
            assert(forall|j: int| 0 <= j < 0 ==> !(#[trigger] table[j]).range.contains(ip));
        } else {
            assert forall|k: int| 0 <= k < rest.len() implies #[trigger] rest[k] == table[k + 1] by {}
            if bogon_description(rest, ip) is None {
                assert forall|k: int| 0 <= k < table.len() implies !(
                #[trigger] table[k]).range.contains(ip) by {
                    if k > 0 {
                        assert(table[k] == rest[k - 1]);
                    }
                }
            } else {
                let d = bogon_description(rest, ip).unwrap();
                let k = choose|k: int|
                    0 <= k < rest.len() && (#[trigger] rest[k]).range.contains(ip)
                        && rest[k].description == d && forall|j: int|
                        0 <= j < k ==> !(#[trigger] rest[j]).range.contains(ip);
                assert(table[k + 1] == rest[k]);
                assert forall|j: int| 0 <= j < k + 1 implies !(
                #[trigger] table[j]).range.contains(ip) by {
                    if j > 0 {
                        assert(table[j] == rest[j - 1]);
                    }
                }
                assert(table[k + 1].range.contains(ip));
            }
        }
    }
}

/// Every range of every reserved block holds at least one address and has
/// bounds of one IP version.
pub proof fn lemma_bogon_ranges_well_formed()
    ensures
        forall|k: int, i: int|
            0 <= k < bogon_table().len() && 0 <= i < bogon_table()[k].range.ranges.len()
                ==> (#[trigger] bogon_table()[k].range.ranges[i]).well_formed(),
{
    let t = bogon_table();
    assert forall|k: int, i: int|
        0 <= k < t.len() && 0 <= i < t[k].range.ranges.len() implies (
    #[trigger] t[k].range.ranges[i]).well_formed() by {
        assert(0 <= k < 21);
    }
}

/// An IPv4 address written in dotted decimal is looked up by its value.
pub proof fn lemma_is_bogon_ipv4(a: u32)
    ensures
        spec_is_bogon(format_ipv4(a)) == bogon_description(bogon_table(), IpAddr::V4(a)),
{
    lemma_ipv4_text(format_ipv4(a), a);
}

/// An IPv6 address written in full is looked up by its value.
pub proof fn lemma_is_bogon_ipv6(x: u128)
    ensures
        spec_is_bogon(format_ipv6(x)) == bogon_description(bogon_table(), IpAddr::V6(x)),
{
    lemma_ipv6_text(x);
}

/// The lookup goes by the address alone: two texts of one address get the
/// same answer.
pub proof fn lemma_is_bogon_same_address(s1: Seq<u8>, s2: Seq<u8>)
    requires
        parse_ip_text(s1) == parse_ip_text(s2),
    ensures
        spec_is_bogon(s1) == spec_is_bogon(s2),
{
}

/// Every IPv4 address `0.x.y.z` is reported as the "this" network.
pub proof fn lemma_this_network(a: u32)
    requires
        a < 0x100_0000,
    ensures
        spec_is_bogon(format_ipv4(a)) == Some("\"this\" network"@),
{
    lemma_is_bogon_ipv4(a);
    let t = bogon_table();
    assert(t[0].range.ranges[0].covers(IpAddr::V4(a)));
    assert(t[0].range.contains(IpAddr::V4(a)));
}

/// Every IPv4 address written in its IPv4-mapped IPv6 form `::ffff:a.b.c.d`
/// is reported as IPv4-mapped.
pub proof fn lemma_ipv4_mapped(a: u32)
    ensures
        spec_is_bogon(format_ipv4_mapped(a)) == Some("IPv4-mapped"@),
{
    lemma_ipv4_mapped_text(a);
    let x = (0xffff_0000_0000 + a) as u128;
    let ip = IpAddr::V6(x);
    let t = bogon_table();
    assert(t[13].range.ranges[0].covers(ip));
    assert(t[13].range.contains(ip));
    assert forall|j: int| 0 <= j < 13 implies !(#[trigger] t[j]).range.contains(ip) by {
        assert(t[j].range.ips.len() <= 1);
        if j == 11 || j == 12 {
            assert(t[j].range.ranges.len() == 0);
            assert(t[j].range.ips[0] != ip);
            assert(!t[j].range.ips.contains(ip));
        } else {
            assert(t[j].range.ips.len() == 0);
            assert forall|i: int| 0 <= i < t[j].range.ranges.len() implies !(
            #[trigger] t[j].range.ranges[i]).covers(ip) by {
                assert(t[j].range.ranges[i].end is V4);
            }
        }
    }
    lemma_bogon_description(t, ip);
    let d = bogon_description(t, ip).unwrap();
    let k = choose|k: int|
        0 <= k < t.len() && (#[trigger] t[k]).range.contains(ip) && t[k].description == d
            && forall|j: int| 0 <= j < k ==> !(#[trigger] t[j]).range.contains(ip);
    assert(k == 13);
}

/// The first block of a table that holds an address names it.
pub proof fn lemma_first_block(table: Seq<BogonView>, k: int, ip: IpAddr)
    requires
        0 <= k < table.len(),
        table[k].range.contains(ip),
        forall|j: int| 0 <= j < k ==> !(#[trigger] table[j]).range.contains(ip),
    ensures
        bogon_description(table, ip) == Some(table[k].description),
{
    lemma_bogon_description(table, ip);
    let d = bogon_description(table, ip).unwrap();
    let c = choose|c: int|
        0 <= c < table.len() && (#[trigger] table[c]).range.contains(ip)
            && table[c].description == d && forall|j: int|
            0 <= j < c ==> !(#[trigger] table[j]).range.contains(ip);
    assert(c == k) by {
        if c < k {
            assert(!table[c].range.contains(ip));
        } else if c > k {
            assert(!table[k].range.contains(ip));
        }
    }
}

/// Every address `10.x.y.z`, `172.16.0.0` to `172.31.255.255` and `192.168.x.y`, written in dotted
/// decimal, is reported with the description `private-use networks`.
pub proof fn lemma_ipv4_private_use(a: u32)
    requires
        (0x0a00_0000 <= a <= 0x0aff_ffff) || (0xac10_0000 <= a <= 0xac1f_ffff) || (0xc0a8_0000 <= a <= 0xc0a8_ffff),
    ensures
        spec_is_bogon(format_ipv4(a)) == Some("private-use networks"@),
{
    lemma_is_bogon_ipv4(a);
    let t = bogon_table();
    let ip = IpAddr::V4(a);
    if 0x0a00_0000 <= a <= 0x0aff_ffff {
        assert(t[1].range.ranges[0].covers(ip));
    }
    if 0xac10_0000 <= a <= 0xac1f_ffff {
        assert(t[1].range.ranges[1].covers(ip));
    }
    if 0xc0a8_0000 <= a <= 0xc0a8_ffff {
        assert(t[1].range.ranges[2].covers(ip));
    }
    assert(t[1].range.contains(ip));
    assert forall|j: int| 0 <= j < 1 implies !(#[trigger] t[j]).range.contains(ip) by {
        assert forall|i: int| 0 <= i < t[j].range.ranges.len() implies !(
        #[trigger] t[j].range.ranges[i]).covers(ip) by {}
        assert forall|i: int| 0 <= i < t[j].range.ips.len() implies #[trigger] t[j].range.ips[i]
            != ip by {}
    }
    lemma_first_block(t, 1, ip);
}

/// Every address from `100.64.0.0` to `100.127.255.255`, written in dotted decimal, is reported
/// with the description `carrier-grade NAT`.
pub proof fn lemma_ipv4_carrier_grade(a: u32)
    requires
        0x6440_0000 <= a <= 0x647f_ffff,
    ensures
        spec_is_bogon(format_ipv4(a)) == Some("carrier-grade NAT"@),
{
    lemma_is_bogon_ipv4(a);
    let t = bogon_table();
    let ip = IpAddr::V4(a);
    assert(t[2].range.ranges[0].covers(ip));
    assert(t[2].range.contains(ip));
    assert forall|j: int| 0 <= j < 2 implies !(#[trigger] t[j]).range.contains(ip) by {
        assert forall|i: int| 0 <= i < t[j].range.ranges.len() implies !(
        #[trigger] t[j].range.ranges[i]).covers(ip) by {}
        assert forall|i: int| 0 <= i < t[j].range.ips.len() implies #[trigger] t[j].range.ips[i]
            != ip by {}
    }
    lemma_first_block(t, 2, ip);
}

/// Every address `127.x.y.z`, written in dotted decimal, is reported with the description
/// `loopback`.
pub proof fn lemma_ipv4_loopback(a: u32)
    requires
        0x7f00_0000 <= a <= 0x7fff_ffff,
    ensures
        spec_is_bogon(format_ipv4(a)) == Some("loopback"@),
{
    lemma_is_bogon_ipv4(a);
    let t = bogon_table();
    let ip = IpAddr::V4(a);
    assert(t[3].range.ranges[0].covers(ip));
    assert(t[3].range.contains(ip));
    assert forall|j: int| 0 <= j < 3 implies !(#[trigger] t[j]).range.contains(ip) by {
        assert forall|i: int| 0 <= i < t[j].range.ranges.len() implies !(
        #[trigger] t[j].range.ranges[i]).covers(ip) by {}
        assert forall|i: int| 0 <= i < t[j].range.ips.len() implies #[trigger] t[j].range.ips[i]
            != ip by {}
    }
    lemma_first_block(t, 3, ip);
}

/// Every address `169.254.x.y`, written in dotted decimal, is reported with the description `link
/// local`.
pub proof fn lemma_ipv4_link_local(a: u32)
    requires
        0xa9fe_0000 <= a <= 0xa9fe_ffff,
    ensures
        spec_is_bogon(format_ipv4(a)) == Some("link local"@),
{
    lemma_is_bogon_ipv4(a);
    let t = bogon_table();
    let ip = IpAddr::V4(a);
    assert(t[4].range.ranges[0].covers(ip));
    assert(t[4].range.contains(ip));
    assert forall|j: int| 0 <= j < 4 implies !(#[trigger] t[j]).range.contains(ip) by {
        assert forall|i: int| 0 <= i < t[j].range.ranges.len() implies !(
        #[trigger] t[j].range.ranges[i]).covers(ip) by {}
        assert forall|i: int| 0 <= i < t[j].range.ips.len() implies #[trigger] t[j].range.ips[i]
            != ip by {}
    }
    lemma_first_block(t, 4, ip);
}

/// Every address `192.0.0.x`, written in dotted decimal, is reported with the description `IETF
/// protocol assignments`.
pub proof fn lemma_ipv4_ietf_protocol(a: u32)
    requires
        0xc000_0000 <= a <= 0xc000_00ff,
    ensures
        spec_is_bogon(format_ipv4(a)) == Some("IETF protocol assignments"@),
{
    lemma_is_bogon_ipv4(a);
    let t = bogon_table();
    let ip = IpAddr::V4(a);
    assert(t[5].range.ranges[0].covers(ip));
    assert(t[5].range.contains(ip));
    assert forall|j: int| 0 <= j < 5 implies !(#[trigger] t[j]).range.contains(ip) by {
        assert forall|i: int| 0 <= i < t[j].range.ranges.len() implies !(
        #[trigger] t[j].range.ranges[i]).covers(ip) by {}
        assert forall|i: int| 0 <= i < t[j].range.ips.len() implies #[trigger] t[j].range.ips[i]
            != ip by {}
    }
    lemma_first_block(t, 5, ip);
}

/// Every address `192.0.2.x`, written in dotted decimal, is reported with the description `TEST-
/// NET-1`.
pub proof fn lemma_ipv4_test_net_1(a: u32)
    requires
        0xc000_0200 <= a <= 0xc000_02ff,
    ensures
        spec_is_bogon(format_ipv4(a)) == Some("TEST-NET-1"@),
{
    lemma_is_bogon_ipv4(a);
    let t = bogon_table();
    let ip = IpAddr::V4(a);
    assert(t[6].range.ranges[0].covers(ip));
    assert(t[6].range.contains(ip));
    assert forall|j: int| 0 <= j < 6 implies !(#[trigger] t[j]).range.contains(ip) by {
        assert forall|i: int| 0 <= i < t[j].range.ranges.len() implies !(
        #[trigger] t[j].range.ranges[i]).covers(ip) by {}
        assert forall|i: int| 0 <= i < t[j].range.ips.len() implies #[trigger] t[j].range.ips[i]
            != ip by {}
    }
    lemma_first_block(t, 6, ip);
}

/// Every address from `198.18.0.0` to `198.19.255.255`, written in dotted decimal, is reported with
/// the description `network interconnect device benchmark testing`.
pub proof fn lemma_ipv4_network_interconnect(a: u32)
    requires
        0xc612_0000 <= a <= 0xc613_ffff,
    ensures
        spec_is_bogon(format_ipv4(a)) == Some("network interconnect device benchmark testing"@),
{
    lemma_is_bogon_ipv4(a);
    let t = bogon_table();
    let ip = IpAddr::V4(a);
    assert(t[7].range.ranges[0].covers(ip));
    assert(t[7].range.contains(ip));
    assert forall|j: int| 0 <= j < 7 implies !(#[trigger] t[j]).range.contains(ip) by {
        assert forall|i: int| 0 <= i < t[j].range.ranges.len() implies !(
        #[trigger] t[j].range.ranges[i]).covers(ip) by {}
        assert forall|i: int| 0 <= i < t[j].range.ips.len() implies #[trigger] t[j].range.ips[i]
            != ip by {}
    }
    lemma_first_block(t, 7, ip);
}

/// Every address `198.51.100.x`, written in dotted decimal, is reported with the description `TEST-
/// NET-2`.
pub proof fn lemma_ipv4_test_net_2(a: u32)
    requires
        0xc633_6400 <= a <= 0xc633_64ff,
    ensures
        spec_is_bogon(format_ipv4(a)) == Some("TEST-NET-2"@),
{
    lemma_is_bogon_ipv4(a);
    let t = bogon_table();
    let ip = IpAddr::V4(a);
    assert(t[8].range.ranges[0].covers(ip));
    assert(t[8].range.contains(ip));
    assert forall|j: int| 0 <= j < 8 implies !(#[trigger] t[j]).range.contains(ip) by {
        assert forall|i: int| 0 <= i < t[j].range.ranges.len() implies !(
        #[trigger] t[j].range.ranges[i]).covers(ip) by {}
        assert forall|i: int| 0 <= i < t[j].range.ips.len() implies #[trigger] t[j].range.ips[i]
            != ip by {}
    }
    lemma_first_block(t, 8, ip);
}

/// Every address `203.0.113.x`, written in dotted decimal, is reported with the description `TEST-
/// NET-3`.
pub proof fn lemma_ipv4_test_net_3(a: u32)
    requires
        0xcb00_7100 <= a <= 0xcb00_71ff,
    ensures
        spec_is_bogon(format_ipv4(a)) == Some("TEST-NET-3"@),
{
    lemma_is_bogon_ipv4(a);
    let t = bogon_table();
    let ip = IpAddr::V4(a);
    assert(t[9].range.ranges[0].covers(ip));
    assert(t[9].range.contains(ip));
    assert forall|j: int| 0 <= j < 9 implies !(#[trigger] t[j]).range.contains(ip) by {
        assert forall|i: int| 0 <= i < t[j].range.ranges.len() implies !(
        #[trigger] t[j].range.ranges[i]).covers(ip) by {}
        assert forall|i: int| 0 <= i < t[j].range.ips.len() implies #[trigger] t[j].range.ips[i]
            != ip by {}
    }
    lemma_first_block(t, 9, ip);
}

/// Every address from `240.0.0.0` on, written in dotted decimal, is reported with the description
/// `reserved for future use`.
pub proof fn lemma_ipv4_future_use(a: u32)
    requires
        a >= 0xf000_0000,
    ensures
        spec_is_bogon(format_ipv4(a)) == Some("reserved for future use"@),
{
    lemma_is_bogon_ipv4(a);
    let t = bogon_table();
    let ip = IpAddr::V4(a);
    assert(t[10].range.ranges[0].covers(ip));
    assert(t[10].range.contains(ip));
    assert forall|j: int| 0 <= j < 10 implies !(#[trigger] t[j]).range.contains(ip) by {
        assert forall|i: int| 0 <= i < t[j].range.ranges.len() implies !(
        #[trigger] t[j].range.ranges[i]).covers(ip) by {}
        assert forall|i: int| 0 <= i < t[j].range.ips.len() implies #[trigger] t[j].range.ips[i]
            != ip by {}
    }
    lemma_first_block(t, 10, ip);
}

/// The address `::`, written in full, is reported with the description `node-scope unicast
/// unspecified`.
pub proof fn lemma_ipv6_node_scope_unspecified(x: u128)
    requires
        x == 0x0000_0000_0000_0000_0000_0000_0000_0000,
    ensures
        spec_is_bogon(format_ipv6(x)) == Some("node-scope unicast unspecified"@),
{
    lemma_is_bogon_ipv6(x);
    let t = bogon_table();
    let ip = IpAddr::V6(x);
    assert(t[11].range.ips[0] == ip);
    assert(t[11].range.ips.contains(ip));
    assert(t[11].range.contains(ip));
    assert forall|j: int| 0 <= j < 11 implies !(#[trigger] t[j]).range.contains(ip) by {
        assert forall|i: int| 0 <= i < t[j].range.ranges.len() implies !(
        #[trigger] t[j].range.ranges[i]).covers(ip) by {}
        assert forall|i: int| 0 <= i < t[j].range.ips.len() implies #[trigger] t[j].range.ips[i]
            != ip by {}
    }
    lemma_first_block(t, 11, ip);
}

/// The address `::1`, written in full, is reported with the description `node-scope unicast
/// loopback`.
pub proof fn lemma_ipv6_node_scope_loopback(x: u128)
    requires
        x == 0x0000_0000_0000_0000_0000_0000_0000_0001,
    ensures
        spec_is_bogon(format_ipv6(x)) == Some("node-scope unicast loopback"@),
{
    lemma_is_bogon_ipv6(x);
    let t = bogon_table();
    let ip = IpAddr::V6(x);
    assert(t[12].range.ips[0] == ip);
    assert(t[12].range.ips.contains(ip));
    assert(t[12].range.contains(ip));
    assert forall|j: int| 0 <= j < 12 implies !(#[trigger] t[j]).range.contains(ip) by {
        assert forall|i: int| 0 <= i < t[j].range.ranges.len() implies !(
        #[trigger] t[j].range.ranges[i]).covers(ip) by {}
        assert forall|i: int| 0 <= i < t[j].range.ips.len() implies #[trigger] t[j].range.ips[i]
            != ip by {}
    }
    lemma_first_block(t, 12, ip);
}

/// Every address from `::ffff:0.0.0.0` to `::ffff:255.255.255.255`, written in full, is reported
/// with the description `IPv4-mapped`.
pub proof fn lemma_ipv6_ipv4_mapped(x: u128)
    requires
        0x0000_0000_0000_0000_0000_ffff_0000_0000 <= x <= 0x0000_0000_0000_0000_0000_ffff_ffff_ffff,
    ensures
        spec_is_bogon(format_ipv6(x)) == Some("IPv4-mapped"@),
{
    lemma_is_bogon_ipv6(x);
    let t = bogon_table();
    let ip = IpAddr::V6(x);
    assert(t[13].range.ranges[0].covers(ip));
    assert(t[13].range.contains(ip));
    assert forall|j: int| 0 <= j < 13 implies !(#[trigger] t[j]).range.contains(ip) by {
        assert forall|i: int| 0 <= i < t[j].range.ranges.len() implies !(
        #[trigger] t[j].range.ranges[i]).covers(ip) by {}
        assert forall|i: int| 0 <= i < t[j].range.ips.len() implies #[trigger] t[j].range.ips[i]
            != ip by {}
    }
    lemma_first_block(t, 13, ip);
}

/// Every address from `::2` to `::255.255.255.255`, written in full, is reported with the
/// description `IPv4-compatible`.
pub proof fn lemma_ipv6_ipv4_compatible(x: u128)
    requires
        0x0000_0000_0000_0000_0000_0000_0000_0002 <= x <= 0x0000_0000_0000_0000_0000_0000_ffff_ffff,
    ensures
        spec_is_bogon(format_ipv6(x)) == Some("IPv4-compatible"@),
{
    lemma_is_bogon_ipv6(x);
    let t = bogon_table();
    let ip = IpAddr::V6(x);
    assert(t[14].range.ranges[0].covers(ip));
    assert(t[14].range.contains(ip));
    assert forall|j: int| 0 <= j < 14 implies !(#[trigger] t[j]).range.contains(ip) by {
        assert forall|i: int| 0 <= i < t[j].range.ranges.len() implies !(
        #[trigger] t[j].range.ranges[i]).covers(ip) by {}
        assert forall|i: int| 0 <= i < t[j].range.ips.len() implies #[trigger] t[j].range.ips[i]
            != ip by {}
    }
    lemma_first_block(t, 14, ip);
}

/// Every address from `100::` to `100::ffff:ffff:ffff:ffff`, written in full, is reported with the
/// description `remotely triggered black hole`.
pub proof fn lemma_ipv6_remotely_triggered(x: u128)
    requires
        0x0100_0000_0000_0000_0000_0000_0000_0000 <= x <= 0x0100_0000_0000_0000_ffff_ffff_ffff_ffff,
    ensures
        spec_is_bogon(format_ipv6(x)) == Some("remotely triggered black hole"@),
{
    lemma_is_bogon_ipv6(x);
    let t = bogon_table();
    let ip = IpAddr::V6(x);
    assert(t[15].range.ranges[0].covers(ip));
    assert(t[15].range.contains(ip));
    assert forall|j: int| 0 <= j < 15 implies !(#[trigger] t[j]).range.contains(ip) by {
        assert forall|i: int| 0 <= i < t[j].range.ranges.len() implies !(
        #[trigger] t[j].range.ranges[i]).covers(ip) by {}
        assert forall|i: int| 0 <= i < t[j].range.ips.len() implies #[trigger] t[j].range.ips[i]
            != ip by {}
    }
    lemma_first_block(t, 15, ip);
}

/// Every address from `2001:10::` to `2001:1f:ffff:ffff:ffff:ffff:ffff:ffff`, written in full, is
/// reported with the description `ORCHID`.
pub proof fn lemma_ipv6_orchid(x: u128)
    requires
        0x2001_0010_0000_0000_0000_0000_0000_0000 <= x <= 0x2001_001f_ffff_ffff_ffff_ffff_ffff_ffff,
    ensures
        spec_is_bogon(format_ipv6(x)) == Some("ORCHID"@),
{
    lemma_is_bogon_ipv6(x);
    let t = bogon_table();
    let ip = IpAddr::V6(x);
    assert(t[16].range.ranges[0].covers(ip));
    assert(t[16].range.contains(ip));
    assert forall|j: int| 0 <= j < 16 implies !(#[trigger] t[j]).range.contains(ip) by {
        assert forall|i: int| 0 <= i < t[j].range.ranges.len() implies !(
        #[trigger] t[j].range.ranges[i]).covers(ip) by {}
        assert forall|i: int| 0 <= i < t[j].range.ips.len() implies #[trigger] t[j].range.ips[i]
            != ip by {}
    }
    lemma_first_block(t, 16, ip);
}

/// Every address `2001:db8::/32` and from `3fff::` to `3fff:fff:ffff:ffff:ffff:ffff:ffff:ffff`,
/// written in full, is reported with the description `documentation prefix`.
pub proof fn lemma_ipv6_documentation_prefix(x: u128)
    requires
        (0x2001_0db8_0000_0000_0000_0000_0000_0000 <= x <= 0x2001_0db8_ffff_ffff_ffff_ffff_ffff_ffff) || (0x3fff_0000_0000_0000_0000_0000_0000_0000 <= x <= 0x3fff_0fff_ffff_ffff_ffff_ffff_ffff_ffff),
    ensures
        spec_is_bogon(format_ipv6(x)) == Some("documentation prefix"@),
{
    lemma_is_bogon_ipv6(x);
    let t = bogon_table();
    let ip = IpAddr::V6(x);
    if 0x2001_0db8_0000_0000_0000_0000_0000_0000 <= x <= 0x2001_0db8_ffff_ffff_ffff_ffff_ffff_ffff {
        assert(t[17].range.ranges[0].covers(ip));
    }
    if 0x3fff_0000_0000_0000_0000_0000_0000_0000 <= x <= 0x3fff_0fff_ffff_ffff_ffff_ffff_ffff_ffff {
        assert(t[17].range.ranges[1].covers(ip));
    }
    assert(t[17].range.contains(ip));
    assert forall|j: int| 0 <= j < 17 implies !(#[trigger] t[j]).range.contains(ip) by {
        assert forall|i: int| 0 <= i < t[j].range.ranges.len() implies !(
        #[trigger] t[j].range.ranges[i]).covers(ip) by {}
        assert forall|i: int| 0 <= i < t[j].range.ips.len() implies #[trigger] t[j].range.ips[i]
            != ip by {}
    }
    lemma_first_block(t, 17, ip);
}

/// Every address from `fc00::` to `fdff:ffff:ffff:ffff:ffff:ffff:ffff:ffff`, written in full, is
/// reported with the description `ULA`.
pub proof fn lemma_ipv6_ula(x: u128)
    requires
        0xfc00_0000_0000_0000_0000_0000_0000_0000 <= x <= 0xfdff_ffff_ffff_ffff_ffff_ffff_ffff_ffff,
    ensures
        spec_is_bogon(format_ipv6(x)) == Some("ULA"@),
{
    lemma_is_bogon_ipv6(x);
    let t = bogon_table();
    let ip = IpAddr::V6(x);
    assert(t[18].range.ranges[0].covers(ip));
    assert(t[18].range.contains(ip));
    assert forall|j: int| 0 <= j < 18 implies !(#[trigger] t[j]).range.contains(ip) by {
        assert forall|i: int| 0 <= i < t[j].range.ranges.len() implies !(
        #[trigger] t[j].range.ranges[i]).covers(ip) by {}
        assert forall|i: int| 0 <= i < t[j].range.ips.len() implies #[trigger] t[j].range.ips[i]
            != ip by {}
    }
    lemma_first_block(t, 18, ip);
}

/// Every address from `fe80::` to `febf:ffff:ffff:ffff:ffff:ffff:ffff:ffff`, written in full, is
/// reported with the description `link-local unicast`.
pub proof fn lemma_ipv6_link_local_unicast(x: u128)
    requires
        0xfe80_0000_0000_0000_0000_0000_0000_0000 <= x <= 0xfebf_ffff_ffff_ffff_ffff_ffff_ffff_ffff,
    ensures
        spec_is_bogon(format_ipv6(x)) == Some("link-local unicast"@),
{
    lemma_is_bogon_ipv6(x);
    let t = bogon_table();
    let ip = IpAddr::V6(x);
    assert(t[19].range.ranges[0].covers(ip));
    assert(t[19].range.contains(ip));
    assert forall|j: int| 0 <= j < 19 implies !(#[trigger] t[j]).range.contains(ip) by {
        assert forall|i: int| 0 <= i < t[j].range.ranges.len() implies !(
        #[trigger] t[j].range.ranges[i]).covers(ip) by {}
        assert forall|i: int| 0 <= i < t[j].range.ips.len() implies #[trigger] t[j].range.ips[i]
            != ip by {}
    }
    lemma_first_block(t, 19, ip);
}

/// Every address from `fec0::` to `feff:ffff:ffff:ffff:ffff:ffff:ffff:ffff`, written in full, is
/// reported with the description `site-local unicast`.
pub proof fn lemma_ipv6_site_local_unicast(x: u128)
    requires
        0xfec0_0000_0000_0000_0000_0000_0000_0000 <= x <= 0xfeff_ffff_ffff_ffff_ffff_ffff_ffff_ffff,
    ensures
        spec_is_bogon(format_ipv6(x)) == Some("site-local unicast"@),
{
    lemma_is_bogon_ipv6(x);
    let t = bogon_table();
    let ip = IpAddr::V6(x);
    assert(t[20].range.ranges[0].covers(ip));
    assert(t[20].range.contains(ip));
    assert forall|j: int| 0 <= j < 20 implies !(#[trigger] t[j]).range.contains(ip) by {
        assert forall|i: int| 0 <= i < t[j].range.ranges.len() implies !(
        #[trigger] t[j].range.ranges[i]).covers(ip) by {}
        assert forall|i: int| 0 <= i < t[j].range.ips.len() implies #[trigger] t[j].range.ips[i]
            != ip by {}
    }
    lemma_first_block(t, 20, ip);
}

/// An IPv4 address outside all reserved IPv4 blocks, written in dotted
/// decimal, is not reported.
pub proof fn lemma_ipv4_not_bogon(a: u32)
    requires
        !((a <= 0x00ff_ffff) || ((0x0a00_0000 <= a <= 0x0aff_ffff) || (0xac10_0000 <= a <= 0xac1f_ffff) || (0xc0a8_0000 <= a <= 0xc0a8_ffff)) || (0x6440_0000 <= a <= 0x647f_ffff) || (0x7f00_0000 <= a <= 0x7fff_ffff) || (0xa9fe_0000 <= a <= 0xa9fe_ffff) || (0xc000_0000 <= a <= 0xc000_00ff) || (0xc000_0200 <= a <= 0xc000_02ff) || (0xc612_0000 <= a <= 0xc613_ffff) || (0xc633_6400 <= a <= 0xc633_64ff) || (0xcb00_7100 <= a <= 0xcb00_71ff) || (a >= 0xf000_0000)),
    ensures
        spec_is_bogon(format_ipv4(a)) is None,
{
    lemma_is_bogon_ipv4(a);
    let t = bogon_table();
    let ip = IpAddr::V4(a);
    assert forall|j: int| 0 <= j < 21 implies !(#[trigger] t[j]).range.contains(ip) by {
        assert forall|i: int| 0 <= i < t[j].range.ranges.len() implies !(
        #[trigger] t[j].range.ranges[i]).covers(ip) by {}
        assert forall|i: int| 0 <= i < t[j].range.ips.len() implies #[trigger] t[j].range.ips[i]
            != ip by {}
    }
    lemma_bogon_description(t, ip);
}

/// An IPv6 address outside all reserved IPv6 blocks, written in full, is
/// not reported.
pub proof fn lemma_ipv6_not_bogon(x: u128)
    requires
        !((x == 0x0000_0000_0000_0000_0000_0000_0000_0000) || (x == 0x0000_0000_0000_0000_0000_0000_0000_0001) || (0x0000_0000_0000_0000_0000_ffff_0000_0000 <= x <= 0x0000_0000_0000_0000_0000_ffff_ffff_ffff) || (x <= 0x0000_0000_0000_0000_0000_0000_ffff_ffff) || (0x0100_0000_0000_0000_0000_0000_0000_0000 <= x <= 0x0100_0000_0000_0000_ffff_ffff_ffff_ffff) || (0x2001_0010_0000_0000_0000_0000_0000_0000 <= x <= 0x2001_001f_ffff_ffff_ffff_ffff_ffff_ffff) || ((0x2001_0db8_0000_0000_0000_0000_0000_0000 <= x <= 0x2001_0db8_ffff_ffff_ffff_ffff_ffff_ffff) || (0x3fff_0000_0000_0000_0000_0000_0000_0000 <= x <= 0x3fff_0fff_ffff_ffff_ffff_ffff_ffff_ffff)) || (0xfc00_0000_0000_0000_0000_0000_0000_0000 <= x <= 0xfdff_ffff_ffff_ffff_ffff_ffff_ffff_ffff) || (0xfe80_0000_0000_0000_0000_0000_0000_0000 <= x <= 0xfebf_ffff_ffff_ffff_ffff_ffff_ffff_ffff) || (0xfec0_0000_0000_0000_0000_0000_0000_0000 <= x <= 0xfeff_ffff_ffff_ffff_ffff_ffff_ffff_ffff)),
    ensures
        spec_is_bogon(format_ipv6(x)) is None,
{
    lemma_is_bogon_ipv6(x);
    let t = bogon_table();
    let ip = IpAddr::V6(x);
    assert forall|j: int| 0 <= j < 21 implies !(#[trigger] t[j]).range.contains(ip) by {
        assert forall|i: int| 0 <= i < t[j].range.ranges.len() implies !(
        #[trigger] t[j].range.ranges[i]).covers(ip) by {}
        assert forall|i: int| 0 <= i < t[j].range.ips.len() implies #[trigger] t[j].range.ips[i]
            != ip by {}
    }
    lemma_bogon_description(t, ip);
}

/// The reserved blocks, as `bogon_table` lists them.
pub fn bogons() -> (res: Vec<Bogon>)
    ensures
        res@.map_values(|b: Bogon| b@) == bogon_table(),
{
    let mut table: Vec<Bogon> = Vec::new();
    // 0.0.0.0-0.255.255.255
    table.push(
        Bogon {
            range: AddressCollection {
                ips: Vec::new(),
                ranges: vec![
                    IpRange { start: ipv4(0, 0, 0, 0), end: ipv4(0, 255, 255, 255) },
                ],
            },
            description: "\"this\" network",
        },
    );
    // 10.0.0.0-10.255.255.255, 172.16.0.0-172.31.255.255, 192.168.0.0-192.168.255.255
    table.push(
        Bogon {
            range: AddressCollection {
                ips: Vec::new(),
                ranges: vec![
                    IpRange { start: ipv4(10, 0, 0, 0), end: ipv4(10, 255, 255, 255) },
                    IpRange { start: ipv4(172, 16, 0, 0), end: ipv4(172, 31, 255, 255) },
                    IpRange { start: ipv4(192, 168, 0, 0), end: ipv4(192, 168, 255, 255) },
                ],
            },
            description: "private-use networks",
        },
    );
    // 100.64.0.0-100.127.255.255
    table.push(
        Bogon {
            range: AddressCollection {
                ips: Vec::new(),
                ranges: vec![
                    IpRange { start: ipv4(100, 64, 0, 0), end: ipv4(100, 127, 255, 255) },
                ],
            },
            description: "carrier-grade NAT",
        },
    );
    // 127.0.0.0-127.255.255.255
    table.push(
        Bogon {
            range: AddressCollection {
                ips: Vec::new(),
                ranges: vec![
                    IpRange { start: ipv4(127, 0, 0, 0), end: ipv4(127, 255, 255, 255) },
                ],
            },
            description: "loopback",
        },
    );
    // 169.254.0.0-169.254.255.255
    table.push(
        Bogon {
            range: AddressCollection {
                ips: Vec::new(),
                ranges: vec![
                    IpRange { start: ipv4(169, 254, 0, 0), end: ipv4(169, 254, 255, 255) },
                ],
            },
            description: "link local",
        },
    );
    // 192.0.0.0-192.0.0.255
    table.push(
        Bogon {
            range: AddressCollection {
                ips: Vec::new(),
                ranges: vec![
                    IpRange { start: ipv4(192, 0, 0, 0), end: ipv4(192, 0, 0, 255) },
                ],
            },
            description: "IETF protocol assignments",
        },
    );
    // 192.0.2.0-192.0.2.255
    table.push(
        Bogon {
            range: AddressCollection {
                ips: Vec::new(),
                ranges: vec![
                    IpRange { start: ipv4(192, 0, 2, 0), end: ipv4(192, 0, 2, 255) },
                ],
            },
            description: "TEST-NET-1",
        },
    );
    // 198.18.0.0-198.19.255.255
    table.push(
        Bogon {
            range: AddressCollection {
                ips: Vec::new(),
                ranges: vec![
                    IpRange { start: ipv4(198, 18, 0, 0), end: ipv4(198, 19, 255, 255) },
                ],
            },
            description: "network interconnect device benchmark testing",
        },
    );
    // 198.51.100.0-198.51.100.255
    table.push(
        Bogon {
            range: AddressCollection {
                ips: Vec::new(),
                ranges: vec![
                    IpRange { start: ipv4(198, 51, 100, 0), end: ipv4(198, 51, 100, 255) },
                ],
            },
            description: "TEST-NET-2",
        },
    );
    // 203.0.113.0-203.0.113.255
    table.push(
        Bogon {
            range: AddressCollection {
                ips: Vec::new(),
                ranges: vec![
                    IpRange { start: ipv4(203, 0, 113, 0), end: ipv4(203, 0, 113, 255) },
                ],
            },
            description: "TEST-NET-3",
        },
    );
    // 240.0.0.0-255.255.255.255
    table.push(
        Bogon {
            range: AddressCollection {
                ips: Vec::new(),
                ranges: vec![
                    IpRange { start: ipv4(240, 0, 0, 0), end: ipv4(255, 255, 255, 255) },
                ],
            },
            description: "reserved for future use",
        },
    );
    // ::
    table.push(
        Bogon {
            range: AddressCollection {
                ips: vec![ipv6(0, 0, 0, 0, 0, 0, 0, 0)],
                ranges: Vec::new(),
            },
            description: "node-scope unicast unspecified",
        },
    );
    // ::1
    table.push(
        Bogon {
            range: AddressCollection {
                ips: vec![ipv6(0, 0, 0, 0, 0, 0, 0, 0x1)],
                ranges: Vec::new(),
            },
            description: "node-scope unicast loopback",
        },
    );
    // ::ffff:0.0.0.0-::ffff:255.255.255.255
    table.push(
        Bogon {
            range: AddressCollection {
                ips: Vec::new(),
                ranges: vec![
                    IpRange { start: ipv6(0, 0, 0, 0, 0, 0xffff, 0, 0), end: ipv6(0, 0, 0, 0, 0, 0xffff, 0xffff, 0xffff) },
                ],
            },
            description: "IPv4-mapped",
        },
    );
    // ::-::255.255.255.255
    table.push(
        Bogon {
            range: AddressCollection {
                ips: Vec::new(),
                ranges: vec![
                    IpRange { start: ipv6(0, 0, 0, 0, 0, 0, 0, 0), end: ipv6(0, 0, 0, 0, 0, 0, 0xffff, 0xffff) },
                ],
            },
            description: "IPv4-compatible",
        },
    );
    // 100::-100::ffff:ffff:ffff:ffff
    table.push(
        Bogon {
            range: AddressCollection {
                ips: Vec::new(),
                ranges: vec![
                    IpRange { start: ipv6(0x100, 0, 0, 0, 0, 0, 0, 0), end: ipv6(0x100, 0, 0, 0, 0xffff, 0xffff, 0xffff, 0xffff) },
                ],
            },
            description: "remotely triggered black hole",
        },
    );
    // 2001:10::-2001:1f:ffff:ffff:ffff:ffff:ffff:ffff
    table.push(
        Bogon {
            range: AddressCollection {
                ips: Vec::new(),
                ranges: vec![
                    IpRange { start: ipv6(0x2001, 0x10, 0, 0, 0, 0, 0, 0), end: ipv6(0x2001, 0x1f, 0xffff, 0xffff, 0xffff, 0xffff, 0xffff, 0xffff) },
                ],
            },
            description: "ORCHID",
        },
    );
    // 2001:db8::-2001:db8:ffff:ffff:ffff:ffff:ffff:ffff, 3fff::-3fff:fff:ffff:ffff:ffff:ffff:ffff:ffff
    table.push(
        Bogon {
            range: AddressCollection {
                ips: Vec::new(),
                ranges: vec![
                    IpRange { start: ipv6(0x2001, 0xdb8, 0, 0, 0, 0, 0, 0), end: ipv6(0x2001, 0xdb8, 0xffff, 0xffff, 0xffff, 0xffff, 0xffff, 0xffff) },
                    IpRange { start: ipv6(0x3fff, 0, 0, 0, 0, 0, 0, 0), end: ipv6(0x3fff, 0xfff, 0xffff, 0xffff, 0xffff, 0xffff, 0xffff, 0xffff) },
                ],
            },
            description: "documentation prefix",
        },
    );
    // fc00::-fdff:ffff:ffff:ffff:ffff:ffff:ffff:ffff
    table.push(
        Bogon {
            range: AddressCollection {
                ips: Vec::new(),
                ranges: vec![
                    IpRange { start: ipv6(0xfc00, 0, 0, 0, 0, 0, 0, 0), end: ipv6(0xfdff, 0xffff, 0xffff, 0xffff, 0xffff, 0xffff, 0xffff, 0xffff) },
                ],
            },
            description: "ULA",
        },
    );
    // fe80::-febf:ffff:ffff:ffff:ffff:ffff:ffff:ffff
    table.push(
        Bogon {
            range: AddressCollection {
                ips: Vec::new(),
                ranges: vec![
                    IpRange { start: ipv6(0xfe80, 0, 0, 0, 0, 0, 0, 0), end: ipv6(0xfebf, 0xffff, 0xffff, 0xffff, 0xffff, 0xffff, 0xffff, 0xffff) },
                ],
            },
            description: "link-local unicast",
        },
    );
    // fec0::-feff:ffff:ffff:ffff:ffff:ffff:ffff:ffff
    table.push(
        Bogon {
            range: AddressCollection {
                ips: Vec::new(),
                ranges: vec![
                    IpRange { start: ipv6(0xfec0, 0, 0, 0, 0, 0, 0, 0), end: ipv6(0xfeff, 0xffff, 0xffff, 0xffff, 0xffff, 0xffff, 0xffff, 0xffff) },
                ],
            },
            description: "site-local unicast",
        },
    );
    assert(table@.map_values(|b: Bogon| b@) =~~= bogon_table());
    table
}

/// The description of the reserved block that the address written in
/// `address` belongs to; `None` where `address` is not an IP address or the
/// address lies in no reserved block.
pub fn is_bogon(address: &str) -> (res: Option<&'static str>)
    ensures
        match res {
            Some(d) => spec_is_bogon(address.spec_bytes()) == Some(d@),
            None => spec_is_bogon(address.spec_bytes()) is None,
        },
{
    let ip = match parse_ip_addr(address) {
        Some(ip) => ip,
        None => return None,
    };
    let table = bogons();
    let ghost all = bogon_table();
    let mut i: usize = 0;
    assert(all.skip(0) =~= all);
    while i < table.len()
        invariant
            i <= table@.len(),
            table@.map_values(|b: Bogon| b@) == all,
            all == bogon_table(),
            parse_ip_text(address.spec_bytes()) == Some(ip),
            bogon_description(all.skip(i as int), ip) == bogon_description(all, ip),
        decreases table@.len() - i,
    {
        let ghost rest = all.skip(i as int);
        assert(rest[0] == table@[i as int]@);
        if table[i].range.contains(&ip) {
            assert(rest.len() > 0);
            return Some(table[i].description);
        }
        assert(rest.drop_first() =~= all.skip(i + 1));
        i = i + 1;
    }
    assert(all.skip(i as int) =~= Seq::<BogonView>::empty());
    None
}

} // verus!
