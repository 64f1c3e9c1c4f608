//! Collections of IP addresses given as individual addresses and inclusive
//! ranges, and the test whether an address belongs to one.

use vstd::prelude::*;

use crate::ip_addr::IpAddr;

verus! {

/// The order of IP addresses: every IPv4 address comes before every IPv6
/// address, and addresses of one version are ordered by their numeric value.
pub open spec fn ip_le(a: IpAddr, b: IpAddr) -> bool {
    match (a, b) {
        (IpAddr::V4(x), IpAddr::V4(y)) => x <= y,
        (IpAddr::V6(x), IpAddr::V6(y)) => x <= y,
        (IpAddr::V4(_), IpAddr::V6(_)) => true,
        (IpAddr::V6(_), IpAddr::V4(_)) => false,
    }
}

pub open spec fn same_version(a: IpAddr, b: IpAddr) -> bool {
    (a is V4) == (b is V4)
}

fn ip_le_exec(a: &IpAddr, b: &IpAddr) -> (res: bool)
    ensures
        res == ip_le(*a, *b),
{
    match (a, b) {
        (IpAddr::V4(x), IpAddr::V4(y)) => *x <= *y,
        (IpAddr::V6(x), IpAddr::V6(y)) => *x <= *y,
        (IpAddr::V4(_), IpAddr::V6(_)) => true,
        (IpAddr::V6(_), IpAddr::V4(_)) => false,
    }
}

/// The addresses from `start` to `end`, both included.
#[derive(Clone, Copy, Debug, PartialEq, Eq, Structural)]
pub struct IpRange {
    pub start: IpAddr,
    pub end: IpAddr,
}

impl IpRange {
    /// `ip` lies between the two bounds, both included.
    pub open spec fn covers(self, ip: IpAddr) -> bool {
        ip_le(self.start, ip) && ip_le(ip, self.end)
    }

    /// The range holds at least one address, and its bounds are of one version.
    pub open spec fn well_formed(self) -> bool {
        ip_le(self.start, self.end) && same_version(self.start, self.end)
    }

    pub fn contains(&self, ip: &IpAddr) -> (res: bool)
        ensures
            res == self.covers(*ip),
    {
        ip_le_exec(&self.start, ip) && ip_le_exec(ip, &self.end)
    }
}

/// A set of IP addresses, given as individual addresses and ranges.
pub struct AddressCollection {
    pub ips: Vec<IpAddr>,
    pub ranges: Vec<IpRange>,
}

/// What an `AddressCollection` holds.
#[verifier::ext_equal]
pub struct AddressCollectionView {
    pub ips: Seq<IpAddr>,
    pub ranges: Seq<IpRange>,
}

impl AddressCollectionView {
    /// `ip` is one of the individual addresses or lies in one of the ranges.
    pub open spec fn contains(self, ip: IpAddr) -> bool {
        (exists|i: int| 0 <= i < self.ranges.len() && #[trigger] self.ranges[i].covers(ip))
            || self.ips.contains(ip)
    }
}

impl View for AddressCollection {
    type V = AddressCollectionView;

    open spec fn view(&self) -> AddressCollectionView {
        AddressCollectionView { ips: self.ips@, ranges: self.ranges@ }
    }
}

impl AddressCollection {
    pub fn contains(&self, ip: &IpAddr) -> (res: bool)
        ensures
            res == self@.contains(*ip),
    {
        let mut i: usize = 0;
        while i < self.ranges.len()
            invariant
                i <= self.ranges@.len(),
                forall|k: int| 0 <= k < i ==> !(#[trigger] self.ranges@[k]).covers(*ip),
            decreases self.ranges@.len() - i,
        {
            if self.ranges[i].contains(ip) {
                assert(self@.ranges[i as int].covers(*ip));
                return true;
            }
            i = i + 1;
        }
        let mut j: usize = 0;
        while j < self.ips.len()
            invariant
                j <= self.ips@.len(),
                forall|k: int| 0 <= k < j ==> #[trigger] self.ips@[k] != *ip,
            decreases self.ips@.len() - j,
        {
            if self.ips[j] == *ip {
                assert(self.ips@.contains(*ip)) by {
                    assert(self.ips@[j as int] == *ip);
                }
                return true;
            }
            j = j + 1;
        }
        false
    }
}

/// A range holds exactly the addresses between its bounds in the order of
/// addresses: by numeric value within one version, every IPv4 address
/// before every IPv6 address.
pub proof fn lemma_range_covers(r: IpRange, ip: IpAddr)
    ensures
        (r.start, r.end, ip) matches (IpAddr::V4(s), IpAddr::V4(e), IpAddr::V4(x)) ==> (r.covers(
            ip,
        ) <==> s <= x && x <= e),
        (r.start, r.end, ip) matches (IpAddr::V6(s), IpAddr::V6(e), IpAddr::V6(x)) ==> (r.covers(
            ip,
        ) <==> s <= x && x <= e),
        (r.start, r.end, ip) matches (IpAddr::V4(s), IpAddr::V6(e), IpAddr::V4(x)) ==> (r.covers(
            ip,
        ) <==> s <= x),
        (r.start, r.end, ip) matches (IpAddr::V4(s), IpAddr::V6(e), IpAddr::V6(x)) ==> (r.covers(
            ip,
        ) <==> x <= e),
        (r.end is V4 && ip is V6) ==> !r.covers(ip),
        (r.start is V6 && ip is V4) ==> !r.covers(ip),
{
}

/// A collection holds exactly its listed addresses and the addresses that
/// one of its ranges holds; in particular it holds every listed address.
pub proof fn lemma_collection_contains(c: AddressCollectionView, ip: IpAddr)
    ensures
        c.contains(ip) <==> (exists|i: int| 0 <= i < c.ips.len() && c.ips[i] == ip) || (exists|
            i: int,
        | 0 <= i < c.ranges.len() && #[trigger] c.ranges[i].covers(ip)),
        forall|i: int| 0 <= i < c.ips.len() ==> c.contains(#[trigger] c.ips[i]),
        forall|i: int| 0 <= i < c.ranges.len() && (#[trigger] c.ranges[i]).covers(ip) ==> c.contains(
            ip,
        ),
{
    assert forall|i: int| 0 <= i < c.ips.len() implies c.contains(#[trigger] c.ips[i]) by {
        assert(c.ips.contains(c.ips[i]));
    }
    if exists|i: int| 0 <= i < c.ips.len() && c.ips[i] == ip {
        let i = choose|i: int| 0 <= i < c.ips.len() && c.ips[i] == ip;
        assert(c.ips.contains(ip));
    }
}

} // verus!
