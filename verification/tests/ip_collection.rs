use sniffnet::{AddressCollection, IpAddr, IpRange};

#[test]
fn range_contains_its_bounds_only_within_version() {
    let range = IpRange { start: IpAddr::V4(10), end: IpAddr::V4(20) };
    assert!(range.contains(&IpAddr::V4(10)));
    assert!(range.contains(&IpAddr::V4(20)));
    assert!(!range.contains(&IpAddr::V4(21)));
    assert!(!range.contains(&IpAddr::V4(9)));
    assert!(!range.contains(&IpAddr::V6(15)));
    let v6 = IpRange { start: IpAddr::V6(10), end: IpAddr::V6(20) };
    assert!(!v6.contains(&IpAddr::V4(15)));
    assert!(v6.contains(&IpAddr::V6(15)));
}

#[test]
fn collection_contains_its_addresses_and_ranges() {
    let collection = AddressCollection {
        ips: vec![IpAddr::V6(1)],
        ranges: vec![IpRange { start: IpAddr::V4(100), end: IpAddr::V4(200) }],
    };
    assert!(collection.contains(&IpAddr::V6(1)));
    assert!(collection.contains(&IpAddr::V4(150)));
    assert!(!collection.contains(&IpAddr::V4(1)));
    assert!(!collection.contains(&IpAddr::V6(150)));
    let empty = AddressCollection { ips: Vec::new(), ranges: Vec::new() };
    assert!(!empty.contains(&IpAddr::V4(0)));
}
