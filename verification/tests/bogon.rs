use sniffnet::{bogons, is_bogon, IpAddr};

#[test]
fn test_is_bogon_no() {
    assert_eq!(is_bogon("8.8.8.8"), None);
}

#[test]
fn test_is_bogon_this_network() {
    assert_eq!(is_bogon("0.1.2.3"), Some("\"this\" network"));
}

#[test]
fn ipv4_blocks_are_named() {
    let cases = [
        ("0.0.0.0", "\"this\" network"),
        ("0.255.255.255", "\"this\" network"),
        ("10.0.0.0", "private-use networks"),
        ("10.255.255.255", "private-use networks"),
        ("172.16.0.1", "private-use networks"),
        ("172.31.255.255", "private-use networks"),
        ("192.168.1.1", "private-use networks"),
        ("100.64.0.0", "carrier-grade NAT"),
        ("100.127.255.255", "carrier-grade NAT"),
        ("127.0.0.1", "loopback"),
        ("169.254.10.20", "link local"),
        ("192.0.0.8", "IETF protocol assignments"),
        ("192.0.2.1", "TEST-NET-1"),
        ("198.18.0.1", "network interconnect device benchmark testing"),
        ("198.19.255.255", "network interconnect device benchmark testing"),
        ("198.51.100.7", "TEST-NET-2"),
        ("203.0.113.9", "TEST-NET-3"),
        ("240.0.0.1", "reserved for future use"),
        ("255.255.255.255", "reserved for future use"),
    ];
    for (address, description) in cases {
        assert_eq!(is_bogon(address), Some(description), "{}", address);
    }
}

#[test]
fn ipv6_blocks_are_named() {
    let cases = [
        ("::", "node-scope unicast unspecified"),
        ("::1", "node-scope unicast loopback"),
        ("::2", "IPv4-compatible"),
        ("::255.255.255.255", "IPv4-compatible"),
        ("::ffff:1.2.3.4", "IPv4-mapped"),
        ("::ffff:8.8.8.8", "IPv4-mapped"),
        ("::ffff:ffff:ffff", "IPv4-mapped"),
        ("100::", "remotely triggered black hole"),
        ("100::ffff:ffff:ffff:ffff", "remotely triggered black hole"),
        ("2001:10::1", "ORCHID"),
        ("2001:1f:ffff:ffff:ffff:ffff:ffff:ffff", "ORCHID"),
        ("2001:db8::1", "documentation prefix"),
        ("3fff::1", "documentation prefix"),
        ("3FFF:0FFF:FFFF:FFFF:FFFF:FFFF:FFFF:FFFF", "documentation prefix"),
        ("fc00::1", "ULA"),
        ("fdff:ffff:ffff:ffff:ffff:ffff:ffff:ffff", "ULA"),
        ("fe80::1", "link-local unicast"),
        ("febf::", "link-local unicast"),
        ("fec0::1", "site-local unicast"),
        ("feff:ffff:ffff:ffff:ffff:ffff:ffff:ffff", "site-local unicast"),
    ];
    for (address, description) in cases {
        assert_eq!(is_bogon(address), Some(description), "{}", address);
    }
}

#[test]
fn public_addresses_are_not_bogons() {
    let cases = [
        "1.1.1.1",
        "9.255.255.255",
        "11.0.0.0",
        "100.63.255.255",
        "100.128.0.0",
        "126.255.255.255",
        "172.15.255.255",
        "172.32.0.0",
        "192.0.1.0",
        "198.17.255.255",
        "198.20.0.0",
        "239.255.255.255",
        "2001:4860:4860::8888",
        "2606:4700:4700::1111",
        "::1:0:0:0",
        "::fffe:ffff:ffff",
        "::1:0:0",
        "101::",
        "2001:20::",
        "2001:db9::",
        "4000::",
        "fbff:ffff:ffff:ffff:ffff:ffff:ffff:ffff",
        "ff00::1",
    ];
    for address in cases {
        assert_eq!(is_bogon(address), None, "{}", address);
    }
}

#[test]
fn texts_that_are_no_address_are_not_bogons() {
    let cases = [
        "", "localhost", "0.1.2", "0.1.2.3.4", "00.1.2.3", "010.0.0.1", "10.0.0.256", " 10.0.0.1",
        "10.0.0.1 ", "10.0.0.1/8", "::1::", ":::1", "[::1]", "fe80::1%eth0", "::ffff:1.2.3",
        "1.2.3.4::", "0.0.0.0:80",
    ];
    for address in cases {
        assert_eq!(is_bogon(address), None, "{:?}", address);
    }
}

#[test]
fn first_listed_block_wins() {
    // "::" and "::1" also lie in the IPv4-compatible block, listed after them.
    assert_eq!(is_bogon("::"), Some("node-scope unicast unspecified"));
    assert_eq!(is_bogon("::1"), Some("node-scope unicast loopback"));
    assert_eq!(is_bogon("::0.0.0.1"), Some("node-scope unicast loopback"));
}

#[test]
fn answer_goes_by_the_address_not_its_text() {
    let texts = ["::1", "0:0:0:0:0:0:0:1", "0::1", "0000:0000::0001", "::0.0.0.1"];
    for text in texts {
        assert_eq!(is_bogon(text), Some("node-scope unicast loopback"), "{}", text);
    }
    assert_eq!(is_bogon("FE80::1"), is_bogon("fe80:0:0:0:0:0:0:1"));
}

#[test]
fn every_this_network_address_is_named() {
    for a in [0u32, 1, 0x00_ff_00_ff, 0x00_12_34_56, 0x00_ff_ff_fe] {
        let text = format!("{}.{}.{}.{}", a >> 24, (a >> 16) & 0xff, (a >> 8) & 0xff, a & 0xff);
        assert_eq!(is_bogon(&text), Some("\"this\" network"), "{}", text);
    }
}

#[test]
fn bogon_table_is_in_order_and_well_formed() {
    let table = bogons();
    assert_eq!(table.len(), 21);
    assert_eq!(table[0].description, "\"this\" network");
    assert_eq!(table[10].description, "reserved for future use");
    assert_eq!(table[11].description, "node-scope unicast unspecified");
    assert_eq!(table[20].description, "site-local unicast");
    for bogon in &table {
        for range in &bogon.range.ranges {
            match (range.start, range.end) {
                (IpAddr::V4(a), IpAddr::V4(b)) => assert!(a <= b),
                (IpAddr::V6(a), IpAddr::V6(b)) => assert!(a <= b),
                _ => panic!("range of mixed versions in {}", bogon.description),
            }
        }
    }
    assert_eq!(table[11].range.ips, vec![IpAddr::V6(0)]);
    assert_eq!(table[12].range.ips, vec![IpAddr::V6(1)]);
    assert_eq!(table[1].range.ranges.len(), 3);
    assert_eq!(table[17].range.ranges.len(), 2);
}

#[test]
fn every_ipv4_mapped_address_is_named() {
    for a in [0u32, 0x0808_0808, 0x0101_0101, 0xc0a8_0001, u32::MAX] {
        let text = format!("::ffff:{}.{}.{}.{}", a >> 24, (a >> 16) & 0xff, (a >> 8) & 0xff, a & 0xff);
        assert_eq!(is_bogon(&text), Some("IPv4-mapped"), "{}", text);
    }
}
