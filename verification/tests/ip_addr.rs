use sniffnet::{parse_ip_addr, IpAddr};

#[test]
fn parses_dotted_decimal() {
    assert_eq!(parse_ip_addr("0.1.2.3"), Some(IpAddr::V4(0x0001_0203)));
    assert_eq!(parse_ip_addr("192.168.0.1"), Some(IpAddr::V4(0xc0a8_0001)));
    assert_eq!(parse_ip_addr("255.255.255.255"), Some(IpAddr::V4(u32::MAX)));
    assert_eq!(parse_ip_addr("0.0.0.0"), Some(IpAddr::V4(0)));
}

#[test]
fn rejects_non_canonical_dotted_decimal() {
    for text in ["01.2.3.4", "1.02.3.4", "1.2.3.004", "256.0.0.0", "1.2.3", "1.2.3.4.", ".1.2.3.4", "1..2.3", "1.2.3.4.5", "1.2.3.-4", "1.2.3.+4", "1000.2.3.4"] {
        assert_eq!(parse_ip_addr(text), None, "{}", text);
    }
}

#[test]
fn parses_ipv6_forms() {
    assert_eq!(parse_ip_addr("::"), Some(IpAddr::V6(0)));
    assert_eq!(parse_ip_addr("::1"), Some(IpAddr::V6(1)));
    assert_eq!(parse_ip_addr("1::"), Some(IpAddr::V6(1u128 << 112)));
    assert_eq!(
        parse_ip_addr("1:2:3:4:5:6:7:8"),
        Some(IpAddr::V6(0x0001_0002_0003_0004_0005_0006_0007_0008))
    );
    assert_eq!(
        parse_ip_addr("ABCD:ef01::2345"),
        Some(IpAddr::V6(0xabcd_ef01_0000_0000_0000_0000_0000_2345))
    );
    assert_eq!(parse_ip_addr("::ffff:1.2.3.4"), Some(IpAddr::V6(0xffff_0102_0304)));
    assert_eq!(parse_ip_addr("::1.2.3.4"), Some(IpAddr::V6(0x0102_0304)));
    assert_eq!(
        parse_ip_addr("1:2:3:4:5:6:1.2.3.4"),
        Some(IpAddr::V6(0x0001_0002_0003_0004_0005_0006_0102_0304))
    );
    assert_eq!(
        parse_ip_addr("1:2:3:4:5:6:7::"),
        Some(IpAddr::V6(0x0001_0002_0003_0004_0005_0006_0007_0000))
    );
    assert_eq!(
        parse_ip_addr("::1:2:3:4:5:6:7"),
        Some(IpAddr::V6(0x0000_0001_0002_0003_0004_0005_0006_0007))
    );
    assert_eq!(parse_ip_addr("0001:02::"), Some(IpAddr::V6(0x0001_0002u128 << 96)));
}

#[test]
fn rejects_malformed_ipv6() {
    for text in [
        ":", ":::", "1::2::3", ":1::2", "1:2:3:4:5:6:7:8:9", "1:2:3:4:5:6:7", "::1:2:3:4:5:6:7:8",
        "1:2:3:4:5:6:7:8::", "1::2:3:4:5:6:7:8", "00001::", "g::", "1:2:3:4:5:1.2.3.4",
        "1.2.3.4::", "1.2.3.4:1::", "::1.2.3.4:5", "::1.2.3", "1:", ":1", "1:2:3:4:5:6:7:8:",
        "::256.0.0.1", "::01.2.3.4",
    ] {
        assert_eq!(parse_ip_addr(text), None, "{}", text);
    }
}

fn dotted(a: u32) -> String {
    format!("{}.{}.{}.{}", a >> 24, (a >> 16) & 0xff, (a >> 8) & 0xff, a & 0xff)
}

fn full_ipv6(x: u128) -> String {
    let groups: Vec<String> = (0..8).rev().map(|i| format!("{:x}", (x >> (16 * i)) & 0xffff)).collect();
    groups.join(":")
}

#[test]
fn every_ipv4_address_reads_back_from_its_text() {
    for a in [0u32, 1, 9, 10, 99, 100, 255, 256, 0x0a00_0001, 0xc0a8_00ff, 0x7f00_0001, u32::MAX] {
        assert_eq!(parse_ip_addr(&dotted(a)), Some(IpAddr::V4(a)), "{}", dotted(a));
    }
}

#[test]
fn every_ipv6_address_reads_back_from_its_full_text() {
    for x in [
        0u128,
        1,
        0xffff,
        0x1_0000,
        0x2001_0db8_0000_0000_0000_0000_0000_0001,
        0xfe80_0000_0000_0000_0202_b3ff_fe1e_8329,
        u128::MAX,
    ] {
        assert_eq!(parse_ip_addr(&full_ipv6(x)), Some(IpAddr::V6(x)), "{}", full_ipv6(x));
    }
}

#[test]
fn ipv4_mapped_text_reads_as_ipv6() {
    for a in [0u32, 0x0808_0808, u32::MAX] {
        let text = format!("::ffff:{}", dotted(a));
        assert_eq!(parse_ip_addr(&text), Some(IpAddr::V6(0xffff_0000_0000 + a as u128)), "{}", text);
    }
}
