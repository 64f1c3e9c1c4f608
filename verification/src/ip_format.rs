//! The canonical texts of IP addresses, and the laws that tie them to the
//! reading of addresses: dotted decimal is read back exactly from the
//! canonical text, every IPv6 address is read back from its full text, and
//! the IPv4-mapped form `::ffff:a.b.c.d` reads as the mapped IPv6 address.

use vstd::prelude::*;

use crate::ip_addr::{
    IpAddr, colon_pieces, double_colon_at, first_double_colon_at, ipv4_from_octets,
    ipv6_from_groups, parse_ip_text, parse_ipv4_text, piece_groups, pieces_groups, zero_groups,
};
use crate::text::{
    COLON, DOT, all_dec_digits, all_hex_digits, decimal_value, digit_value, free_of, group_value,
    hex_value, is_dec_digit, is_hex_digit, join, lemma_free_concat, lemma_join_free,
    lemma_join_ends, lemma_join_no_adjacent_seps, lemma_split_concat, lemma_split_free, lemma_split_join,
    lemma_split_of_join, octet_value, split,
};

verus! {

/// The shortest decimal text of an octet: no leading zeros.
pub open spec fn decimal_text(n: u8) -> Seq<u8> {
    if n < 10 {
        seq![(48 + n) as u8]
    } else if n < 100 {
        seq![(48 + n / 10) as u8, (48 + n % 10) as u8]
    } else {
        seq![(48 + n / 100) as u8, (48 + (n / 10) % 10) as u8, (48 + n % 10) as u8]
    }
}

/// The octets of an IPv4 address, most significant first.
pub open spec fn ipv4_octet0(a: u32) -> u8 {
    (a / 0x100_0000) as u8
}

pub open spec fn ipv4_octet1(a: u32) -> u8 {
    ((a / 0x1_0000) % 0x100) as u8
}

pub open spec fn ipv4_octet2(a: u32) -> u8 {
    ((a / 0x100) % 0x100) as u8
}

pub open spec fn ipv4_octet3(a: u32) -> u8 {
    (a % 0x100) as u8
}

/// The dotted-decimal text of an IPv4 address, as in `192.168.0.1`.
pub open spec fn format_ipv4(a: u32) -> Seq<u8> {
    ((decimal_text(ipv4_octet0(a)).push(DOT) + decimal_text(ipv4_octet1(a))).push(DOT)
        + decimal_text(ipv4_octet2(a))).push(DOT) + decimal_text(ipv4_octet3(a))
}

proof fn lemma_decimal_value_digits(t: Seq<u8>)
    requires
        1 <= t.len() <= 3,
    ensures
        t.len() == 1 ==> decimal_value(t) == digit_value(t[0]),
        t.len() == 2 ==> decimal_value(t) == digit_value(t[0]) * 10 + digit_value(t[1]),
        t.len() == 3 ==> decimal_value(t) == digit_value(t[0]) * 100 + digit_value(t[1]) * 10
            + digit_value(t[2]),
{
    let e = Seq::<u8>::empty();
    let s1 = seq![t[0]];
    assert(s1.drop_last() =~= e);
    assert(decimal_value(e) == 0);
    assert(decimal_value(s1) == digit_value(t[0]));
    if t.len() == 1 {
        assert(t =~= s1);
    } else {
        let s2 = seq![t[0], t[1]];
        assert(s2.drop_last() =~= s1);
        assert(decimal_value(s2) == digit_value(t[0]) * 10 + digit_value(t[1]));
        if t.len() == 2 {
            assert(t =~= s2);
        } else {
            let s3 = seq![t[0], t[1], t[2]];
            assert(s3.drop_last() =~= s2);
            assert(decimal_value(s3) == decimal_value(s2) * 10 + digit_value(t[2]));
            assert(t =~= s3);
        }
    }
}

proof fn lemma_decimal_text(n: u8)
    ensures
        octet_value(decimal_text(n)) == Some(n),
        free_of(decimal_text(n), DOT),
{
    let t = decimal_text(n);
    let m = n as int;
    assert(m == (m / 100) * 100 + ((m / 10) % 10) * 10 + m % 10) by (nonlinear_arith)
        requires
            0 <= m < 256,
    ;
    assert(m < 100 ==> m / 10 == (m / 10) % 10) by (nonlinear_arith)
        requires
            0 <= m < 256,
    ;
    assert(m >= 100 ==> 1 <= m / 100 <= 2) by (nonlinear_arith)
        requires
            0 <= m < 256,
    ;
    assert(m >= 10 ==> 1 <= m / 10) by (nonlinear_arith)
        requires
            0 <= m < 256,
    ;
    lemma_decimal_value_digits(t);
    assert(all_dec_digits(t));
    assert(decimal_value(t) == m);
}

proof fn lemma_octet_text(t: Seq<u8>)
    requires
        octet_value(t) is Some,
    ensures
        t == decimal_text(octet_value(t).unwrap()),
{
    let v = octet_value(t).unwrap();
    lemma_decimal_value_digits(t);
    assert(is_dec_digit(t[0]));
    let d0 = digit_value(t[0]);
    if t.len() == 1 {
        assert(t =~= decimal_text(v));
    } else if t.len() == 2 {
        assert(is_dec_digit(t[1]));
        let d1 = digit_value(t[1]);
        assert(1 <= d0 <= 9);
        assert((d0 * 10 + d1) / 10 == d0 && (d0 * 10 + d1) % 10 == d1) by (nonlinear_arith)
            requires
                0 <= d0 <= 9,
                0 <= d1 <= 9,
        ;
        assert(t =~= decimal_text(v));
    } else {
        assert(is_dec_digit(t[1]));
        assert(is_dec_digit(t[2]));
        let d1 = digit_value(t[1]);
        let d2 = digit_value(t[2]);
        let w = d0 * 100 + d1 * 10 + d2;
        assert(w / 100 == d0 && (w / 10) % 10 == d1 && w % 10 == d2 && w >= 100) by (
        nonlinear_arith)
            requires
                1 <= d0 <= 9,
                0 <= d1 <= 9,
                0 <= d2 <= 9,
                w == d0 * 100 + d1 * 10 + d2,
        ;
        assert(t =~= decimal_text(v));
    }
}

proof fn lemma_ipv4_octets(a: u32)
    ensures
        ipv4_from_octets(ipv4_octet0(a), ipv4_octet1(a), ipv4_octet2(a), ipv4_octet3(a)) == a,
{
    assert(a == (a / 0x100_0000) * 0x100_0000 + ((a / 0x1_0000) % 0x100) * 0x1_0000 + ((a
        / 0x100) % 0x100) * 0x100 + a % 0x100) by (bit_vector);
}

proof fn lemma_octets_ipv4(b0: u8, b1: u8, b2: u8, b3: u8)
    ensures
        ipv4_octet0(ipv4_from_octets(b0, b1, b2, b3)) == b0,
        ipv4_octet1(ipv4_from_octets(b0, b1, b2, b3)) == b1,
        ipv4_octet2(ipv4_from_octets(b0, b1, b2, b3)) == b2,
        ipv4_octet3(ipv4_from_octets(b0, b1, b2, b3)) == b3,
{
    let a: u32 = ipv4_from_octets(b0, b1, b2, b3);
    let x0: u32 = b0 as u32;
    let x1: u32 = b1 as u32;
    let x2: u32 = b2 as u32;
    let x3: u32 = b3 as u32;
    assert(a == x0 * 0x100_0000 + x1 * 0x1_0000 + x2 * 0x100 + x3);
    assert(x0 < 0x100 && x1 < 0x100 && x2 < 0x100 && x3 < 0x100 && a == x0 * 0x100_0000 + x1
        * 0x1_0000 + x2 * 0x100 + x3 ==> a / 0x100_0000 == x0 && (a / 0x1_0000) % 0x100 == x1 && (a
        / 0x100) % 0x100 == x2 && a % 0x100 == x3) by (bit_vector);
}

/// A dotted-decimal text is accepted exactly when it is the canonical text
/// of its address: every address has one text, and no other text (with
/// leading zeros, missing or extra octets, octets above 255) is accepted.
pub proof fn lemma_ipv4_text(s: Seq<u8>, a: u32)
    ensures
        parse_ipv4_text(s) == Some(a) <==> s == format_ipv4(a),
{
    let d0 = decimal_text(ipv4_octet0(a));
    let d1 = decimal_text(ipv4_octet1(a));
    let d2 = decimal_text(ipv4_octet2(a));
    let d3 = decimal_text(ipv4_octet3(a));
    if s == format_ipv4(a) {
        lemma_decimal_text(ipv4_octet0(a));
        lemma_decimal_text(ipv4_octet1(a));
        lemma_decimal_text(ipv4_octet2(a));
        lemma_decimal_text(ipv4_octet3(a));
        lemma_split_free(d0, DOT);
        lemma_split_free(d1, DOT);
        lemma_split_free(d2, DOT);
        lemma_split_free(d3, DOT);
        lemma_split_concat(d0, d1, DOT);
        lemma_split_concat(d0.push(DOT) + d1, d2, DOT);
        lemma_split_concat((d0.push(DOT) + d1).push(DOT) + d2, d3, DOT);
        assert(split(s, DOT) =~= seq![d0, d1, d2, d3]);
        lemma_ipv4_octets(a);
    }
    if parse_ipv4_text(s) == Some(a) {
        let p = split(s, DOT);
        lemma_split_join(s, DOT);
        lemma_octet_text(p[0]);
        lemma_octet_text(p[1]);
        lemma_octet_text(p[2]);
        lemma_octet_text(p[3]);
        let v0 = octet_value(p[0]).unwrap();
        let v1 = octet_value(p[1]).unwrap();
        let v2 = octet_value(p[2]).unwrap();
        let v3 = octet_value(p[3]).unwrap();
        lemma_octets_ipv4(v0, v1, v2, v3);
        let q3 = seq![p[0], p[1], p[2]];
        let q2 = seq![p[0], p[1]];
        let q1 = seq![p[0]];
        assert(p.drop_last() =~= q3);
        assert(q3.drop_last() =~= q2);
        assert(q2.drop_last() =~= q1);
        assert(join(q1, DOT) == p[0]);
        assert(join(q2, DOT) == p[0].push(DOT) + p[1]);
        assert(join(q3, DOT) == (p[0].push(DOT) + p[1]).push(DOT) + p[2]);
        assert(join(p, DOT) == ((p[0].push(DOT) + p[1]).push(DOT) + p[2]).push(DOT) + p[3]);
    }
}

/// The IPv4-mapped IPv6 text `::ffff:a.b.c.d` of an IPv4 address.
pub open spec fn format_ipv4_mapped(a: u32) -> Seq<u8> {
    seq![COLON, COLON, 102u8, 102, 102, 102, COLON] + format_ipv4(a)
}

proof fn lemma_format_ipv4_bytes(a: u32)
    ensures
        free_of(format_ipv4(a), COLON),
        format_ipv4(a).len() >= 7,
        format_ipv4(a)[0] != COLON,
{
    let d0 = decimal_text(ipv4_octet0(a));
    let d1 = decimal_text(ipv4_octet1(a));
    let d2 = decimal_text(ipv4_octet2(a));
    let d3 = decimal_text(ipv4_octet3(a));
    let dot = seq![DOT];
    assert(free_of(d0, COLON));
    assert(free_of(d1, COLON));
    assert(free_of(d2, COLON));
    assert(free_of(d3, COLON));
    assert(free_of(dot, COLON));
    assert(d0.push(DOT) =~= d0 + dot);
    lemma_free_concat(d0, dot, COLON);
    lemma_free_concat(d0.push(DOT), d1, COLON);
    let x1 = d0.push(DOT) + d1;
    assert(x1.push(DOT) =~= x1 + dot);
    lemma_free_concat(x1, dot, COLON);
    lemma_free_concat(x1.push(DOT), d2, COLON);
    let x2 = x1.push(DOT) + d2;
    assert(x2.push(DOT) =~= x2 + dot);
    lemma_free_concat(x2, dot, COLON);
    lemma_free_concat(x2.push(DOT), d3, COLON);
    assert(format_ipv4(a) == x2.push(DOT) + d3);
    assert(format_ipv4(a)[0] == d0[0]);
}

/// An IPv4 address written in its IPv4-mapped IPv6 form `::ffff:a.b.c.d` is
/// read as the IPv6 address `::ffff:0:0` plus the IPv4 address.
pub proof fn lemma_ipv4_mapped_text(a: u32)
    ensures
        parse_ip_text(format_ipv4_mapped(a)) == Some(IpAddr::V6((0xffff_0000_0000 + a) as u128)),
{
    let f = format_ipv4(a);
    let s = format_ipv4_mapped(a);
    let ffff = seq![102u8, 102, 102, 102];
    lemma_format_ipv4_bytes(a);
    // not dotted decimal: it starts with a colon
    if parse_ipv4_text(s) is Some {
        let b = parse_ipv4_text(s).unwrap();
        lemma_ipv4_text(s, b);
        lemma_format_ipv4_bytes(b);
        assert(false);
    }
    // the first `::` is at the start
    assert(first_double_colon_at(s, 0));
    let k = choose|k: int| first_double_colon_at(s, k);
    assert(k == 0) by {
        if k > 0 {
            assert(double_colon_at(s, 0));
        }
    }
    assert(s.take(0) =~= Seq::<u8>::empty());
    assert(colon_pieces(s.take(0)) =~= Seq::<Seq<u8>>::empty());
    let t = s.skip(2);
    assert(t =~= ffff.push(COLON) + f);
    lemma_split_concat(ffff, f, COLON);
    lemma_split_free(ffff, COLON);
    lemma_split_free(f, COLON);
    assert(colon_pieces(t) =~= seq![ffff, f]);
    // the pieces: one group, then the embedded IPv4 address
    let e = Seq::<u8>::empty();
    assert(seq![102u8].drop_last() =~= e);
    assert(seq![102u8, 102].drop_last() =~= seq![102u8]);
    assert(seq![102u8, 102, 102].drop_last() =~= seq![102u8, 102]);
    assert(ffff.drop_last() =~= seq![102u8, 102, 102]);
    assert(hex_value(e) == 0);
    assert(seq![102u8].last() == 102u8);
    assert(digit_value(102u8) == 15);
    assert(hex_value(seq![102u8]) == 15);
    assert(hex_value(seq![102u8, 102]) == 255);
    assert(hex_value(seq![102u8, 102, 102]) == 4095);
    assert(hex_value(ffff) == 65535);
    assert(group_value(ffff) == Some(0xffffu16));
    assert(seq![ffff].drop_last() =~= Seq::<Seq<u8>>::empty());
    assert(pieces_groups(seq![ffff], false) =~= Some(seq![0xffffu16]));
    lemma_ipv4_text(f, a);
    assert(group_value(f) is None);
    let hi = (a / 0x1_0000) as u16;
    let lo = (a % 0x1_0000) as u16;
    assert(piece_groups(f, true) == Some(seq![hi, lo]));
    assert(seq![ffff, f].drop_last() =~= seq![ffff]);
    assert(pieces_groups(seq![ffff, f], true) == Some(seq![0xffffu16] + seq![hi, lo]));
    let g = Seq::<u16>::empty() + zero_groups(5) + (seq![0xffffu16] + seq![hi, lo]);
    assert(g =~= seq![0u16, 0, 0, 0, 0, 0xffff, hi, lo]);
    assert(a == (a / 0x1_0000) * 0x1_0000 + a % 0x1_0000) by (bit_vector);
    assert(ipv6_from_groups(g) == (0xffff_0000_0000 + a) as u128);
}

/// A lowercase hexadecimal digit.
pub open spec fn hex_char(d: u16) -> u8 {
    if d < 10 {
        (48 + d) as u8
    } else {
        (87 + d) as u8
    }
}

/// The shortest lowercase hexadecimal text of a group: no leading zeros.
pub open spec fn hex_text(g: u16) -> Seq<u8> {
    if g < 0x10 {
        seq![hex_char(g)]
    } else if g < 0x100 {
        seq![hex_char(g / 0x10), hex_char(g % 0x10)]
    } else if g < 0x1000 {
        seq![hex_char(g / 0x100), hex_char((g / 0x10) % 0x10), hex_char(g % 0x10)]
    } else {
        seq![
            hex_char(g / 0x1000),
            hex_char((g / 0x100) % 0x10),
            hex_char((g / 0x10) % 0x10),
            hex_char(g % 0x10),
        ]
    }
}

/// The eight 16-bit groups of an IPv6 address, most significant first.
pub open spec fn ipv6_groups(x: u128) -> Seq<u16> {
    let q1 = x / 0x1_0000;
    let q2 = q1 / 0x1_0000;
    let q3 = q2 / 0x1_0000;
    let q4 = q3 / 0x1_0000;
    let q5 = q4 / 0x1_0000;
    let q6 = q5 / 0x1_0000;
    let q7 = q6 / 0x1_0000;
    seq![
        (q7 % 0x1_0000) as u16,
        (q6 % 0x1_0000) as u16,
        (q5 % 0x1_0000) as u16,
        (q4 % 0x1_0000) as u16,
        (q3 % 0x1_0000) as u16,
        (q2 % 0x1_0000) as u16,
        (q1 % 0x1_0000) as u16,
        (x % 0x1_0000) as u16,
    ]
}

/// The full text of an IPv6 address: its eight groups in lowercase
/// hexadecimal without leading zeros, separated by colons.
pub open spec fn format_ipv6(x: u128) -> Seq<u8> {
    join(ipv6_groups(x).map_values(|g: u16| hex_text(g)), COLON)
}

proof fn lemma_hex_value_digits(t: Seq<u8>)
    requires
        1 <= t.len() <= 4,
    ensures
        t.len() == 1 ==> hex_value(t) == digit_value(t[0]),
        t.len() == 2 ==> hex_value(t) == digit_value(t[0]) * 0x10 + digit_value(t[1]),
        t.len() == 3 ==> hex_value(t) == digit_value(t[0]) * 0x100 + digit_value(t[1]) * 0x10
            + digit_value(t[2]),
        t.len() == 4 ==> hex_value(t) == digit_value(t[0]) * 0x1000 + digit_value(t[1]) * 0x100
            + digit_value(t[2]) * 0x10 + digit_value(t[3]),
{
    let e = Seq::<u8>::empty();
    let s1 = seq![t[0]];
    assert(s1.drop_last() =~= e);
    assert(hex_value(e) == 0);
    assert(hex_value(s1) == digit_value(t[0]));
    if t.len() == 1 {
        assert(t =~= s1);
    } else {
        let s2 = seq![t[0], t[1]];
        assert(s2.drop_last() =~= s1);
        assert(hex_value(s2) == hex_value(s1) * 0x10 + digit_value(t[1]));
        if t.len() == 2 {
            assert(t =~= s2);
        } else {
            let s3 = seq![t[0], t[1], t[2]];
            assert(s3.drop_last() =~= s2);
            assert(hex_value(s3) == hex_value(s2) * 0x10 + digit_value(t[2]));
            if t.len() == 3 {
                assert(t =~= s3);
            } else {
                let s4 = seq![t[0], t[1], t[2], t[3]];
                assert(s4.drop_last() =~= s3);
                assert(hex_value(s4) == hex_value(s3) * 0x10 + digit_value(t[3]));
                assert(t =~= s4);
            }
        }
    }
}

proof fn lemma_hex_text(g: u16)
    ensures
        group_value(hex_text(g)) == Some(g),
        hex_text(g).len() >= 1,
        free_of(hex_text(g), COLON),
        free_of(hex_text(g), DOT),
{
    let t = hex_text(g);
    let m = g as int;
    assert(m == (m / 0x1000) * 0x1000 + ((m / 0x100) % 0x10) * 0x100 + ((m / 0x10) % 0x10) * 0x10
        + m % 0x10) by (nonlinear_arith)
        requires
            0 <= m < 0x1_0000,
    ;
    assert(m < 0x1000 ==> m / 0x100 == (m / 0x100) % 0x10) by (nonlinear_arith)
        requires
            0 <= m < 0x1_0000,
    ;
    assert(m < 0x100 ==> m / 0x10 == (m / 0x10) % 0x10) by (nonlinear_arith)
        requires
            0 <= m < 0x1_0000,
    ;
    assert(m < 0x10 ==> m / 0x1000 == 0 && m / 0x100 == 0 && m / 0x10 == 0) by (nonlinear_arith)
        requires
            0 <= m < 0x1_0000,
    ;
    assert(m < 0x100 ==> m / 0x1000 == 0 && m / 0x100 == 0) by (nonlinear_arith)
        requires
            0 <= m < 0x1_0000,
    ;
    assert(m < 0x1000 ==> m / 0x1000 == 0) by (nonlinear_arith)
        requires
            0 <= m < 0x1_0000,
    ;
    assert(m / 0x1000 < 0x10) by (nonlinear_arith)
        requires
            0 <= m < 0x1_0000,
    ;
    assert forall|d: u16| d < 16 implies is_hex_digit(#[trigger] hex_char(d)) && digit_value(
        hex_char(d),
    ) == d && hex_char(d) != COLON && hex_char(d) != DOT by {}
    lemma_hex_value_digits(t);
    assert(all_hex_digits(t));
    assert(hex_value(t) == m);
}

proof fn lemma_pieces_groups_plain(ps: Seq<Seq<u8>>, v4_last: bool)
    requires
        forall|i: int| 0 <= i < ps.len() ==> group_value(#[trigger] ps[i]) is Some,
    ensures
        pieces_groups(ps, v4_last) == Some(ps.map_values(|p: Seq<u8>| group_value(p).unwrap())),
    decreases ps.len(),
{
    if ps.len() == 0 {
        assert(ps.map_values(|p: Seq<u8>| group_value(p).unwrap()) =~= Seq::<u16>::empty());
    } else {
        let init = ps.drop_last();
        assert forall|i: int| 0 <= i < init.len() implies group_value(#[trigger] init[i]) is Some by {
            assert(init[i] == ps[i]);
        }
        lemma_pieces_groups_plain(init, false);
        assert(group_value(ps[ps.len() - 1]) is Some);
        assert(ps.map_values(|p: Seq<u8>| group_value(p).unwrap()) =~= init.map_values(
            |p: Seq<u8>| group_value(p).unwrap(),
        ) + seq![group_value(ps.last()).unwrap()]);
    }
}

proof fn lemma_ipv6_groups_value(x: u128)
    ensures
        ipv6_from_groups(ipv6_groups(x)) == x,
{
    let q1 = x / 0x1_0000;
    let q2 = q1 / 0x1_0000;
    let q3 = q2 / 0x1_0000;
    let q4 = q3 / 0x1_0000;
    let q5 = q4 / 0x1_0000;
    let q6 = q5 / 0x1_0000;
    let q7 = q6 / 0x1_0000;
    assert(x == q1 * 0x1_0000 + x % 0x1_0000);
    assert(q1 == q2 * 0x1_0000 + q1 % 0x1_0000);
    assert(q2 == q3 * 0x1_0000 + q2 % 0x1_0000);
    assert(q3 == q4 * 0x1_0000 + q3 % 0x1_0000);
    assert(q4 == q5 * 0x1_0000 + q4 % 0x1_0000);
    assert(q5 == q6 * 0x1_0000 + q5 % 0x1_0000);
    assert(q6 == q7 * 0x1_0000 + q6 % 0x1_0000);
    assert(q7 < 0x1_0000) by (bit_vector)
        requires
            q1 == x / 0x1_0000,
            q2 == q1 / 0x1_0000,
            q3 == q2 / 0x1_0000,
            q4 == q3 / 0x1_0000,
            q5 == q4 / 0x1_0000,
            q6 == q5 / 0x1_0000,
            q7 == q6 / 0x1_0000,
    ;
}

/// Every IPv6 address is read back from its full text.
pub proof fn lemma_ipv6_text(x: u128)
    ensures
        parse_ip_text(format_ipv6(x)) == Some(IpAddr::V6(x)),
{
    let g = ipv6_groups(x);
    let ps = g.map_values(|v: u16| hex_text(v));
    let s = format_ipv6(x);
    assert forall|i: int| 0 <= i < ps.len() implies free_of(#[trigger] ps[i], COLON) && ps[i].len()
        >= 1 && free_of(ps[i], DOT) && group_value(ps[i]) == Some(g[i]) by {
        lemma_hex_text(g[i]);
    }
    // no dots: not dotted decimal
    lemma_join_free(ps, COLON, DOT);
    lemma_split_free(s, DOT);
    // no `::`
    lemma_join_no_adjacent_seps(ps, COLON);
    assert(!exists|k: int| first_double_colon_at(s, k));
    // the pieces are the eight groups
    lemma_split_of_join(ps, COLON);
    lemma_pieces_groups_plain(ps, true);
    assert(ps.map_values(|p: Seq<u8>| group_value(p).unwrap()) =~= g);
    lemma_ipv6_groups_value(x);
}

/// Pieces that can stand between the colons of an IPv6 text: non-empty and
/// free of colons.
pub open spec fn colon_free_pieces(ps: Seq<Seq<u8>>) -> bool {
    forall|i: int| 0 <= i < ps.len() ==> free_of(#[trigger] ps[i], COLON) && ps[i].len() >= 1
}

/// The hexadecimal texts of a list of groups.
pub open spec fn hex_pieces(g: Seq<u16>) -> Seq<Seq<u8>> {
    g.map_values(|v: u16| hex_text(v))
}

proof fn lemma_colon_pieces_of_join(ps: Seq<Seq<u8>>)
    requires
        colon_free_pieces(ps),
    ensures
        colon_pieces(join(ps, COLON)) == ps,
{
    lemma_join_ends(ps, COLON);
    if ps.len() == 0 {
        assert(ps =~= Seq::<Seq<u8>>::empty());
    } else {
        lemma_split_of_join(ps, COLON);
    }
}

proof fn lemma_not_dotted_with_colon(s: Seq<u8>, i: int)
    requires
        0 <= i < s.len(),
        s[i] == COLON,
    ensures
        parse_ipv4_text(s) is None,
{
    if parse_ipv4_text(s) is Some {
        let b = parse_ipv4_text(s).unwrap();
        lemma_ipv4_text(s, b);
        lemma_format_ipv4_bytes(b);
        assert(format_ipv4(b)[i] != COLON);
    }
}

proof fn lemma_hex_pieces(g: Seq<u16>)
    ensures
        colon_free_pieces(hex_pieces(g)),
        pieces_groups(hex_pieces(g), false) == Some(g),
        pieces_groups(hex_pieces(g), true) == Some(g),
{
    let ps = hex_pieces(g);
    assert forall|i: int| 0 <= i < ps.len() implies free_of(#[trigger] ps[i], COLON) && ps[i].len()
        >= 1 && group_value(ps[i]) == Some(g[i]) by {
        lemma_hex_text(g[i]);
    }
    lemma_pieces_groups_plain(ps, false);
    lemma_pieces_groups_plain(ps, true);
    assert(ps.map_values(|p: Seq<u8>| group_value(p).unwrap()) =~= g);
}

/// What a text with `::` reads as, given the pieces on either side.
proof fn lemma_compressed_text(hp: Seq<Seq<u8>>, tp: Seq<Seq<u8>>)
    requires
        colon_free_pieces(hp),
        colon_free_pieces(tp),
    ensures
        parse_ip_text(join(hp, COLON) + seq![COLON, COLON] + join(tp, COLON)) == match (
            pieces_groups(hp, false),
            pieces_groups(tp, true),
        ) {
            (Some(h), Some(t)) => if h.len() + t.len() <= 7 {
                Some(IpAddr::V6(ipv6_from_groups(h + zero_groups(8 - h.len() - t.len()) + t)))
            } else {
                None
            },
            _ => None,
        },
{
    let hj = join(hp, COLON);
    let tj = join(tp, COLON);
    let s = hj + seq![COLON, COLON] + tj;
    let k = hj.len() as int;
    lemma_join_ends(hp, COLON);
    lemma_join_ends(tp, COLON);
    lemma_join_no_adjacent_seps(hp, COLON);
    assert(s[k] == COLON);
    lemma_not_dotted_with_colon(s, k);
    assert(double_colon_at(s, k));
    assert forall|j: int| 0 <= j < k implies !double_colon_at(s, j) by {
        assert(s[j] == hj[j]);
        if j + 1 < k {
            assert(s[j + 1] == hj[j + 1]);
            assert(!(hj[j] == COLON && hj[j + 1] == COLON));
        } else {
            assert(hp.len() >= 1);
            assert(free_of(hp[hp.len() - 1], COLON));
        }
    }
    assert(first_double_colon_at(s, k));
    let c = choose|c: int| first_double_colon_at(s, c);
    assert(c == k) by {
        if c < k {
            assert(!double_colon_at(s, c));
        } else if c > k {
            assert(!double_colon_at(s, k));
        }
    }
    assert(s.take(k) =~= hj);
    assert(s.skip(k + 2) =~= tj);
    lemma_colon_pieces_of_join(hp);
    lemma_colon_pieces_of_join(tp);
}

/// The groups of the IPv6 address made of eight given groups are those groups.
proof fn lemma_groups_of_ipv6(g: Seq<u16>)
    requires
        g.len() == 8,
    ensures
        ipv6_groups(ipv6_from_groups(g)) == g,
{
    let x = ipv6_from_groups(g);
    let g0 = g[0] as int;
    let g1 = g[1] as int;
    let g2 = g[2] as int;
    let g3 = g[3] as int;
    let g4 = g[4] as int;
    let g5 = g[5] as int;
    let g6 = g[6] as int;
    let g7 = g[7] as int;
    let r1 = ((((((g0 * 0x1_0000 + g1) * 0x1_0000 + g2) * 0x1_0000 + g3) * 0x1_0000 + g4)
        * 0x1_0000 + g5) * 0x1_0000 + g6);
    assert(x == r1 * 0x1_0000 + g7);
    let q1 = x / 0x1_0000;
    assert(q1 == r1 && x % 0x1_0000 == g7) by (nonlinear_arith)
        requires
            x == r1 * 0x1_0000 + g7,
            0 <= g7 < 0x1_0000,
            r1 >= 0,
            q1 == x / 0x1_0000,
    ;
    let r2 = (((((g0 * 0x1_0000 + g1) * 0x1_0000 + g2) * 0x1_0000 + g3) * 0x1_0000 + g4)
        * 0x1_0000 + g5);
    let q2 = q1 / 0x1_0000;
    assert(q2 == r2 && q1 % 0x1_0000 == g6) by (nonlinear_arith)
        requires
            q1 == r2 * 0x1_0000 + g6,
            0 <= g6 < 0x1_0000,
            r2 >= 0,
            q2 == q1 / 0x1_0000,
    ;
    let r3 = ((((g0 * 0x1_0000 + g1) * 0x1_0000 + g2) * 0x1_0000 + g3) * 0x1_0000 + g4);
    let q3 = q2 / 0x1_0000;
    assert(q3 == r3 && q2 % 0x1_0000 == g5) by (nonlinear_arith)
        requires
            q2 == r3 * 0x1_0000 + g5,
            0 <= g5 < 0x1_0000,
            r3 >= 0,
            q3 == q2 / 0x1_0000,
    ;
    let r4 = (((g0 * 0x1_0000 + g1) * 0x1_0000 + g2) * 0x1_0000 + g3);
    let q4 = q3 / 0x1_0000;
    assert(q4 == r4 && q3 % 0x1_0000 == g4) by (nonlinear_arith)
        requires
            q3 == r4 * 0x1_0000 + g4,
            0 <= g4 < 0x1_0000,
            r4 >= 0,
            q4 == q3 / 0x1_0000,
    ;
    let r5 = ((g0 * 0x1_0000 + g1) * 0x1_0000 + g2);
    let q5 = q4 / 0x1_0000;
    assert(q5 == r5 && q4 % 0x1_0000 == g3) by (nonlinear_arith)
        requires
            q4 == r5 * 0x1_0000 + g3,
            0 <= g3 < 0x1_0000,
            r5 >= 0,
            q5 == q4 / 0x1_0000,
    ;
    let r6 = g0 * 0x1_0000 + g1;
    let q6 = q5 / 0x1_0000;
    assert(q6 == r6 && q5 % 0x1_0000 == g2) by (nonlinear_arith)
        requires
            q5 == r6 * 0x1_0000 + g2,
            0 <= g2 < 0x1_0000,
            r6 >= 0,
            q6 == q5 / 0x1_0000,
    ;
    let q7 = q6 / 0x1_0000;
    assert(q7 == g0 && q6 % 0x1_0000 == g1 && q7 % 0x1_0000 == g0) by (nonlinear_arith)
        requires
            q6 == g0 * 0x1_0000 + g1,
            0 <= g1 < 0x1_0000,
            0 <= g0 < 0x1_0000,
            q7 == q6 / 0x1_0000,
    ;
    assert(ipv6_groups(x) =~= g);
}

/// A text that writes groups in hexadecimal, then `::`, then more groups
/// (either side may be empty, at most seven groups in all) reads as the
/// IPv6 address whose groups are those before `::`, then zeros up to eight
/// groups, then those after `::`.
pub proof fn lemma_ipv6_compressed_text(h: Seq<u16>, t: Seq<u16>)
    requires
        h.len() + t.len() <= 7,
    ensures
        parse_ip_text(
            join(hex_pieces(h), COLON) + seq![COLON, COLON] + join(hex_pieces(t), COLON),
        ) matches Some(IpAddr::V6(x)) && ipv6_groups(x) == h + Seq::new(
            (8 - h.len() - t.len()) as nat,
            |i: int| 0u16,
        ) + t,
{
    lemma_hex_pieces(h);
    lemma_hex_pieces(t);
    lemma_compressed_text(hex_pieces(h), hex_pieces(t));
    let g = h + zero_groups(8 - h.len() - t.len()) + t;
    assert(g =~= h + Seq::new((8 - h.len() - t.len()) as nat, |i: int| 0u16) + t);
    lemma_groups_of_ipv6(g);
}

/// A text that writes groups in hexadecimal, then `::`, then more groups and
/// an IPv4 address in dotted decimal (at most five groups besides the IPv4
/// address) reads as the IPv6 address whose groups are those before `::`,
/// then zeros, then those after `::`, then the two halves of the IPv4 address.
pub proof fn lemma_ipv6_compressed_ipv4_text(h: Seq<u16>, t: Seq<u16>, a: u32)
    requires
        h.len() + t.len() <= 5,
    ensures
        parse_ip_text(
            join(hex_pieces(h), COLON) + seq![COLON, COLON] + join(
                hex_pieces(t).push(format_ipv4(a)),
                COLON,
            ),
        ) matches Some(IpAddr::V6(x)) && ipv6_groups(x) == h + Seq::new(
            (6 - h.len() - t.len()) as nat,
            |i: int| 0u16,
        ) + t + seq![(a / 0x1_0000) as u16, (a % 0x1_0000) as u16],
{
    lemma_hex_pieces(h);
    lemma_hex_pieces(t);
    lemma_format_ipv4_bytes(a);
    lemma_ipv4_text(format_ipv4(a), a);
    let tp = hex_pieces(t).push(format_ipv4(a));
    assert(colon_free_pieces(tp)) by {
        assert forall|i: int| 0 <= i < tp.len() implies free_of(#[trigger] tp[i], COLON)
            && tp[i].len() >= 1 by {
            if i < t.len() {
                assert(tp[i] == hex_pieces(t)[i]);
            }
        }
    }
    assert(tp.drop_last() =~= hex_pieces(t));
    let v4 = seq![(a / 0x1_0000) as u16, (a % 0x1_0000) as u16];
    assert(piece_groups(format_ipv4(a), true) == Some(v4));
    assert(pieces_groups(tp, true) == Some(t + v4));
    lemma_compressed_text(hex_pieces(h), tp);
    let g = h + zero_groups(8 - h.len() - (t + v4).len()) + (t + v4);
    assert(g =~= h + Seq::new((6 - h.len() - t.len()) as nat, |i: int| 0u16) + t + v4);
    lemma_groups_of_ipv6(g);
}

/// A text of six groups in hexadecimal followed by an IPv4 address in dotted
/// decimal, all separated by colons, reads as the IPv6 address whose groups
/// are the six groups, then the two halves of the IPv4 address.
pub proof fn lemma_ipv6_full_ipv4_text(h: Seq<u16>, a: u32)
    requires
        h.len() == 6,
    ensures
        parse_ip_text(join(hex_pieces(h).push(format_ipv4(a)), COLON)) matches Some(
            IpAddr::V6(x),
        ) && ipv6_groups(x) == h + seq![(a / 0x1_0000) as u16, (a % 0x1_0000) as u16],
{
    lemma_hex_pieces(h);
    lemma_format_ipv4_bytes(a);
    lemma_ipv4_text(format_ipv4(a), a);
    let ps = hex_pieces(h).push(format_ipv4(a));
    assert(colon_free_pieces(ps)) by {
        assert forall|i: int| 0 <= i < ps.len() implies free_of(#[trigger] ps[i], COLON)
            && ps[i].len() >= 1 by {
            if i < h.len() {
                assert(ps[i] == hex_pieces(h)[i]);
            }
        }
    }
    let s = join(ps, COLON);
    assert(ps.drop_last() =~= hex_pieces(h));
    lemma_join_ends(hex_pieces(h), COLON);
    let init = join(hex_pieces(h), COLON);
    assert(s == init.push(COLON) + format_ipv4(a));
    assert(s[init.len() as int] == COLON);
    lemma_not_dotted_with_colon(s, init.len() as int);
    lemma_join_no_adjacent_seps(ps, COLON);
    assert(!exists|k: int| first_double_colon_at(s, k));
    lemma_split_of_join(ps, COLON);
    let v4 = seq![(a / 0x1_0000) as u16, (a % 0x1_0000) as u16];
    assert(piece_groups(format_ipv4(a), true) == Some(v4));
    assert(pieces_groups(ps, true) == Some(h + v4));
    lemma_groups_of_ipv6(h + v4);
}

/// An uppercase hexadecimal digit.
pub open spec fn upper_hex_char(d: u16) -> u8 {
    if d < 10 {
        (48 + d) as u8
    } else {
        (55 + d) as u8
    }
}

/// The four-digit uppercase hexadecimal text of a group, with leading zeros.
pub open spec fn padded_upper_hex_text(g: u16) -> Seq<u8> {
    seq![
        upper_hex_char(g / 0x1000),
        upper_hex_char((g / 0x100) % 0x10),
        upper_hex_char((g / 0x10) % 0x10),
        upper_hex_char(g % 0x10),
    ]
}

proof fn lemma_padded_upper_hex_text(g: u16)
    ensures
        group_value(padded_upper_hex_text(g)) == Some(g),
        padded_upper_hex_text(g).len() >= 1,
        free_of(padded_upper_hex_text(g), COLON),
        free_of(padded_upper_hex_text(g), DOT),
{
    let t = padded_upper_hex_text(g);
    let m = g as int;
    assert(m == (m / 0x1000) * 0x1000 + ((m / 0x100) % 0x10) * 0x100 + ((m / 0x10) % 0x10) * 0x10
        + m % 0x10) by (nonlinear_arith)
        requires
            0 <= m < 0x1_0000,
    ;
    assert(m / 0x1000 < 0x10) by (nonlinear_arith)
        requires
            0 <= m < 0x1_0000,
    ;
    assert forall|d: u16| d < 16 implies is_hex_digit(#[trigger] upper_hex_char(d)) && digit_value(
        upper_hex_char(d),
    ) == d && upper_hex_char(d) != COLON && upper_hex_char(d) != DOT by {}
    lemma_hex_value_digits(t);
    assert(all_hex_digits(t));
    assert(hex_value(t) == m);
}

/// Every IPv6 address is read back from its full text written with four
/// uppercase hexadecimal digits per group: leading zeros and uppercase
/// digits are accepted.
pub proof fn lemma_ipv6_padded_upper_text(x: u128)
    ensures
        parse_ip_text(
            join(ipv6_groups(x).map_values(|g: u16| padded_upper_hex_text(g)), COLON),
        ) == Some(IpAddr::V6(x)),
{
    let g = ipv6_groups(x);
    let ps = g.map_values(|v: u16| padded_upper_hex_text(v));
    let s = join(ps, COLON);
    assert forall|i: int| 0 <= i < ps.len() implies free_of(#[trigger] ps[i], COLON) && ps[i].len()
        >= 1 && free_of(ps[i], DOT) && group_value(ps[i]) == Some(g[i]) by {
        lemma_padded_upper_hex_text(g[i]);
    }
    lemma_join_free(ps, COLON, DOT);
    lemma_split_free(s, DOT);
    lemma_join_no_adjacent_seps(ps, COLON);
    assert(!exists|k: int| first_double_colon_at(s, k));
    lemma_split_of_join(ps, COLON);
    lemma_pieces_groups_plain(ps, true);
    assert(ps.map_values(|p: Seq<u8>| group_value(p).unwrap()) =~= g);
    lemma_ipv6_groups_value(x);
}

} // verus!
