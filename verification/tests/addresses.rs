//! Address literal formatting and parsing.

use sync_block::addr::{format_addr, parse_addr, Address};

fn v4(a: u8, b: u8, c: u8, d: u8) -> Address {
    Address::V4(a, b, c, d)
}

fn v6(g: [u16; 8]) -> Address {
    Address::V6(g[0], g[1], g[2], g[3], g[4], g[5], g[6], g[7])
}

#[test]
fn format_v4_dotted_decimal() {
    assert_eq!(format_addr(&v4(192, 168, 0, 1)), b"192.168.0.1".to_vec());
    assert_eq!(format_addr(&v4(0, 0, 0, 0)), b"0.0.0.0".to_vec());
    assert_eq!(format_addr(&v4(255, 255, 255, 255)), b"255.255.255.255".to_vec());
}

#[test]
fn format_v6_uncompressed_hex() {
    assert_eq!(
        format_addr(&v6([0x2001, 0xdb8, 0, 0, 0, 0, 0, 1])),
        b"2001:db8:0:0:0:0:0:1".to_vec()
    );
    assert_eq!(format_addr(&v6([0; 8])), b"0:0:0:0:0:0:0:0".to_vec());
    assert_eq!(
        format_addr(&v6([0xffff, 0xabc, 0xde, 0xf, 1, 0x10, 0x100, 0x1000])),
        b"ffff:abc:de:f:1:10:100:1000".to_vec()
    );
}

#[test]
fn parse_v4_literals() {
    assert_eq!(parse_addr(b"1.2.3.4"), Some(v4(1, 2, 3, 4)));
    assert_eq!(parse_addr(b"0.0.0.0"), Some(v4(0, 0, 0, 0)));
    assert_eq!(parse_addr(b"255.255.255.255"), Some(v4(255, 255, 255, 255)));
    assert_eq!(parse_addr(b"10.11.12.13"), Some(v4(10, 11, 12, 13)));
}

#[test]
fn reject_bad_v4_literals() {
    assert_eq!(parse_addr(b"256.1.1.1"), None);
    assert_eq!(parse_addr(b"01.2.3.4"), None);
    assert_eq!(parse_addr(b"1.2.3"), None);
    assert_eq!(parse_addr(b"1.2.3.4.5"), None);
    assert_eq!(parse_addr(b"1..2.3"), None);
    assert_eq!(parse_addr(b"1.2.3."), None);
    assert_eq!(parse_addr(b"a.b.c.d"), None);
    assert_eq!(parse_addr(b""), None);
}

#[test]
fn parse_v6_full_form() {
    assert_eq!(
        parse_addr(b"2001:db8:0:0:0:0:0:1"),
        Some(v6([0x2001, 0xdb8, 0, 0, 0, 0, 0, 1]))
    );
    assert_eq!(
        parse_addr(b"1:2:3:4:5:6:7:8"),
        Some(v6([1, 2, 3, 4, 5, 6, 7, 8]))
    );
    assert_eq!(
        parse_addr(b"FFFF:0:0:0:0:0:0:abcd"),
        Some(v6([0xffff, 0, 0, 0, 0, 0, 0, 0xabcd]))
    );
    assert_eq!(
        parse_addr(b"00ff:0:0:0:0:0:0:1"),
        Some(v6([0xff, 0, 0, 0, 0, 0, 0, 1]))
    );
}

#[test]
fn parse_v6_compressed_forms() {
    assert_eq!(parse_addr(b"2001:db8::1"), Some(v6([0x2001, 0xdb8, 0, 0, 0, 0, 0, 1])));
    assert_eq!(parse_addr(b"::1"), Some(v6([0, 0, 0, 0, 0, 0, 0, 1])));
    assert_eq!(parse_addr(b"::"), Some(v6([0; 8])));
    assert_eq!(parse_addr(b"1::"), Some(v6([1, 0, 0, 0, 0, 0, 0, 0])));
    assert_eq!(parse_addr(b"fe80::204:acff:fe17:bf38"), Some(v6([0xfe80, 0, 0, 0, 0x204, 0xacff, 0xfe17, 0xbf38])));
    assert_eq!(parse_addr(b"1:2:3:4:5:6:7::"), Some(v6([1, 2, 3, 4, 5, 6, 7, 0])));
    assert_eq!(parse_addr(b"::1:2:3:4:5:6:7"), Some(v6([0, 1, 2, 3, 4, 5, 6, 7])));
}

#[test]
fn parse_v6_with_embedded_dotted_quad() {
    assert_eq!(
        parse_addr(b"::ffff:192.0.2.1"),
        Some(v6([0, 0, 0, 0, 0, 0xffff, 0xc000, 0x0201]))
    );
    assert_eq!(parse_addr(b"::1.2.3.4"), Some(v6([0, 0, 0, 0, 0, 0, 0x0102, 0x0304])));
    assert_eq!(
        parse_addr(b"64:ff9b::1.2.3.4"),
        Some(v6([0x64, 0xff9b, 0, 0, 0, 0, 0x0102, 0x0304]))
    );
    assert_eq!(
        parse_addr(b"1:2:3:4:5:6:7.8.9.10"),
        Some(v6([1, 2, 3, 4, 5, 6, 0x0708, 0x090a]))
    );
    assert_eq!(
        parse_addr(b"1:2:3:4:5::6.7.8.9"),
        Some(v6([1, 2, 3, 4, 5, 0, 0x0607, 0x0809]))
    );
}

#[test]
fn reject_bad_embedded_dotted_quads() {
    assert_eq!(parse_addr(b":1.2.3.4"), None);
    assert_eq!(parse_addr(b"1.2.3.4::"), None);
    assert_eq!(parse_addr(b"::256.0.0.1"), None);
    assert_eq!(parse_addr(b"::1.2.3.4.5"), None);
    assert_eq!(parse_addr(b"1:2:3:4:5:6:7:1.2.3.4"), None);
    assert_eq!(parse_addr(b"1:2:3:4:5:6::1.2.3.4"), None);
    assert_eq!(parse_addr(b":::1.2.3.4"), None);
}

#[test]
fn reject_bad_v6_literals() {
    assert_eq!(parse_addr(b":::"), None);
    assert_eq!(parse_addr(b":::1"), None);
    assert_eq!(parse_addr(b"1:2:3:4:5:6:7"), None);
    assert_eq!(parse_addr(b"1:2:3:4:5:6:7:8:9"), None);
    assert_eq!(parse_addr(b"1:2:3:4:5:6:7:8::"), None);
    assert_eq!(parse_addr(b"::1:2:3:4:5:6:7:8"), None);
    assert_eq!(parse_addr(b"1::2::3"), None);
    assert_eq!(parse_addr(b"12345:0:0:0:0:0:0:0"), None);
    assert_eq!(parse_addr(b"g:0:0:0:0:0:0:0"), None);
    assert_eq!(parse_addr(b":"), None);
}

#[test]
fn round_trip_every_shape() {
    let samples = [
        v4(0, 0, 0, 0),
        v4(127, 0, 0, 1),
        v4(203, 0, 113, 7),
        v4(255, 255, 255, 255),
        v6([0; 8]),
        v6([0x2001, 0xdb8, 0xcafe, 0xbabe, 0, 0x8000, 0xff, 1]),
        v6([0xffff; 8]),
    ];
    for a in samples {
        let text = format_addr(&a);
        assert_eq!(parse_addr(&text), Some(a));
    }
}
