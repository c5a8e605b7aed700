//! The atomic unit of blocking: an IP address, v4 or v6, held as plain
//! integers, together with its textual form — formatting for the cache file
//! and the routing command, parsing for routing-table output and cache
//! lines. A v4 literal is four decimal octets joined by dots; a v6 literal
//! is up to eight hexadecimal groups joined by colons, with a single `::`
//! standing for a run of zero groups.

use vstd::prelude::*;
use vstd::arithmetic::div_mod::{
    lemma_div_denominator,
    lemma_fundamental_div_mod,
};
use crate::text::{spec_join, spec_split, split_bytes, join_bytes, lemma_split_no_sep, lemma_split_join};

verus! {

/// An IP address: the four octets of a v4 address, or the eight 16-bit
/// groups of a v6 address. Equality is structural, field by field.
#[derive(Clone, Copy, PartialEq, Eq, Structural, Debug, Hash)]
pub enum Address {
    V4(u8, u8, u8, u8),
    V6(u16, u16, u16, u16, u16, u16, u16, u16),
}

pub const DOT: u8 = 46;

pub const COLON: u8 = 58;

pub open spec fn is_dec_digit(c: u8) -> bool {
    48 <= c <= 57
}

pub open spec fn is_hex_digit(c: u8) -> bool {
    is_dec_digit(c) || (97 <= c <= 102) || (65 <= c <= 70)
}

pub open spec fn dec_val(c: u8) -> int {
    c - 48
}

pub open spec fn hex_val(c: u8) -> int {
    if is_dec_digit(c) {
        c - 48
    } else if 97 <= c <= 102 {
        c - 87
    } else {
        c - 55
    }
}

pub open spec fn dec_digit(v: int) -> u8 {
    (v + 48) as u8
}

pub open spec fn hex_digit(v: int) -> u8 {
    if v < 10 {
        (v + 48) as u8
    } else {
        (v + 87) as u8
    }
}

/// The decimal digits of an octet, without leading zeros.
pub open spec fn spec_dec_u8(n: u8) -> Seq<u8> {
    if n < 10 {
        seq![dec_digit(n as int)]
    } else if n < 100 {
        seq![dec_digit(n as int / 10), dec_digit(n as int % 10)]
    } else {
        seq![
            dec_digit(n as int / 100),
            dec_digit((n as int / 10) % 10),
            dec_digit(n as int % 10),
        ]
    }
}

/// The lowercase hexadecimal digits of a group, without leading zeros.
pub open spec fn spec_hex_u16(n: u16) -> Seq<u8> {
    if n < 0x10 {
        seq![hex_digit(n as int)]
    } else if n < 0x100 {
        seq![hex_digit(n as int / 16), hex_digit(n as int % 16)]
    } else if n < 0x1000 {
        seq![
            hex_digit(n as int / 256),
            hex_digit((n as int / 16) % 16),
            hex_digit(n as int % 16),
        ]
    } else {
        seq![
            hex_digit(n as int / 4096),
            hex_digit((n as int / 256) % 16),
            hex_digit((n as int / 16) % 16),
            hex_digit(n as int % 16),
        ]
    }
}

/// The eight groups of a v6 address, most significant first.
pub open spec fn v6_groups(a: Address) -> Seq<u16>
    recommends
        a is V6,
{
    match a {
        Address::V6(g0, g1, g2, g3, g4, g5, g6, g7) => seq![g0, g1, g2, g3, g4, g5, g6, g7],
        Address::V4(..) => Seq::empty(),
    }
}

/// The four octets of a v4 address, most significant first.
pub open spec fn v4_octets(a: Address) -> Seq<u8>
    recommends
        a is V4,
{
    match a {
        Address::V4(x, y, z, w) => seq![x, y, z, w],
        Address::V6(..) => Seq::empty(),
    }
}

/// The canonical textual form this library writes: dotted decimal for v4,
/// colon-joined lowercase hex groups, uncompressed, for v6.
pub open spec fn spec_addr_bytes(a: Address) -> Seq<u8> {
    match a {
        Address::V4(..) => spec_join(v4_octets(a).map_values(|o: u8| spec_dec_u8(o)), DOT),
        Address::V6(..) => spec_join(v6_groups(a).map_values(|g: u16| spec_hex_u16(g)), COLON),
    }
}

fn dec_u8_bytes(n: u8) -> (r: Vec<u8>)
    ensures
        r@ == spec_dec_u8(n),
{
    let mut r: Vec<u8> = Vec::new();
    if n < 10 {
        r.push(n + 48);
        proof {
            assert(r@ =~= spec_dec_u8(n));
        }
    } else if n < 100 {
        r.push(n / 10 + 48);
        r.push(n % 10 + 48);
        proof {
            assert(r@ =~= spec_dec_u8(n));
        }
    } else {
        r.push(n / 100 + 48);
        r.push((n / 10) % 10 + 48);
        r.push(n % 10 + 48);
        proof {
            assert(r@ =~= spec_dec_u8(n));
        }
    }
    r
}

fn hex_digit_of(v: u16) -> (r: u8)
    requires
        v < 16,
    ensures
        r == hex_digit(v as int),
{
    if v < 10 {
        (v as u8) + 48
    } else {
        (v as u8) + 87
    }
}

fn hex_u16_bytes(n: u16) -> (r: Vec<u8>)
    ensures
        r@ == spec_hex_u16(n),
{
    let mut r: Vec<u8> = Vec::new();
    if n < 0x10 {
        r.push(hex_digit_of(n));
        proof {
            assert(r@ =~= spec_hex_u16(n));
        }
    } else if n < 0x100 {
        r.push(hex_digit_of(n / 16));
        r.push(hex_digit_of(n % 16));
        proof {
            assert(r@ =~= spec_hex_u16(n));
        }
    } else if n < 0x1000 {
        r.push(hex_digit_of(n / 256));
        r.push(hex_digit_of((n / 16) % 16));
        r.push(hex_digit_of(n % 16));
        proof {
            assert(r@ =~= spec_hex_u16(n));
        }
    } else {
        r.push(hex_digit_of(n / 4096));
        r.push(hex_digit_of((n / 256) % 16));
        r.push(hex_digit_of((n / 16) % 16));
        r.push(hex_digit_of(n % 16));
        proof {
            assert(r@ =~= spec_hex_u16(n));
        }
    }
    r
}

/// The canonical textual form of `a`, as bytes.
pub fn format_addr(a: &Address) -> (r: Vec<u8>)
    ensures
        r@ == spec_addr_bytes(*a),
{
    match a {
        Address::V4(x, y, z, w) => {
            let mut parts: Vec<Vec<u8>> = Vec::new();
            parts.push(dec_u8_bytes(*x));
            parts.push(dec_u8_bytes(*y));
            parts.push(dec_u8_bytes(*z));
            parts.push(dec_u8_bytes(*w));
            proof {
                assert(parts@.map_values(|v: Vec<u8>| v@) =~~= v4_octets(*a).map_values(
                    |o: u8| spec_dec_u8(o),
                ));
            }
            join_bytes(&parts, DOT)
        },
        Address::V6(g0, g1, g2, g3, g4, g5, g6, g7) => {
            let mut parts: Vec<Vec<u8>> = Vec::new();
            parts.push(hex_u16_bytes(*g0));
            parts.push(hex_u16_bytes(*g1));
            parts.push(hex_u16_bytes(*g2));
            parts.push(hex_u16_bytes(*g3));
            parts.push(hex_u16_bytes(*g4));
            parts.push(hex_u16_bytes(*g5));
            parts.push(hex_u16_bytes(*g6));
            parts.push(hex_u16_bytes(*g7));
            proof {
                assert(parts@.map_values(|v: Vec<u8>| v@) =~~= v6_groups(*a).map_values(
                    |g: u16| spec_hex_u16(g),
                ));
            }
            join_bytes(&parts, COLON)
        },
    }
}

/// The value of a decimal octet: one to three digits, no leading zero,
/// at most 255.
pub open spec fn spec_parse_octet(s: Seq<u8>) -> Option<u8> {
    if s.len() == 1 && is_dec_digit(s[0]) {
        Some((s[0] - 48) as u8)
    } else if s.len() == 2 && is_dec_digit(s[0]) && is_dec_digit(s[1]) && s[0] != 48 {
        Some((dec_val(s[0]) * 10 + dec_val(s[1])) as u8)
    } else if s.len() == 3 && is_dec_digit(s[0]) && is_dec_digit(s[1]) && is_dec_digit(s[2])
        && s[0] != 48 && dec_val(s[0]) * 100 + dec_val(s[1]) * 10 + dec_val(s[2]) <= 255 {
        Some((dec_val(s[0]) * 100 + dec_val(s[1]) * 10 + dec_val(s[2])) as u8)
    } else {
        None
    }
}

/// The value of a hexadecimal group: one to four hex digits.
pub open spec fn spec_parse_group(s: Seq<u8>) -> Option<u16> {
    if s.len() == 1 && is_hex_digit(s[0]) {
        Some(hex_val(s[0]) as u16)
    } else if s.len() == 2 && is_hex_digit(s[0]) && is_hex_digit(s[1]) {
        Some((hex_val(s[0]) * 16 + hex_val(s[1])) as u16)
    } else if s.len() == 3 && is_hex_digit(s[0]) && is_hex_digit(s[1]) && is_hex_digit(s[2]) {
        Some((hex_val(s[0]) * 256 + hex_val(s[1]) * 16 + hex_val(s[2])) as u16)
    } else if s.len() == 4 && is_hex_digit(s[0]) && is_hex_digit(s[1]) && is_hex_digit(s[2])
        && is_hex_digit(s[3]) {
        Some((hex_val(s[0]) * 4096 + hex_val(s[1]) * 256 + hex_val(s[2]) * 16 + hex_val(
            s[3],
        )) as u16)
    } else {
        None
    }
}

fn is_dec(c: u8) -> (r: bool)
    ensures
        r == is_dec_digit(c),
{
    48 <= c && c <= 57
}

fn is_hex(c: u8) -> (r: bool)
    ensures
        r == is_hex_digit(c),
{
    (48 <= c && c <= 57) || (97 <= c && c <= 102) || (65 <= c && c <= 70)
}

fn hex_val_of(c: u8) -> (r: u16)
    requires
        is_hex_digit(c),
    ensures
        r == hex_val(c),
        r < 16,
{
    if 48 <= c && c <= 57 {
        (c - 48) as u16
    } else if 97 <= c && c <= 102 {
        (c - 87) as u16
    } else {
        (c - 55) as u16
    }
}

/// The value of a decimal octet.
pub fn parse_octet(s: &Vec<u8>) -> (r: Option<u8>)
    ensures
        r == spec_parse_octet(s@),
{
    if s.len() == 1 && is_dec(s[0]) {
        Some(s[0] - 48)
    } else if s.len() == 2 && is_dec(s[0]) && is_dec(s[1]) && s[0] != 48 {
        Some((s[0] - 48) * 10 + (s[1] - 48))
    } else if s.len() == 3 && is_dec(s[0]) && is_dec(s[1]) && is_dec(s[2]) && s[0] != 48 {
        let v: u16 = (s[0] - 48) as u16 * 100 + (s[1] - 48) as u16 * 10 + (s[2] - 48) as u16;
        if v <= 255 {
            Some(v as u8)
        } else {
            None
        }
    } else {
        None
    }
}

/// The value of a hexadecimal group.
pub fn parse_group(s: &Vec<u8>) -> (r: Option<u16>)
    ensures
        r == spec_parse_group(s@),
{
    if s.len() == 1 && is_hex(s[0]) {
        Some(hex_val_of(s[0]))
    } else if s.len() == 2 && is_hex(s[0]) && is_hex(s[1]) {
        Some(hex_val_of(s[0]) * 16 + hex_val_of(s[1]))
    } else if s.len() == 3 && is_hex(s[0]) && is_hex(s[1]) && is_hex(s[2]) {
        Some(hex_val_of(s[0]) * 256 + hex_val_of(s[1]) * 16 + hex_val_of(s[2]))
    } else if s.len() == 4 && is_hex(s[0]) && is_hex(s[1]) && is_hex(s[2]) && is_hex(s[3]) {
        Some(hex_val_of(s[0]) * 4096 + hex_val_of(s[1]) * 256 + hex_val_of(s[2]) * 16 + hex_val_of(
            s[3],
        ))
    } else {
        None
    }
}

/// A v4 literal: exactly four octets joined by dots.
pub open spec fn spec_parse_v4(s: Seq<u8>) -> Option<Address> {
    let p = spec_split(s, DOT);
    if p.len() == 4 && spec_parse_octet(p[0]) is Some && spec_parse_octet(p[1]) is Some
        && spec_parse_octet(p[2]) is Some && spec_parse_octet(p[3]) is Some {
        Some(
            Address::V4(
                spec_parse_octet(p[0]).unwrap(),
                spec_parse_octet(p[1]).unwrap(),
                spec_parse_octet(p[2]).unwrap(),
                spec_parse_octet(p[3]).unwrap(),
            ),
        )
    } else {
        None
    }
}

/// A v4 literal's address.
pub fn parse_v4(s: &[u8]) -> (r: Option<Address>)
    ensures
        r == spec_parse_v4(s@),
{
    let parts = split_bytes(s, DOT);
    if parts.len() != 4 {
        return None;
    }
    let a = parse_octet(&parts[0]);
    let b = parse_octet(&parts[1]);
    let c = parse_octet(&parts[2]);
    let d = parse_octet(&parts[3]);
    match (a, b, c, d) {
        (Some(a), Some(b), Some(c), Some(d)) => Some(Address::V4(a, b, c, d)),
        _ => None,
    }
}

proof fn lemma_dec_u8_class(n: u8)
    ensures
        1 <= spec_dec_u8(n).len() <= 3,
        forall|i: int|
            0 <= i < spec_dec_u8(n).len() ==> 48 <= #[trigger] spec_dec_u8(n)[i] <= 57,
{
    if n >= 100 {
        assert(n as int / 100 <= 2);
        assert((n as int / 10) % 10 <= 9);
    } else if n >= 10 {
        assert(n as int / 10 <= 9);
    }
}

proof fn lemma_hex_u16_class(n: u16)
    ensures
        1 <= spec_hex_u16(n).len() <= 4,
        forall|i: int|
            0 <= i < spec_hex_u16(n).len() ==> is_hex_digit(#[trigger] spec_hex_u16(n)[i])
                && 48 <= spec_hex_u16(n)[i] <= 102 && spec_hex_u16(n)[i] != COLON,
{
    assert(n as int / 4096 <= 15);
    assert(n as int / 256 <= 255);
    assert(n as int / 16 <= 4095);
    assert forall|v: int| 0 <= v < 16 implies is_hex_digit(hex_digit(v)) && 48 <= hex_digit(v)
        <= 102 && hex_digit(v) != COLON by {}
}

proof fn lemma_parse_dec_u8(n: u8)
    ensures
        spec_parse_octet(spec_dec_u8(n)) == Some(n),
{
    let s = spec_dec_u8(n);
    if n < 10 {
        assert(s.len() == 1);
    } else if n < 100 {
        lemma_fundamental_div_mod(n as int, 10);
        assert(n as int / 10 >= 1);
        assert(s[0] != 48);
        assert(dec_val(s[0]) * 10 + dec_val(s[1]) == n as int);
    } else {
        lemma_fundamental_div_mod(n as int, 10);
        lemma_fundamental_div_mod(n as int / 10, 10);
        lemma_div_denominator(n as int, 10, 10);
        assert(n as int / 100 >= 1);
        assert(s[0] != 48);
        assert(dec_val(s[0]) * 100 + dec_val(s[1]) * 10 + dec_val(s[2]) == n as int);
    }
}

/// Every piece in `[from, to)` is a valid hexadecimal group.
pub open spec fn all_groups(p: Seq<Seq<u8>>, from: int, to: int) -> bool {
    forall|k: int| from <= k < to ==> (#[trigger] spec_parse_group(p[k])) is Some
}

/// The group values of the pieces in `[from, to)`.
pub open spec fn group_vals(p: Seq<Seq<u8>>, from: int, to: int) -> Seq<u16> {
    Seq::new((to - from) as nat, |k: int| spec_parse_group(p[from + k]).unwrap())
}

/// `m` zero groups.
pub open spec fn zero_groups(m: int) -> Seq<u16> {
    Seq::new(m as nat, |k: int| 0u16)
}

pub open spec fn v6_from(gs: Seq<u16>) -> Address
    recommends
        gs.len() == 8,
{
    Address::V6(gs[0], gs[1], gs[2], gs[3], gs[4], gs[5], gs[6], gs[7])
}

/// An interior `::`: the piece at `e` is empty, every other piece is a
/// valid group.
pub open spec fn mid_case(p: Seq<Seq<u8>>, e: int) -> bool {
    let n = p.len() as int;
    1 <= e <= n - 2 && p[e].len() == 0 && all_groups(p, 0, e) && all_groups(p, e + 1, n)
}

/// The two 16-bit groups a dotted-quad tail supplies: its four octets,
/// paired high-low.
pub open spec fn v4_tail_groups(a: Address) -> Seq<u16>
    recommends
        a is V4,
{
    match a {
        Address::V4(x, y, z, w) => seq![(x * 256 + y) as u16, (z * 256 + w) as u16],
        Address::V6(..) => Seq::empty(),
    }
}

/// A v6 literal whose last colon-separated piece was a dotted quad: the
/// remaining pieces `q` must supply the six leading groups, either in full
/// or with one `::` standing for the missing zero groups.
pub open spec fn spec_parse_v6_embedded(q: Seq<Seq<u8>>, tail: Seq<u16>) -> Option<Address>
    recommends
        tail.len() == 2,
{
    let n = q.len() as int;
    if n == 6 && all_groups(q, 0, 6) {
        Some(v6_from(group_vals(q, 0, 6) + tail))
    } else if n == 2 && q[0].len() == 0 && q[1].len() == 0 {
        Some(v6_from(zero_groups(6) + tail))
    } else if 3 <= n <= 7 && q[0].len() == 0 && q[1].len() == 0 && all_groups(q, 2, n) {
        Some(v6_from(zero_groups(8 - n) + group_vals(q, 2, n) + tail))
    } else if 2 <= n <= 6 && q[n - 1].len() == 0 && all_groups(q, 0, n - 1) {
        Some(v6_from(group_vals(q, 0, n - 1) + zero_groups(7 - n) + tail))
    } else if 3 <= n <= 6 && (exists|e: int| mid_case(q, e)) {
        let e = choose|e: int| mid_case(q, e);
        Some(v6_from(group_vals(q, 0, e) + zero_groups(7 - n) + group_vals(q, e + 1, n) + tail))
    } else {
        None
    }
}

/// A v6 literal: eight colon-joined groups, or fewer with one `::` standing
/// for the missing zero groups — leading, trailing, interior, or alone; a
/// dotted quad may stand in for the last two groups.
pub open spec fn spec_parse_v6(s: Seq<u8>) -> Option<Address> {
    let p = spec_split(s, COLON);
    let n = p.len() as int;
    if n >= 2 && spec_parse_v4(p[n - 1]) is Some {
        spec_parse_v6_embedded(p.take(n - 1), v4_tail_groups(spec_parse_v4(p[n - 1]).unwrap()))
    } else if n == 8 && all_groups(p, 0, 8) {
        Some(v6_from(group_vals(p, 0, 8)))
    } else if n == 3 && p[0].len() == 0 && p[1].len() == 0 && p[2].len() == 0 {
        Some(v6_from(zero_groups(8)))
    } else if 3 <= n <= 9 && p[0].len() == 0 && p[1].len() == 0 && all_groups(p, 2, n) {
        Some(v6_from(zero_groups(8 - (n - 2)) + group_vals(p, 2, n)))
    } else if 3 <= n <= 9 && p[n - 1].len() == 0 && p[n - 2].len() == 0 && all_groups(p, 0, n - 2) {
        Some(v6_from(group_vals(p, 0, n - 2) + zero_groups(8 - (n - 2))))
    } else if 3 <= n <= 8 && (exists|e: int| mid_case(p, e)) {
        let e = choose|e: int| mid_case(p, e);
        Some(v6_from(group_vals(p, 0, e) + zero_groups(8 - (n - 1)) + group_vals(p, e + 1, n)))
    } else {
        None
    }
}

/// Two interior `::` positions cannot both be valid: any other empty piece
/// would have to be a valid, hence nonempty, group.
proof fn lemma_mid_unique(p: Seq<Seq<u8>>, e1: int, e2: int)
    requires
        mid_case(p, e1),
        mid_case(p, e2),
    ensures
        e1 == e2,
{
    if e1 < e2 {
        assert(spec_parse_group(p[e1]) is Some);
        assert(p[e1].len() == 0);
    } else if e2 < e1 {
        assert(spec_parse_group(p[e2]) is Some);
        assert(p[e2].len() == 0);
    }
}

fn parse_groups_range(parts: &Vec<Vec<u8>>, from: usize, to: usize) -> (r: Option<Vec<u16>>)
    requires
        from <= to <= parts@.len(),
    ensures
        r is Some <==> all_groups(parts@.map_values(|v: Vec<u8>| v@), from as int, to as int),
        r is Some ==> r.unwrap()@ == group_vals(
            parts@.map_values(|v: Vec<u8>| v@),
            from as int,
            to as int,
        ),
{
    let ghost p = parts@.map_values(|v: Vec<u8>| v@);
    let mut gs: Vec<u16> = Vec::new();
    let mut k: usize = from;
    while k < to
        invariant
            from <= k <= to <= parts@.len(),
            p == parts@.map_values(|v: Vec<u8>| v@),
            all_groups(p, from as int, k as int),
            gs@ == group_vals(p, from as int, k as int),
        decreases to - k,
    {
        match parse_group(&parts[k]) {
            Some(g) => {
                gs.push(g);
                proof {
                    assert(group_vals(p, from as int, k + 1 as int) =~= group_vals(
                        p,
                        from as int,
                        k as int,
                    ).push(spec_parse_group(p[k as int]).unwrap()));
                }
            },
            None => {
                proof {
                    assert(!(spec_parse_group(p[k as int]) is Some));
                }
                return None;
            },
        }
        k += 1;
    }
    Some(gs)
}

fn zeros_vec(m: usize) -> (r: Vec<u16>)
    ensures
        r@ == zero_groups(m as int),
{
    let mut r: Vec<u16> = Vec::new();
    let mut i: usize = 0;
    while i < m
        invariant
            0 <= i <= m,
            r@ == zero_groups(i as int),
        decreases m - i,
    {
        r.push(0);
        proof {
            assert(zero_groups(i + 1 as int) =~= zero_groups(i as int).push(0u16));
        }
        i += 1;
    }
    r
}

fn v6_of(gs: &Vec<u16>) -> (r: Address)
    requires
        gs@.len() == 8,
    ensures
        r == v6_from(gs@),
{
    Address::V6(gs[0], gs[1], gs[2], gs[3], gs[4], gs[5], gs[6], gs[7])
}

fn v4_tail(a: &Address) -> (r: Vec<u16>)
    requires
        *a is V4,
    ensures
        r@ == v4_tail_groups(*a),
        r@.len() == 2,
{
    match a {
        Address::V4(x, y, z, w) => {
            let mut r: Vec<u16> = Vec::new();
            r.push((*x as u16) * 256 + (*y as u16));
            r.push((*z as u16) * 256 + (*w as u16));
            proof {
                assert(r@ =~= v4_tail_groups(*a));
            }
            r
        },
        Address::V6(..) => Vec::new(),
    }
}

/// The address of a v6 literal whose dotted-quad tail has been taken off:
/// `parts` must supply the six leading groups.
fn parse_v6_embedded(parts: &Vec<Vec<u8>>, tail: &Vec<u16>) -> (r: Option<Address>)
    requires
        tail@.len() == 2,
    ensures
        r == spec_parse_v6_embedded(parts@.map_values(|v: Vec<u8>| v@), tail@),
{
    let ghost q = parts@.map_values(|v: Vec<u8>| v@);
    let n = parts.len();
    if n == 6 {
        if let Some(head) = parse_groups_range(parts, 0, 6) {
            let mut gs = head;
            gs.push(tail[0]);
            gs.push(tail[1]);
            proof {
                assert(gs@ =~= group_vals(q, 0, 6) + tail@);
            }
            return Some(v6_of(&gs));
        }
    }
    if n < 2 {
        return None;
    }
    if parts[0].len() == 0 && parts[1].len() == 0 {
        if n == 2 {
            let mut gs = zeros_vec(6);
            gs.push(tail[0]);
            gs.push(tail[1]);
            proof {
                assert(gs@ =~= zero_groups(6) + tail@);
            }
            return Some(v6_of(&gs));
        }
        if n <= 7 {
            if let Some(head) = parse_groups_range(parts, 2, n) {
                let mut gs = zeros_vec(8 - n);
                let mut head = head;
                gs.append(&mut head);
                gs.push(tail[0]);
                gs.push(tail[1]);
                proof {
                    assert(gs@ =~= zero_groups(8 - n as int) + group_vals(q, 2, n as int)
                        + tail@);
                }
                return Some(v6_of(&gs));
            }
        }
        proof {
            assert forall|e: int| !mid_case(q, e) by {
                if 1 <= e <= q.len() - 2 {
                    if mid_case(q, e) {
                        assert(spec_parse_group(q[0]) is Some);
                    }
                }
            }
        }
        return None;
    }
    if parts[n - 1].len() == 0 {
        if n <= 6 {
            if let Some(head) = parse_groups_range(parts, 0, n - 1) {
                let mut gs = head;
                let mut mid = zeros_vec(7 - n);
                gs.append(&mut mid);
                gs.push(tail[0]);
                gs.push(tail[1]);
                proof {
                    assert(gs@ =~= group_vals(q, 0, n - 1 as int) + zero_groups(7 - n as int)
                        + tail@);
                }
                return Some(v6_of(&gs));
            }
        }
        proof {
            assert forall|e: int| !mid_case(q, e) by {
                if mid_case(q, e) {
                    assert(spec_parse_group(q[q.len() - 1]) is Some);
                    assert(q[q.len() - 1].len() == 0);
                }
            }
        }
        return None;
    }
    // an interior `::`: find the first empty piece
    let mut e: usize = 0;
    while e < n && parts[e].len() > 0
        invariant
            0 <= e <= n == parts@.len(),
            q == parts@.map_values(|v: Vec<u8>| v@),
            forall|j: int| 0 <= j < e ==> q[j].len() > 0,
        decreases n - e,
    {
        e += 1;
    }
    if e == n {
        proof {
            assert forall|e2: int| !mid_case(q, e2) by {
                if 1 <= e2 <= q.len() - 2 {
                    assert(q[e2].len() > 0);
                }
            }
        }
        return None;
    }
    proof {
        assert(q[e as int].len() == 0);
        assert forall|e2: int| mid_case(q, e2) implies e2 == e as int by {
            if e2 > e as int {
                assert(spec_parse_group(q[e as int]) is Some);
            } else if e2 < e as int {
                assert(q[e2].len() > 0);
            }
        }
    }
    if e < 1 || e > n - 2 || n > 6 {
        proof {
            if 3 <= n <= 6 {
                assert forall|e2: int| !mid_case(q, e2) by {
                    if mid_case(q, e2) {
                        assert(e2 == e as int);
                    }
                }
            }
        }
        return None;
    }
    let head = parse_groups_range(parts, 0, e);
    let rest = parse_groups_range(parts, e + 1, n);
    match (head, rest) {
        (Some(head), Some(rest)) => {
            proof {
                assert(mid_case(q, e as int));
            }
            let mut gs = head;
            let mut mid = zeros_vec(7 - n);
            let mut rest = rest;
            gs.append(&mut mid);
            gs.append(&mut rest);
            gs.push(tail[0]);
            gs.push(tail[1]);
            proof {
                let ghost ee = choose|e2: int| mid_case(q, e2);
                assert(ee == e as int);
                assert(gs@ =~= group_vals(q, 0, e as int) + zero_groups(7 - n as int)
                    + group_vals(q, e + 1 as int, n as int) + tail@);
            }
            Some(v6_of(&gs))
        },
        _ => {
            proof {
                assert forall|e2: int| !mid_case(q, e2) by {
                    if mid_case(q, e2) {
                        assert(e2 == e as int);
                        assert(all_groups(q, 0, e as int));
                        assert(all_groups(q, e + 1 as int, q.len() as int));
                    }
                }
            }
            None
        },
    }
}

/// A v6 literal's address.
pub fn parse_v6(s: &[u8]) -> (r: Option<Address>)
    ensures
        r == spec_parse_v6(s@),
{
    let mut parts = split_bytes(s, COLON);
    let ghost p = parts@.map_values(|v: Vec<u8>| v@);
    let n = parts.len();
    if n >= 2 {
        if let Some(v4a) = parse_v4(parts[n - 1].as_slice()) {
            let tail = v4_tail(&v4a);
            let _ = parts.pop();
            proof {
                assert(parts@.map_values(|v: Vec<u8>| v@) =~~= p.take(n - 1));
            }
            return parse_v6_embedded(&parts, &tail);
        }
    }
    if n == 8 {
        if let Some(gs) = parse_groups_range(&parts, 0, 8) {
            return Some(v6_of(&gs));
        }
    }
    if n < 3 {
        return None;
    }
    if parts[0].len() == 0 && parts[1].len() == 0 {
        if n == 3 && parts[2].len() == 0 {
            let gs = zeros_vec(8);
            return Some(v6_of(&gs));
        }
        if n <= 9 {
            if let Some(tail) = parse_groups_range(&parts, 2, n) {
                let mut gs = zeros_vec(8 - (n - 2));
                let mut tail = tail;
                gs.append(&mut tail);
                return Some(v6_of(&gs));
            }
        }
        proof {
            assert forall|e: int| !mid_case(p, e) by {
                if 1 <= e <= p.len() - 2 {
                    assert(p[0].len() == 0);
                    if mid_case(p, e) {
                        assert(spec_parse_group(p[0]) is Some);
                    }
                }
            }
        }
        return None;
    }
    if parts[n - 1].len() == 0 && parts[n - 2].len() == 0 {
        if n <= 9 {
            if let Some(head) = parse_groups_range(&parts, 0, n - 2) {
                let mut gs = head;
                let mut tail = zeros_vec(8 - (n - 2));
                gs.append(&mut tail);
                return Some(v6_of(&gs));
            }
        }
        proof {
            assert forall|e: int| !mid_case(p, e) by {
                if 1 <= e <= p.len() - 2 {
                    if mid_case(p, e) {
                        assert(spec_parse_group(p[p.len() - 1]) is Some);
                        assert(p[p.len() - 1].len() == 0);
                    }
                }
            }
        }
        return None;
    }
    // an interior `::`: find the first empty piece
    let mut e: usize = 0;
    while e < n && parts[e].len() > 0
        invariant
            0 <= e <= n == parts@.len(),
            p == parts@.map_values(|v: Vec<u8>| v@),
            forall|j: int| 0 <= j < e ==> p[j].len() > 0,
        decreases n - e,
    {
        e += 1;
    }
    if e == n {
        proof {
            assert forall|e2: int| !mid_case(p, e2) by {
                if 1 <= e2 <= p.len() - 2 {
                    assert(p[e2].len() > 0);
                }
            }
        }
        return None;
    }
    proof {
        assert(p[e as int].len() == 0);
        assert forall|e2: int| mid_case(p, e2) implies e2 == e as int by {
            if e2 > e as int {
                assert(spec_parse_group(p[e as int]) is Some);
            } else if e2 < e as int {
                assert(p[e2].len() > 0);
            }
        }
    }
    if e < 1 || e > n - 2 || n > 8 {
        proof {
            if n <= 8 {
                assert forall|e2: int| !mid_case(p, e2) by {
                    if mid_case(p, e2) {
                        assert(e2 == e as int);
                    }
                }
            }
        }
        return None;
    }
    let head = parse_groups_range(&parts, 0, e);
    let tail = parse_groups_range(&parts, e + 1, n);
    match (head, tail) {
        (Some(head), Some(tail)) => {
            proof {
                assert(mid_case(p, e as int));
            }
            let mut gs = head;
            let mut mid = zeros_vec(8 - (n - 1));
            let mut tail = tail;
            gs.append(&mut mid);
            gs.append(&mut tail);
            proof {
                let ghost ee = choose|e2: int| mid_case(p, e2);
                assert(ee == e as int);
            }
            Some(v6_of(&gs))
        },
        _ => {
            proof {
                assert forall|e2: int| !mid_case(p, e2) by {
                    if mid_case(p, e2) {
                        assert(e2 == e as int);
                        assert(all_groups(p, 0, e as int));
                        assert(all_groups(p, e + 1 as int, p.len() as int));
                    }
                }
            }
            None
        },
    }
}

/// An address literal: v4 if it reads as one, else v6.
pub open spec fn spec_parse_addr(s: Seq<u8>) -> Option<Address> {
    if spec_parse_v4(s) is Some {
        spec_parse_v4(s)
    } else {
        spec_parse_v6(s)
    }
}

/// An address literal's address.
pub fn parse_addr(s: &[u8]) -> (r: Option<Address>)
    ensures
        r == spec_parse_addr(s@),
{
    match parse_v4(s) {
        Some(a) => Some(a),
        None => parse_v6(s),
    }
}

proof fn lemma_parse_hex_u16(n: u16)
    ensures
        spec_parse_group(spec_hex_u16(n)) == Some(n),
{
    let s = spec_hex_u16(n);
    lemma_hex_u16_class(n);
    assert forall|v: int| 0 <= v < 16 implies hex_val(hex_digit(v)) == v by {}
    if n < 0x10 {
        assert(s.len() == 1);
    } else if n < 0x100 {
        lemma_fundamental_div_mod(n as int, 16);
        assert(hex_val(s[0]) * 16 + hex_val(s[1]) == n as int);
    } else if n < 0x1000 {
        lemma_fundamental_div_mod(n as int, 16);
        lemma_fundamental_div_mod(n as int / 16, 16);
        lemma_div_denominator(n as int, 16, 16);
        assert(hex_val(s[0]) * 256 + hex_val(s[1]) * 16 + hex_val(s[2]) == n as int);
    } else {
        lemma_fundamental_div_mod(n as int, 16);
        lemma_fundamental_div_mod(n as int / 16, 16);
        lemma_div_denominator(n as int, 16, 16);
        lemma_fundamental_div_mod(n as int / 256, 16);
        lemma_div_denominator(n as int, 256, 16);
        assert(hex_val(s[0]) * 4096 + hex_val(s[1]) * 256 + hex_val(s[2]) * 16 + hex_val(s[3])
            == n as int);
    }
}

/// Every byte of a canonical address literal is a digit, a hex letter, a
/// dot or a colon — in particular never a newline, carriage return or
/// space — and the literal is never empty.
pub proof fn lemma_addr_bytes_class(a: Address)
    ensures
        spec_addr_bytes(a).len() >= 1,
        forall|i: int|
            0 <= i < spec_addr_bytes(a).len() ==> 46 <= #[trigger] spec_addr_bytes(a)[i] <= 102,
{
    let pred = |c: u8| 46 <= c <= 102;
    match a {
        Address::V4(x, y, z, w) => {
            let parts = v4_octets(a).map_values(|o: u8| spec_dec_u8(o));
            assert forall|i: int, j: int|
                0 <= i < parts.len() && 0 <= j < parts[i].len() implies pred(
                #[trigger] parts[i][j],
            ) by {
                lemma_dec_u8_class(v4_octets(a)[i]);
            }
            crate::text::lemma_join_class(parts, DOT, pred);
            lemma_dec_u8_class(x);
            assert(spec_join(parts, DOT).len() >= parts[0].len());
        },
        Address::V6(g0, g1, g2, g3, g4, g5, g6, g7) => {
            let parts = v6_groups(a).map_values(|g: u16| spec_hex_u16(g));
            assert forall|i: int, j: int|
                0 <= i < parts.len() && 0 <= j < parts[i].len() implies pred(
                #[trigger] parts[i][j],
            ) by {
                lemma_hex_u16_class(v6_groups(a)[i]);
            }
            crate::text::lemma_join_class(parts, COLON, pred);
            lemma_hex_u16_class(g0);
            assert(spec_join(parts, COLON).len() >= parts[0].len());
        },
    }
}

/// Parsing the canonical form of an address restores the address exactly.
#[verifier::rlimit(100)]
pub proof fn lemma_parse_format(a: Address)
    ensures
        spec_parse_addr(spec_addr_bytes(a)) == Some(a),
{
    let s = spec_addr_bytes(a);
    match a {
        Address::V4(x, y, z, w) => {
            let parts = v4_octets(a).map_values(|o: u8| spec_dec_u8(o));
            assert forall|i: int, j: int|
                0 <= i < parts.len() && 0 <= j < parts[i].len() implies #[trigger] parts[i][j]
                != DOT by {
                lemma_dec_u8_class(v4_octets(a)[i]);
            }
            lemma_split_join(parts, DOT);
            let p = spec_split(s, DOT);
            assert(p =~~= parts);
            lemma_parse_dec_u8(x);
            lemma_parse_dec_u8(y);
            lemma_parse_dec_u8(z);
            lemma_parse_dec_u8(w);
            assert(p[0] == spec_dec_u8(x));
            assert(p[1] == spec_dec_u8(y));
            assert(p[2] == spec_dec_u8(z));
            assert(p[3] == spec_dec_u8(w));
            assert(spec_parse_v4(s) == Some(a));
        },
        Address::V6(g0, g1, g2, g3, g4, g5, g6, g7) => {
            // no dot occurs, so the v4 reading leaves a single piece
            lemma_addr_bytes_class(a);
            assert forall|i: int| 0 <= i < s.len() implies s[i] != DOT by {
                let parts = v6_groups(a).map_values(|g: u16| spec_hex_u16(g));
                assert forall|k: int, j: int|
                    0 <= k < parts.len() && 0 <= j < parts[k].len() implies is_hex_digit(
                    #[trigger] parts[k][j],
                ) || parts[k][j] == COLON by {
                    lemma_hex_u16_class(v6_groups(a)[k]);
                }
                crate::text::lemma_join_class(
                    parts,
                    COLON,
                    |c: u8| is_hex_digit(c) || c == COLON,
                );
            }
            lemma_split_no_sep(s, DOT);
            assert(spec_split(s, DOT).len() == 1);
            assert(spec_parse_v4(s) is None);
            let parts = v6_groups(a).map_values(|g: u16| spec_hex_u16(g));
            assert forall|i: int, j: int|
                0 <= i < parts.len() && 0 <= j < parts[i].len() implies #[trigger] parts[i][j]
                != COLON by {
                lemma_hex_u16_class(v6_groups(a)[i]);
            }
            lemma_split_join(parts, COLON);
            let p = spec_split(s, COLON);
            assert(p =~~= parts);
            // the dotted-quad guard does not fire: the last piece is a hex
            // group, free of dots
            assert(p[7] == spec_hex_u16(g7));
            lemma_hex_u16_class(g7);
            assert(forall|j: int| 0 <= j < p[7].len() ==> #[trigger] p[7][j] != DOT);
            lemma_split_no_sep(p[7], DOT);
            assert(spec_split(p[7], DOT).len() == 1);
            assert(spec_parse_v4(p[7]) is None);
            lemma_parse_hex_u16(g0);
            lemma_parse_hex_u16(g1);
            lemma_parse_hex_u16(g2);
            lemma_parse_hex_u16(g3);
            lemma_parse_hex_u16(g4);
            lemma_parse_hex_u16(g5);
            lemma_parse_hex_u16(g6);
            lemma_parse_hex_u16(g7);
            assert(all_groups(p, 0, 8));
            let gs = group_vals(p, 0, 8);
            assert(gs[0] == g0);
            assert(gs[1] == g1);
            assert(gs[2] == g2);
            assert(gs[3] == g3);
            assert(gs[4] == g4);
            assert(gs[5] == g5);
            assert(gs[6] == g6);
            assert(gs[7] == g7);
            assert(spec_parse_v6(s) == Some(a));
        },
    }
}

} // verus!
