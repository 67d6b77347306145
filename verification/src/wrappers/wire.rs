//! The variable-length integer every frame format shares.
//!
//! The number of leading one bits of the first byte tells the width; the
//! rest is the value, most significant bits first:
//!
//! ```text
//! width  first byte   values below
//! 1      0xxxxxxx     2^7
//! 2      10xxxxxx     2^14
//! 3      110xxxxx     2^21
//! 4      1110xxxx     2^28
//! 5      11110xxx     2^35
//! 6      111110xx     2^42
//! 7      1111110x     2^49
//! 8      11111110     2^56
//! 9      11111111     2^64
//! ```

use vstd::prelude::*;

use crate::bytes::{push_be, read_be, slice_to};

verus! {

/// The number of bytes that hold `v`: the smallest width whose payload does.
pub open spec fn wire_width(v: nat) -> nat {
    if v < 0x80 {
        1
    } else if v < 0x4000 {
        2
    } else if v < 0x20_0000 {
        3
    } else if v < 0x1000_0000 {
        4
    } else if v < 0x8_0000_0000 {
        5
    } else if v < 0x400_0000_0000 {
        6
    } else if v < 0x2_0000_0000_0000 {
        7
    } else if v < 0x100_0000_0000_0000 {
        8
    } else {
        9
    }
}

/// The first byte of a `w`-byte encoding with an empty payload: `w - 1`
/// leading ones.
pub open spec fn wire_prefix(w: nat) -> u8 {
    if w <= 1 {
        0x00
    } else if w == 2 {
        0x80
    } else if w == 3 {
        0xC0
    } else if w == 4 {
        0xE0
    } else if w == 5 {
        0xF0
    } else if w == 6 {
        0xF8
    } else if w == 7 {
        0xFC
    } else if w == 8 {
        0xFE
    } else {
        0xFF
    }
}

/// The width that a first byte announces.
pub open spec fn announced_width(first: u8) -> nat {
    if first < 0x80 {
        1
    } else if first < 0xC0 {
        2
    } else if first < 0xE0 {
        3
    } else if first < 0xF0 {
        4
    } else if first < 0xF8 {
        5
    } else if first < 0xFC {
        6
    } else if first < 0xFE {
        7
    } else if first < 0xFF {
        8
    } else {
        9
    }
}

/// What the width prefix of a `w`-byte encoding contributes to the number
/// that its bytes write.
pub open spec fn wire_mark(w: nat) -> nat {
    wire_prefix(w) as nat * crate::bytes::pow256((w - 1) as nat)
}

/// The encoding of `v`.
pub open spec fn wire_bytes(v: nat) -> Seq<u8> {
    crate::bytes::be_bytes(wire_mark(wire_width(v)) + v, wire_width(v))
}

/// The value at the front of `b` and its width; `None` when `b` ends before
/// the announced width.
pub open spec fn wire_value(b: Seq<u8>) -> Option<(nat, nat)> {
    if b.len() == 0 || b.len() < announced_width(b[0]) {
        None
    } else {
        let w = announced_width(b[0]);
        Some(((crate::bytes::be_value(b.subrange(0, w as int)) - wire_mark(w)) as nat, w))
    }
}

pub proof fn lemma_wire_mark()
    ensures
        wire_mark(1) == 0,
        wire_mark(2) == 0x8000,
        wire_mark(3) == 0xC0_0000,
        wire_mark(4) == 0xE000_0000,
        wire_mark(5) == 0xF0_0000_0000,
        wire_mark(6) == 0xF800_0000_0000,
        wire_mark(7) == 0xFC_0000_0000_0000,
        wire_mark(8) == 0xFE00_0000_0000_0000,
        wire_mark(9) == 0xFF_0000_0000_0000_0000,
{
    crate::bytes::lemma_pow256_small();
}

/// Prepending a byte adds it at the most significant place.
pub proof fn lemma_be_value_cons(x: u8, s: Seq<u8>)
    ensures
        crate::bytes::be_value(seq![x] + s) == x as nat * crate::bytes::pow256(s.len())
            + crate::bytes::be_value(s),
    decreases s.len(),
{
    let t = seq![x] + s;
    if s.len() == 0 {
        assert(t.drop_last() =~= Seq::<u8>::empty());
        assert(crate::bytes::be_value(t.drop_last()) == 0);
        let p = crate::bytes::pow256(0);
        assert(x as nat * p == x) by (nonlinear_arith)
            requires
                p == 1,
        ;
    } else {
        lemma_be_value_cons(x, s.drop_last());
        assert(t.drop_last() =~= seq![x] + s.drop_last());
        assert(t.last() == s.last());
        let p = crate::bytes::pow256((s.len() - 1) as nat);
        assert(x as nat * (256 * p) == 256 * (x as nat * p)) by (nonlinear_arith);
    }
}

/// A prefix-marked string announces its own width and holds the value above
/// the mark.
proof fn lemma_first_byte(b: Seq<u8>)
    requires
        0 < b.len() <= 9,
    ensures
        b[0] as nat * crate::bytes::pow256((b.len() - 1) as nat) <= crate::bytes::be_value(b),
        crate::bytes::be_value(b) < (b[0] as nat + 1) * crate::bytes::pow256((b.len() - 1) as nat),
{
    let rest = b.drop_first();
    assert(b =~= seq![b[0]] + rest);
    lemma_be_value_cons(b[0], rest);
    crate::bytes::lemma_be_value_round_trip(rest);
    let p = crate::bytes::pow256(rest.len());
    assert((b[0] as nat + 1) * p == b[0] as nat * p + p) by (nonlinear_arith);
}

/// The first byte of an encoding announces its width.
pub proof fn lemma_wire_announces(v: nat)
    requires
        v <= u64::MAX,
    ensures
        wire_bytes(v).len() == wire_width(v),
        announced_width(wire_bytes(v)[0]) == wire_width(v),
        crate::bytes::be_value(wire_bytes(v)) == wire_mark(wire_width(v)) + v,
{
    let w = wire_width(v);
    let b = wire_bytes(v);
    lemma_wire_mark();
    crate::bytes::lemma_pow256_small();
    crate::bytes::lemma_be_bytes_len(wire_mark(w) + v, w);
    reveal_with_fuel(crate::bytes::pow256, 10);
    assert(crate::bytes::pow256(9) == 0x100_0000_0000_0000_0000);
    assert(wire_mark(w) + v < crate::bytes::pow256(w));
    crate::bytes::lemma_be_round_trip(wire_mark(w) + v, w);
    lemma_first_byte(b);
    let p = crate::bytes::pow256((w - 1) as nat);
    let first = b[0] as nat;
    let pre = wire_prefix(w) as nat;
    let room = wire_room(w);
    assert(v < room * p);
    assert(pre <= first < pre + room) by (nonlinear_arith)
        requires
            first * p <= pre * p + v,
            pre * p + v < (first + 1) * p,
            v < room * p,
            p > 0,
    ;
}

/// How many first bytes announce the width `w`.
pub open spec fn wire_room(w: nat) -> nat {
    if w <= 1 {
        0x80
    } else if w == 2 {
        0x40
    } else if w == 3 {
        0x20
    } else if w == 4 {
        0x10
    } else if w == 5 {
        8
    } else if w == 6 {
        4
    } else if w == 7 {
        2
    } else {
        1
    }
}

/// Reading what was written gives the value back and consumes exactly its
/// bytes, whatever follows.
pub proof fn law_wire_round_trip(v: nat, rest: Seq<u8>)
    requires
        v <= u64::MAX,
    ensures
        wire_value(wire_bytes(v) + rest) == Some((v, wire_width(v))),
        wire_bytes(v).len() == wire_width(v),
{
    let b = wire_bytes(v);
    lemma_wire_announces(v);
    assert((b + rest)[0] == b[0]);
    assert((b + rest).subrange(0, wire_width(v) as int) =~= b);
}

/// Byte order is value order: encodings sort as the values they hold.
pub proof fn law_wire_order(a: nat, b: nat)
    requires
        a < b,
        b <= u64::MAX,
    ensures
        crate::bytes::lex_lt(wire_bytes(a), wire_bytes(b)),
{
    let wa = wire_width(a);
    let wb = wire_width(b);
    lemma_wire_announces(a);
    lemma_wire_announces(b);
    if wa == wb {
        crate::bytes::lemma_be_value_round_trip(wire_bytes(b));
        crate::bytes::lemma_be_order(wire_mark(wa) + a, wire_mark(wb) + b, wa);
    } else {
        assert(wire_bytes(a)[0] < wire_bytes(b)[0]);
    }
}

/// A decoded value is what remains above the width mark, and fits 64 bits.
pub proof fn lemma_wire_value_bounds(b: Seq<u8>)
    requires
        wire_value(b) is Some,
    ensures
        crate::bytes::be_value(b.subrange(0, (wire_value(b)->0).1 as int)) == wire_mark(
            (wire_value(b)->0).1,
        ) + (wire_value(b)->0).0,
        (wire_value(b)->0).0 <= u64::MAX,
        1 <= (wire_value(b)->0).1 <= 9,
        (wire_value(b)->0).1 <= b.len(),
        (wire_value(b)->0).1 == 9 ==> (wire_value(b)->0).0 == crate::bytes::be_value(b.subrange(1, 9)),
        (wire_value(b)->0).0 < wire_room((wire_value(b)->0).1) * crate::bytes::pow256(
            ((wire_value(b)->0).1 - 1) as nat,
        ),
{
    let w = announced_width(b[0]);
    let s = b.subrange(0, w as int);
    lemma_wire_mark();
    crate::bytes::lemma_pow256_small();
    lemma_first_byte(s);
    assert(s[0] == b[0]);
    let p = crate::bytes::pow256((w - 1) as nat);
    let first = b[0] as nat;
    let pre = wire_prefix(w) as nat;
    let room = wire_room(w);
    let total = crate::bytes::be_value(s);
    assert(pre <= first < pre + room);
    assert(pre * p <= total && total - pre * p < room * p) by (nonlinear_arith)
        requires
            pre <= first,
            first < pre + room,
            first * p <= total,
            total < (first + 1) * p,
            p > 0,
    ;
    assert(room * p <= u64::MAX + 1);
    if w == 9 {
        assert(s =~= seq![0xFFu8] + b.subrange(1, 9));
        lemma_be_value_cons(0xFFu8, b.subrange(1, 9));
    }
}

/// The number that the width prefix of a `w`-byte encoding contributes.
fn mark(w: usize) -> (r: u64)
    requires
        1 <= w <= 8,
    ensures
        r == wire_mark(w as nat),
{
    proof {
        lemma_wire_mark();
    }
    match w {
        1 => 0,
        2 => 0x8000,
        3 => 0xC0_0000,
        4 => 0xE000_0000,
        5 => 0xF0_0000_0000,
        6 => 0xF800_0000_0000,
        7 => 0xFC_0000_0000_0000,
        _ => 0xFE00_0000_0000_0000,
    }
}

/// Appends the encoding of `v`.
pub fn put_u64(buf: &mut Vec<u8>, v: u64)
    ensures
        final(buf)@ == old(buf)@ + wire_bytes(v as nat),
{
    let w: usize = width_of(v);
    proof {
        lemma_wire_mark();
        lemma_wire_announces(v as nat);
    }
    if w == 9 {
        buf.push(0xFF);
        push_be(buf, v, 8);
        proof {
            let t = seq![0xFFu8] + crate::bytes::be_bytes(v as nat, 8);
            crate::bytes::lemma_pow256_small();
            crate::bytes::lemma_be_bytes_len(v as nat, 8);
            crate::bytes::lemma_be_round_trip(v as nat, 8);
            lemma_be_value_cons(0xFFu8, crate::bytes::be_bytes(v as nat, 8));
            crate::bytes::lemma_be_value_round_trip(t);
            assert(buf@ =~= old(buf)@ + t);
        }
    } else {
        push_be(buf, mark(w) + v, w);
    }
}

/// The value at the front of `b` and how many bytes it takes. `None` on
/// truncated input.
pub fn take_u64(b: &[u8]) -> (r: Option<(u64, usize)>)
    ensures
        match r {
            Some((v, w)) => wire_value(b@) == Some((v as nat, w as nat)),
            None => wire_value(b@) is None,
        },
{
    if b.len() == 0 {
        return None;
    }
    let w: usize = prefix_width(b[0]);
    if b.len() < w {
        return None;
    }
    proof {
        lemma_wire_value_bounds(b@);
        lemma_wire_mark();
    }
    if w == 9 {
        let v: u64 = read_be(vstd::slice::slice_subrange(b, 1, 9));
        Some((v, w))
    } else {
        let v: u64 = read_be(slice_to(b, w)) - mark(w);
        Some((v, w))
    }
}

/// Appends `len` as a frame-length prefix.
pub fn put_len(buf: &mut Vec<u8>, len: usize)
    ensures
        final(buf)@ == old(buf)@ + wire_bytes(len as nat),
{
    put_u64(buf, len as u64);
}

/// Reads a frame-length prefix from the front of `b`: the length and the
/// bytes it took. `None` on truncated input, and on a length that does not
/// fit `usize`.
pub fn take_len(b: &[u8]) -> (r: Option<(usize, usize)>)
    ensures
        match r {
            Some((len, w)) => wire_value(b@) == Some((len as nat, w as nat)),
            None => wire_value(b@) is None || (wire_value(b@)->0).0 > usize::MAX,
        },
{
    match take_u64(b) {
        None => None,
        Some((v, w)) => {
            if v > usize::MAX as u64 {
                None
            } else {
                Some((v as usize, w))
            }
        },
    }
}

/// Total encoded width that the first byte of an encoding announces.
pub fn prefix_width(first: u8) -> (r: usize)
    ensures
        r == announced_width(first),
        1 <= r <= 9,
{
    if first < 0x80 {
        1
    } else if first < 0xC0 {
        2
    } else if first < 0xE0 {
        3
    } else if first < 0xF0 {
        4
    } else if first < 0xF8 {
        5
    } else if first < 0xFC {
        6
    } else if first < 0xFE {
        7
    } else if first < 0xFF {
        8
    } else {
        9
    }
}

/// Prefix byte for width `w`: `w - 1` leading ones and a zero bit, all ones
/// from nine on.
pub fn prefix(w: usize) -> (r: u8)
    requires
        w >= 1,
    ensures
        r == wire_prefix(w as nat),
{
    match w {
        1 => 0x00,
        2 => 0x80,
        3 => 0xC0,
        4 => 0xE0,
        5 => 0xF0,
        6 => 0xF8,
        7 => 0xFC,
        8 => 0xFE,
        _ => 0xFF,
    }
}

/// Smallest width whose payload holds `v`.
pub fn width_of(v: u64) -> (r: usize)
    ensures
        r == wire_width(v as nat),
        1 <= r <= 9,
{
    if v < 0x80 {
        1
    } else if v < 0x4000 {
        2
    } else if v < 0x20_0000 {
        3
    } else if v < 0x1000_0000 {
        4
    } else if v < 0x8_0000_0000 {
        5
    } else if v < 0x400_0000_0000 {
        6
    } else if v < 0x2_0000_0000_0000 {
        7
    } else if v < 0x100_0000_0000_0000 {
        8
    } else {
        9
    }
}

/// Two to the power of seven times `n`.
pub open spec fn seven_bits(n: nat) -> nat {
    vstd::arithmetic::power2::pow2(7 * n)
}

/// An encoding is as short as its number allows: up to eight bytes hold
/// seven bits each, and nine bytes hold every number of 64 bits.
pub proof fn law_wire_shortest(v: nat, n: nat)
    requires
        v <= u64::MAX,
        1 <= n <= 8,
    ensures
        wire_bytes(v).len() <= n <==> v < seven_bits(n),
        wire_bytes(v).len() <= 9,
{
    lemma_wire_announces(v);
    vstd::arithmetic::power2::lemma2_to64();
    vstd::arithmetic::power2::lemma2_to64_rest();
}

/// The first byte tells the width, by its leading ones: the first byte of
/// `n` bytes lies in the `n`-th of the intervals that halve what is left of
/// a byte.
pub proof fn law_wire_first_byte(v: nat)
    requires
        v <= u64::MAX,
    ensures
        ({
            let n = wire_bytes(v).len();
            let first = wire_bytes(v)[0];
            &&& 1 <= n <= 9
            &&& n <= 8 ==> 256 - vstd::arithmetic::power2::pow2((9 - n) as nat) <= first < 256
                - vstd::arithmetic::power2::pow2((8 - n) as nat)
            &&& n == 9 ==> first == 255
        }),
{
    lemma_wire_announces(v);
    vstd::arithmetic::power2::lemma2_to64();
}

/// What is read from the front of bytes depends on the announced bytes
/// alone, fits them, and grows with them: of two encodings of one width, the
/// one that sorts first holds the smaller value.
pub proof fn law_wire_reads_grow(a: Seq<u8>, b: Seq<u8>)
    requires
        wire_value(a) is Some,
        wire_value(b) is Some,
        announced_width(a[0]) == announced_width(b[0]),
    ensures
        ({
            let w = announced_width(a[0]) as int;
            let (x, n) = wire_value(a)->0;
            let (y, m) = wire_value(b)->0;
            &&& n == w && m == w
            &&& 1 <= w <= a.len()
            &&& wire_value(a.take(w)) == wire_value(a)
            &&& w <= 8 ==> x < seven_bits(w as nat)
            &&& x <= u64::MAX
            &&& x < y <==> crate::bytes::lex_lt(a.take(w), b.take(w))
            &&& x == y <==> a.take(w) == b.take(w)
        }),
{
    let w = announced_width(a[0]) as int;
    let p = a.take(w);
    let q = b.take(w);
    lemma_wire_value_bounds(a);
    lemma_wire_value_bounds(b);
    assert(a.subrange(0, w) =~= p);
    assert(b.subrange(0, w) =~= q);
    assert(p.take(w) =~= p);
    assert(p.subrange(0, w) =~= p);
    assert(p[0] == a[0]);
    crate::bytes::lemma_be_value_round_trip(p);
    crate::bytes::lemma_be_value_round_trip(q);
    crate::bytes::lemma_be_sorts(
        crate::bytes::be_value(p),
        crate::bytes::be_value(q),
        w as nat,
    );
    lemma_wire_mark();
    crate::bytes::lemma_pow256_small();
    vstd::arithmetic::power2::lemma2_to64();
    vstd::arithmetic::power2::lemma2_to64_rest();
    if w <= 8 {
        let room = wire_room(w as nat);
        let below = crate::bytes::pow256((w - 1) as nat);
        assert(room * below == seven_bits(w as nat)) by {
            if w == 1 {
                assert(room * below == 0x80);
            } else if w == 2 {
                assert(room * below == 0x4000);
            } else if w == 3 {
                assert(room * below == 0x20_0000);
            } else if w == 4 {
                assert(room * below == 0x1000_0000);
            } else if w == 5 {
                assert(room * below == 0x8_0000_0000);
            } else if w == 6 {
                assert(room * below == 0x400_0000_0000);
            } else if w == 7 {
                assert(room * below == 0x2_0000_0000_0000);
            } else {
                assert(room * below == 0x100_0000_0000_0000);
            }
        }
    }
}

} // verus!
