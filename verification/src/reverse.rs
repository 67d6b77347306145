//! Descending sort order for fixed-width integers.
//!
//! The stored bytes of a [`Reverse`] value are the complement of its rank, so
//! that byte order is descending value order: the first hit of a prefix scan
//! over a reversed timestamp is the newest record.

use vstd::prelude::*;

use crate::bytes::{be_vec, read_be};

verus! {

/// Fixed-width integers whose stored form can be turned round.
pub trait Reversible: Copy + Sized {
    /// Bytes of the stored form, as of the plain one.
    const WIDTH: usize;

    /// The place of the value among all values of its type, ascending.
    spec fn rank(self) -> nat;

    /// Values with one place are one value, and every place fits.
    proof fn rank_places(a: Self, b: Self)
        ensures
            0 < Self::WIDTH <= 8,
            a.rank() < crate::bytes::pow256(Self::WIDTH as nat),
            a.rank() == b.rank() ==> a == b,
    ;

    /// The stored form in descending order.
    fn rev_encode(self) -> (r: Vec<u8>)
        ensures
            r@ == crate::bytes::be_bytes(
                (crate::bytes::pow256(Self::WIDTH as nat) - 1 - self.rank()) as nat,
                Self::WIDTH as nat,
            ),
    ;

    /// The value of a stored form, which has exactly `WIDTH` bytes.
    fn rev_decode(b: &[u8]) -> (r: Self)
        requires
            b@.len() == Self::WIDTH,
        ensures
            r.rank() == crate::bytes::pow256(Self::WIDTH as nat) - 1 - crate::bytes::be_value(b@),
    ;
}

impl Reversible for u8 {
    const WIDTH: usize = 1;

    open spec fn rank(self) -> nat {
        self as nat
    }

    proof fn rank_places(a: Self, b: Self) {
        crate::bytes::lemma_pow256_small();
    }

    fn rev_encode(self) -> (r: Vec<u8>) {
        proof {
            crate::bytes::lemma_pow256_small();
        }
        let flipped: u8 = 0xFF - self;
        be_vec(flipped as u64, 1)
    }

    fn rev_decode(b: &[u8]) -> (r: Self) {
        proof {
            crate::bytes::lemma_pow256_small();
            crate::bytes::lemma_be_value_round_trip(b@);
        }
        let flipped: u8 = read_be(b) as u8;
        0xFF - flipped
    }
}

impl Reversible for u16 {
    const WIDTH: usize = 2;

    open spec fn rank(self) -> nat {
        self as nat
    }

    proof fn rank_places(a: Self, b: Self) {
        crate::bytes::lemma_pow256_small();
    }

    fn rev_encode(self) -> (r: Vec<u8>) {
        proof {
            crate::bytes::lemma_pow256_small();
        }
        let flipped: u16 = 0xFFFF - self;
        be_vec(flipped as u64, 2)
    }

    fn rev_decode(b: &[u8]) -> (r: Self) {
        proof {
            crate::bytes::lemma_pow256_small();
            crate::bytes::lemma_be_value_round_trip(b@);
        }
        let flipped: u16 = read_be(b) as u16;
        0xFFFF - flipped
    }
}

impl Reversible for u32 {
    const WIDTH: usize = 4;

    open spec fn rank(self) -> nat {
        self as nat
    }

    proof fn rank_places(a: Self, b: Self) {
        crate::bytes::lemma_pow256_small();
    }

    fn rev_encode(self) -> (r: Vec<u8>) {
        proof {
            crate::bytes::lemma_pow256_small();
        }
        let flipped: u32 = 0xFFFFFFFF - self;
        be_vec(flipped as u64, 4)
    }

    fn rev_decode(b: &[u8]) -> (r: Self) {
        proof {
            crate::bytes::lemma_pow256_small();
            crate::bytes::lemma_be_value_round_trip(b@);
        }
        let flipped: u32 = read_be(b) as u32;
        0xFFFFFFFF - flipped
    }
}

impl Reversible for u64 {
    const WIDTH: usize = 8;

    open spec fn rank(self) -> nat {
        self as nat
    }

    proof fn rank_places(a: Self, b: Self) {
        crate::bytes::lemma_pow256_small();
    }

    fn rev_encode(self) -> (r: Vec<u8>) {
        proof {
            crate::bytes::lemma_pow256_small();
        }
        be_vec(0xFFFFFFFFFFFFFFFF - self, 8)
    }

    fn rev_decode(b: &[u8]) -> (r: Self) {
        proof {
            crate::bytes::lemma_pow256_small();
            crate::bytes::lemma_be_value_round_trip(b@);
        }
        0xFFFFFFFFFFFFFFFF - read_be(b)
    }
}

impl Reversible for i8 {
    const WIDTH: usize = 1;

    open spec fn rank(self) -> nat {
        (self + 0x80) as nat
    }

    proof fn rank_places(a: Self, b: Self) {
        crate::bytes::lemma_pow256_small();
    }

    fn rev_encode(self) -> (r: Vec<u8>) {
        proof {
            crate::bytes::lemma_pow256_small();
        }
        let flipped: u64 = if self < 0 {
            0x80 + ((-(self + 1)) as u64)
        } else {
            0x7F - (self as u64)
        };
        be_vec(flipped, 1)
    }

    fn rev_decode(b: &[u8]) -> (r: Self) {
        proof {
            crate::bytes::lemma_pow256_small();
            crate::bytes::lemma_be_value_round_trip(b@);
        }
        let flipped: u64 = read_be(b);
        if flipped >= 0x80 {
            -1 - ((flipped - 0x80) as i8)
        } else {
            (0x7F - flipped) as i8
        }
    }
}

impl Reversible for i16 {
    const WIDTH: usize = 2;

    open spec fn rank(self) -> nat {
        (self + 0x8000) as nat
    }

    proof fn rank_places(a: Self, b: Self) {
        crate::bytes::lemma_pow256_small();
    }

    fn rev_encode(self) -> (r: Vec<u8>) {
        proof {
            crate::bytes::lemma_pow256_small();
        }
        let flipped: u64 = if self < 0 {
            0x8000 + ((-(self + 1)) as u64)
        } else {
            0x7FFF - (self as u64)
        };
        be_vec(flipped, 2)
    }

    fn rev_decode(b: &[u8]) -> (r: Self) {
        proof {
            crate::bytes::lemma_pow256_small();
            crate::bytes::lemma_be_value_round_trip(b@);
        }
        let flipped: u64 = read_be(b);
        if flipped >= 0x8000 {
            -1 - ((flipped - 0x8000) as i16)
        } else {
            (0x7FFF - flipped) as i16
        }
    }
}

impl Reversible for i32 {
    const WIDTH: usize = 4;

    open spec fn rank(self) -> nat {
        (self + 0x80000000) as nat
    }

    proof fn rank_places(a: Self, b: Self) {
        crate::bytes::lemma_pow256_small();
    }

    fn rev_encode(self) -> (r: Vec<u8>) {
        proof {
            crate::bytes::lemma_pow256_small();
        }
        let flipped: u64 = if self < 0 {
            0x80000000 + ((-(self + 1)) as u64)
        } else {
            0x7FFFFFFF - (self as u64)
        };
        be_vec(flipped, 4)
    }

    fn rev_decode(b: &[u8]) -> (r: Self) {
        proof {
            crate::bytes::lemma_pow256_small();
            crate::bytes::lemma_be_value_round_trip(b@);
        }
        let flipped: u64 = read_be(b);
        if flipped >= 0x80000000 {
            -1 - ((flipped - 0x80000000) as i32)
        } else {
            (0x7FFFFFFF - flipped) as i32
        }
    }
}

impl Reversible for i64 {
    const WIDTH: usize = 8;

    open spec fn rank(self) -> nat {
        (self + 0x8000000000000000) as nat
    }

    proof fn rank_places(a: Self, b: Self) {
        crate::bytes::lemma_pow256_small();
    }

    fn rev_encode(self) -> (r: Vec<u8>) {
        proof {
            crate::bytes::lemma_pow256_small();
        }
        let flipped: u64 = if self < 0 {
            0x8000000000000000 + ((-(self + 1)) as u64)
        } else {
            0x7FFFFFFFFFFFFFFF - (self as u64)
        };
        be_vec(flipped, 8)
    }

    fn rev_decode(b: &[u8]) -> (r: Self) {
        proof {
            crate::bytes::lemma_pow256_small();
            crate::bytes::lemma_be_value_round_trip(b@);
        }
        let flipped: u64 = read_be(b);
        if flipped >= 0x8000000000000000 {
            -1 - ((flipped - 0x8000000000000000) as i64)
        } else {
            (0x7FFFFFFFFFFFFFFF - flipped) as i64
        }
    }
}

/// A value stored in descending order.
#[derive(Clone, Copy, Debug, PartialEq, Eq, Default)]
pub struct Reverse<T: Reversible>(pub T);

impl<T: Reversible> Reverse<T> {
    /// The stored form in descending order.
    pub fn encode(&self) -> (r: Vec<u8>)
        ensures
            r@ == crate::bytes::be_bytes(
                (crate::bytes::pow256(T::WIDTH as nat) - 1 - self.0.rank()) as nat,
                T::WIDTH as nat,
            ),
            r@ == reversed_bytes(self.0),
    {
        self.0.rev_encode()
    }

    /// The value of a stored form, which has exactly `WIDTH` bytes.
    pub fn decode(b: &[u8]) -> (r: Self)
        requires
            b@.len() == T::WIDTH,
        ensures
            r.0.rank() == crate::bytes::pow256(T::WIDTH as nat) - 1 - crate::bytes::be_value(b@),
    {
        Reverse(T::rev_decode(b))
    }
}

/// The stored form of a reversed value.
pub open spec fn reversed_bytes<T: Reversible>(v: T) -> Seq<u8> {
    crate::bytes::be_bytes(
        (crate::bytes::pow256(T::WIDTH as nat) - 1 - v.rank()) as nat,
        T::WIDTH as nat,
    )
}

/// Reversed values sort in descending order.
pub proof fn law_reverse_order<T: Reversible>(a: T, b: T)
    requires
        a.rank() < b.rank(),
    ensures
        crate::bytes::lex_lt(reversed_bytes(b), reversed_bytes(a)),
{
    T::rank_places(a, b);
    T::rank_places(b, a);
    let top = crate::bytes::pow256(T::WIDTH as nat);
    crate::bytes::lemma_be_order(
        (top - 1 - b.rank()) as nat,
        (top - 1 - a.rank()) as nat,
        T::WIDTH as nat,
    );
}

/// The stored form of a reversed value has the width of its type and reads
/// back as that value.
pub proof fn law_reverse_round_trip<T: Reversible>(a: T, b: T)
    requires
        b.rank() == crate::bytes::pow256(T::WIDTH as nat) - 1 - crate::bytes::be_value(
            reversed_bytes(a),
        ),
    ensures
        reversed_bytes(a).len() == T::WIDTH,
        b == a,
{
    T::rank_places(a, b);
    let top = crate::bytes::pow256(T::WIDTH as nat);
    let v = (top - 1 - a.rank()) as nat;
    crate::bytes::lemma_be_bytes_len(v, T::WIDTH as nat);
    crate::bytes::lemma_be_round_trip(v, T::WIDTH as nat);
}

/// The widths of the numbers that can be stored in descending order.
pub proof fn lemma_reversed_widths()
    ensures
        <u8 as Reversible>::WIDTH == 1,
        <u16 as Reversible>::WIDTH == 2,
        <u32 as Reversible>::WIDTH == 4,
        <u64 as Reversible>::WIDTH == 8,
        <i8 as Reversible>::WIDTH == 1,
        <i16 as Reversible>::WIDTH == 2,
        <i32 as Reversible>::WIDTH == 4,
        <i64 as Reversible>::WIDTH == 8,
{
}

/// A reversed `u8` takes 1 byte, which write the distance of the value from the largest one, and
/// sorts before every smaller value and behind every larger one.
pub proof fn law_u8_reversed(a: u8, b: u8)
    ensures
        reversed_bytes(a).len() == 1,
        crate::bytes::be_value(reversed_bytes(a)) + a == 0xFF,
        crate::bytes::lex_lt(reversed_bytes(a), reversed_bytes(b)) <==> b < a,
        reversed_bytes(a) == reversed_bytes(b) <==> a == b,
{
    crate::bytes::lemma_pow256_small();
    crate::bytes::lemma_be_bytes_len((0xFF - a) as nat, 1);
    crate::bytes::lemma_be_round_trip((0xFF - a) as nat, 1);
    crate::bytes::lemma_be_round_trip((0xFF - b) as nat, 1);
    crate::bytes::lemma_be_sorts((0xFF - a) as nat, (0xFF - b) as nat, 1);
}

/// A reversed `u16` takes 2 bytes, which write the distance of the value from the largest one, and
/// sorts before every smaller value and behind every larger one.
pub proof fn law_u16_reversed(a: u16, b: u16)
    ensures
        reversed_bytes(a).len() == 2,
        crate::bytes::be_value(reversed_bytes(a)) + a == 0xFFFF,
        crate::bytes::lex_lt(reversed_bytes(a), reversed_bytes(b)) <==> b < a,
        reversed_bytes(a) == reversed_bytes(b) <==> a == b,
{
    crate::bytes::lemma_pow256_small();
    crate::bytes::lemma_be_bytes_len((0xFFFF - a) as nat, 2);
    crate::bytes::lemma_be_round_trip((0xFFFF - a) as nat, 2);
    crate::bytes::lemma_be_round_trip((0xFFFF - b) as nat, 2);
    crate::bytes::lemma_be_sorts((0xFFFF - a) as nat, (0xFFFF - b) as nat, 2);
}

/// A reversed `u32` takes 4 bytes, which write the distance of the value from the largest one, and
/// sorts before every smaller value and behind every larger one.
pub proof fn law_u32_reversed(a: u32, b: u32)
    ensures
        reversed_bytes(a).len() == 4,
        crate::bytes::be_value(reversed_bytes(a)) + a == 0xFFFFFFFF,
        crate::bytes::lex_lt(reversed_bytes(a), reversed_bytes(b)) <==> b < a,
        reversed_bytes(a) == reversed_bytes(b) <==> a == b,
{
    crate::bytes::lemma_pow256_small();
    crate::bytes::lemma_be_bytes_len((0xFFFFFFFF - a) as nat, 4);
    crate::bytes::lemma_be_round_trip((0xFFFFFFFF - a) as nat, 4);
    crate::bytes::lemma_be_round_trip((0xFFFFFFFF - b) as nat, 4);
    crate::bytes::lemma_be_sorts((0xFFFFFFFF - a) as nat, (0xFFFFFFFF - b) as nat, 4);
}

/// A reversed `u64` takes 8 bytes, which write the distance of the value from the largest one, and
/// sorts before every smaller value and behind every larger one.
pub proof fn law_u64_reversed(a: u64, b: u64)
    ensures
        reversed_bytes(a).len() == 8,
        crate::bytes::be_value(reversed_bytes(a)) + a == 0xFFFFFFFFFFFFFFFF,
        crate::bytes::lex_lt(reversed_bytes(a), reversed_bytes(b)) <==> b < a,
        reversed_bytes(a) == reversed_bytes(b) <==> a == b,
{
    crate::bytes::lemma_pow256_small();
    crate::bytes::lemma_be_bytes_len((0xFFFFFFFFFFFFFFFF - a) as nat, 8);
    crate::bytes::lemma_be_round_trip((0xFFFFFFFFFFFFFFFF - a) as nat, 8);
    crate::bytes::lemma_be_round_trip((0xFFFFFFFFFFFFFFFF - b) as nat, 8);
    crate::bytes::lemma_be_sorts((0xFFFFFFFFFFFFFFFF - a) as nat, (0xFFFFFFFFFFFFFFFF - b) as nat, 8);
}

/// A reversed `i8` takes 1 byte, which write the distance of the value from the largest one, and
/// sorts before every smaller value and behind every larger one.
pub proof fn law_i8_reversed(a: i8, b: i8)
    ensures
        reversed_bytes(a).len() == 1,
        crate::bytes::be_value(reversed_bytes(a)) + a == 0x7F,
        crate::bytes::lex_lt(reversed_bytes(a), reversed_bytes(b)) <==> b < a,
        reversed_bytes(a) == reversed_bytes(b) <==> a == b,
{
    crate::bytes::lemma_pow256_small();
    crate::bytes::lemma_be_bytes_len((0x7F - a) as nat, 1);
    crate::bytes::lemma_be_round_trip((0x7F - a) as nat, 1);
    crate::bytes::lemma_be_round_trip((0x7F - b) as nat, 1);
    crate::bytes::lemma_be_sorts((0x7F - a) as nat, (0x7F - b) as nat, 1);
}

/// A reversed `i16` takes 2 bytes, which write the distance of the value from the largest one, and
/// sorts before every smaller value and behind every larger one.
pub proof fn law_i16_reversed(a: i16, b: i16)
    ensures
        reversed_bytes(a).len() == 2,
        crate::bytes::be_value(reversed_bytes(a)) + a == 0x7FFF,
        crate::bytes::lex_lt(reversed_bytes(a), reversed_bytes(b)) <==> b < a,
        reversed_bytes(a) == reversed_bytes(b) <==> a == b,
{
    crate::bytes::lemma_pow256_small();
    crate::bytes::lemma_be_bytes_len((0x7FFF - a) as nat, 2);
    crate::bytes::lemma_be_round_trip((0x7FFF - a) as nat, 2);
    crate::bytes::lemma_be_round_trip((0x7FFF - b) as nat, 2);
    crate::bytes::lemma_be_sorts((0x7FFF - a) as nat, (0x7FFF - b) as nat, 2);
}

/// A reversed `i32` takes 4 bytes, which write the distance of the value from the largest one, and
/// sorts before every smaller value and behind every larger one.
pub proof fn law_i32_reversed(a: i32, b: i32)
    ensures
        reversed_bytes(a).len() == 4,
        crate::bytes::be_value(reversed_bytes(a)) + a == 0x7FFFFFFF,
        crate::bytes::lex_lt(reversed_bytes(a), reversed_bytes(b)) <==> b < a,
        reversed_bytes(a) == reversed_bytes(b) <==> a == b,
{
    crate::bytes::lemma_pow256_small();
    crate::bytes::lemma_be_bytes_len((0x7FFFFFFF - a) as nat, 4);
    crate::bytes::lemma_be_round_trip((0x7FFFFFFF - a) as nat, 4);
    crate::bytes::lemma_be_round_trip((0x7FFFFFFF - b) as nat, 4);
    crate::bytes::lemma_be_sorts((0x7FFFFFFF - a) as nat, (0x7FFFFFFF - b) as nat, 4);
}

/// A reversed `i64` takes 8 bytes, which write the distance of the value from the largest one, and
/// sorts before every smaller value and behind every larger one.
pub proof fn law_i64_reversed(a: i64, b: i64)
    ensures
        reversed_bytes(a).len() == 8,
        crate::bytes::be_value(reversed_bytes(a)) + a == 0x7FFFFFFFFFFFFFFF,
        crate::bytes::lex_lt(reversed_bytes(a), reversed_bytes(b)) <==> b < a,
        reversed_bytes(a) == reversed_bytes(b) <==> a == b,
{
    crate::bytes::lemma_pow256_small();
    crate::bytes::lemma_be_bytes_len((0x7FFFFFFFFFFFFFFF - a) as nat, 8);
    crate::bytes::lemma_be_round_trip((0x7FFFFFFFFFFFFFFF - a) as nat, 8);
    crate::bytes::lemma_be_round_trip((0x7FFFFFFFFFFFFFFF - b) as nat, 8);
    crate::bytes::lemma_be_sorts((0x7FFFFFFFFFFFFFFF - a) as nat, (0x7FFFFFFFFFFFFFFF - b) as nat, 8);
}

} // verus!
