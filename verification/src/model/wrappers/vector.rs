//! `Vector<T>`: a field with a list of fixed-width numbers.
//!
//! ```text
//! [count u32 BE][number LE]…
//! ```

use vstd::prelude::*;

use crate::bytes::{read_be, slice_from, slice_to};

verus! {

/// A list of numbers.
#[derive(Clone, Debug, PartialEq)]
pub struct Vector<T> {
    pub elems: Vec<T>,
}

impl<T> Vector<T> {
    pub fn new(elems: Vec<T>) -> (r: Self)
        ensures
            r.elems == elems,
    {
        Vector { elems }
    }

    /// How many numbers there are.
    pub fn len(&self) -> (r: usize)
        ensures
            r == self.elems@.len(),
    {
        self.elems.len()
    }

    /// Whether there are no numbers.
    pub fn is_empty(&self) -> (r: bool)
        ensures
            r == (self.elems@.len() == 0),
    {
        self.elems.len() == 0
    }
}

impl<T> Default for Vector<T> {
    fn default() -> (r: Self)
        ensures
            r.elems@ == Seq::<T>::empty(),
    {
        Vector { elems: Vec::new() }
    }
}

/// The stored form of a number: its bytes from the lowest up.
pub open spec fn le_bytes(v: nat, w: nat) -> Seq<u8> {
    crate::bytes::be_bytes(v, w).reverse()
}

/// The number that bytes from the lowest up stand for.
pub open spec fn le_value(b: Seq<u8>) -> nat {
    crate::bytes::be_value(b.reverse())
}

/// Appends the bytes of a number from the lowest up.
pub fn push_le(buf: &mut Vec<u8>, v: u64, w: usize)
    requires
        w <= 8,
    ensures
        final(buf)@ == old(buf)@ + le_bytes(v as nat, w as nat),
{
    let be = crate::bytes::be_vec(v, w);
    let ghost start = buf@;
    let ghost all = be@;
    let mut i: usize = be.len();
    proof {
        crate::bytes::lemma_be_bytes_len(v as nat, w as nat);
        assert(buf@ =~= start + all.skip(i as int).reverse());
    }
    while i > 0
        invariant
            i <= be@.len(),
            all == be@,
            buf@ == start + all.skip(i as int).reverse(),
        decreases i,
    {
        let ghost before = all.skip(i as int);
        i = i - 1;
        buf.push(be[i]);
        proof {
            assert(all.skip(i as int) =~= seq![all[i as int]] + before);
            assert(all.skip(i as int).reverse() =~= before.reverse().push(all[i as int]));
            assert(buf@ =~= start + all.skip(i as int).reverse());
        }
    }
    assert(all.skip(0) =~= all);
}

/// The number that bytes from the lowest up stand for.
pub fn read_le(b: &[u8]) -> (r: u64)
    requires
        b@.len() <= 8,
    ensures
        r == le_value(b@),
        r < crate::bytes::pow256(b@.len()),
{
    let mut be: Vec<u8> = Vec::new();
    let mut i: usize = b.len();
    assert(be@ =~= b@.skip(i as int).reverse());
    while i > 0
        invariant
            i <= b@.len(),
            be@ == b@.skip(i as int).reverse(),
        decreases i,
    {
        let ghost before = b@.skip(i as int);
        i = i - 1;
        be.push(b[i]);
        proof {
            assert(b@.skip(i as int) =~= seq![b@[i as int]] + before);
            assert(be@ =~= b@.skip(i as int).reverse());
        }
    }
    proof {
        assert(b@.skip(0) =~= b@);
        crate::bytes::lemma_be_value_round_trip(be@);
    }
    read_be(be.as_slice())
}

/// Numbers that a [`Vector`] can hold.
pub trait VectorElem: Copy {
    /// Bytes of the stored form.
    const ELEM_WIDTH: usize;

    /// The stored form.
    spec fn le(self) -> Seq<u8>;

    /// The stored form has the declared width and tells numbers apart.
    proof fn stored_apart(a: Self, b: Self)
        ensures
            0 < Self::ELEM_WIDTH <= 8,
            a.le().len() == Self::ELEM_WIDTH,
            a.le() == b.le() ==> a == b,
    ;

    /// Appends the stored form.
    fn encode_le(&self, buf: &mut Vec<u8>)
        ensures
            final(buf)@ == old(buf)@ + self.le(),
    ;

    /// The number of a stored form.
    fn decode_le(b: &[u8]) -> (r: Self)
        requires
            b@.len() == Self::ELEM_WIDTH,
        ensures
            r.le() == b@,
    ;
}

/// Stored forms have their width and tell numbers apart.
proof fn lemma_le_bytes(a: nat, b: nat, w: nat)
    requires
        a < crate::bytes::pow256(w),
        b < crate::bytes::pow256(w),
    ensures
        le_bytes(a, w).len() == w,
        le_bytes(a, w) == le_bytes(b, w) ==> a == b,
{
    crate::bytes::lemma_be_bytes_len(a, w);
    crate::bytes::lemma_be_bytes_len(b, w);
    if le_bytes(a, w) == le_bytes(b, w) {
        let x = crate::bytes::be_bytes(a, w);
        let y = crate::bytes::be_bytes(b, w);
        assert(x =~= x.reverse().reverse());
        assert(y =~= y.reverse().reverse());
        crate::bytes::lemma_be_injective(a, b, w);
    }
}

/// Bytes are the stored form of the number they stand for.
proof fn lemma_le_back(b: Seq<u8>)
    ensures
        le_bytes(le_value(b), b.len()) == b,
        le_value(b) < crate::bytes::pow256(b.len()),
{
    crate::bytes::lemma_be_value_round_trip(b.reverse());
    assert(b.reverse().reverse() =~= b);
}

impl VectorElem for u32 {
    const ELEM_WIDTH: usize = 4;

    open spec fn le(self) -> Seq<u8> {
        le_bytes(self as nat, 4)
    }

    proof fn stored_apart(a: Self, b: Self) {
        crate::bytes::lemma_pow256_small();
        lemma_le_bytes(a as nat, b as nat, 4);
    }

    fn encode_le(&self, buf: &mut Vec<u8>) {
        push_le(buf, *self as u64, 4);
    }

    fn decode_le(b: &[u8]) -> (r: Self) {
        proof {
            crate::bytes::lemma_pow256_small();
            lemma_le_back(b@);
        }
        read_le(b) as u32
    }
}

impl VectorElem for u64 {
    const ELEM_WIDTH: usize = 8;

    open spec fn le(self) -> Seq<u8> {
        le_bytes(self as nat, 8)
    }

    proof fn stored_apart(a: Self, b: Self) {
        crate::bytes::lemma_pow256_small();
        lemma_le_bytes(a as nat, b as nat, 8);
    }

    fn encode_le(&self, buf: &mut Vec<u8>) {
        push_le(buf, *self, 8);
    }

    fn decode_le(b: &[u8]) -> (r: Self) {
        proof {
            crate::bytes::lemma_pow256_small();
            lemma_le_back(b@);
        }
        read_le(b)
    }
}

impl VectorElem for i32 {
    const ELEM_WIDTH: usize = 4;

    open spec fn le(self) -> Seq<u8> {
        le_bytes(
            if self < 0 {
                (self + 0x100000000) as nat
            } else {
                self as nat
            },
            4,
        )
    }

    proof fn stored_apart(a: Self, b: Self) {
        crate::bytes::lemma_pow256_small();
        lemma_le_bytes(
            if a < 0 {
                (a + 0x100000000) as nat
            } else {
                a as nat
            },
            if b < 0 {
                (b + 0x100000000) as nat
            } else {
                b as nat
            },
            4,
        );
    }

    fn encode_le(&self, buf: &mut Vec<u8>) {
        let u: u64 = if *self < 0 {
            0xFFFFFFFF - ((-(*self + 1)) as u64)
        } else {
            *self as u64
        };
        push_le(buf, u, 4);
    }

    fn decode_le(b: &[u8]) -> (r: Self) {
        proof {
            crate::bytes::lemma_pow256_small();
            lemma_le_back(b@);
        }
        let u: u64 = read_le(b);
        if u >= 0x80000000 {
            -1 - ((0xFFFFFFFF - u) as i32)
        } else {
            u as i32
        }
    }
}

impl VectorElem for i64 {
    const ELEM_WIDTH: usize = 8;

    open spec fn le(self) -> Seq<u8> {
        le_bytes(
            if self < 0 {
                (self + 0x10000000000000000) as nat
            } else {
                self as nat
            },
            8,
        )
    }

    proof fn stored_apart(a: Self, b: Self) {
        crate::bytes::lemma_pow256_small();
        lemma_le_bytes(
            if a < 0 {
                (a + 0x10000000000000000) as nat
            } else {
                a as nat
            },
            if b < 0 {
                (b + 0x10000000000000000) as nat
            } else {
                b as nat
            },
            8,
        );
    }

    fn encode_le(&self, buf: &mut Vec<u8>) {
        let u: u64 = if *self < 0 {
            0xFFFFFFFFFFFFFFFF - ((-(*self + 1)) as u64)
        } else {
            *self as u64
        };
        push_le(buf, u, 8);
    }

    fn decode_le(b: &[u8]) -> (r: Self) {
        proof {
            crate::bytes::lemma_pow256_small();
            lemma_le_back(b@);
        }
        let u: u64 = read_le(b);
        if u >= 0x8000000000000000 {
            -1 - ((0xFFFFFFFFFFFFFFFF - u) as i64)
        } else {
            u as i64
        }
    }
}

/// The numbers of a list, one after another.
pub open spec fn elems_bytes<T: VectorElem>(elems: Seq<T>) -> Seq<u8>
    decreases elems.len(),
{
    if elems.len() == 0 {
        Seq::empty()
    } else {
        elems_bytes(elems.drop_last()) + elems.last().le()
    }
}

/// The bytes of a list are as many as its numbers need.
pub proof fn lemma_elems_len<T: VectorElem>(elems: Seq<T>)
    ensures
        elems_bytes(elems).len() == elems.len() * T::ELEM_WIDTH,
    decreases elems.len(),
{
    if elems.len() > 0 {
        lemma_elems_len(elems.drop_last());
        T::stored_apart(elems.last(), elems.last());
        vstd::arithmetic::mul::lemma_mul_is_distributive_add_other_way(
            T::ELEM_WIDTH as int,
            elems.len() - 1,
            1,
        );
    } else {
        assert(elems.len() * T::ELEM_WIDTH == 0) by (nonlinear_arith)
            requires
                elems.len() == 0,
        ;
    }
}

/// The stored form of a list.
pub open spec fn vector_bytes<T: VectorElem>(elems: Seq<T>) -> Seq<u8> {
    crate::bytes::be_bytes(elems.len(), 4) + elems_bytes(elems)
}

/// Whether these bytes hold a count and at least that many numbers.
pub open spec fn holds_vector<T: VectorElem>(b: Seq<u8>) -> bool {
    &&& b.len() >= 4
    &&& 4 + crate::bytes::be_value(b.take(4)) * T::ELEM_WIDTH <= b.len()
}

impl<T: VectorElem> Vector<T> {
    /// The stored form.
    pub fn encode_payload(&self) -> (r: Vec<u8>)
        requires
            self.elems@.len() <= u32::MAX,
        ensures
            r@ == vector_bytes(self.elems@),
    {
        let mut buf: Vec<u8> = crate::bytes::be_vec(self.elems.len() as u64, 4);
        let ghost head = buf@;
        let ghost all = self.elems@;
        let mut i: usize = 0;
        proof {
            assert(all.take(0) =~= Seq::empty());
            assert(buf@ =~= head + elems_bytes(all.take(0)));
        }
        while i < self.elems.len()
            invariant
                i <= self.elems@.len(),
                all == self.elems@,
                buf@ == head + elems_bytes(all.take(i as int)),
            decreases self.elems@.len() - i,
        {
            self.elems[i].encode_le(&mut buf);
            proof {
                assert(all.take(i + 1).drop_last() =~= all.take(i as int));
                assert(all.take(i + 1).last() == all[i as int]);
                assert(buf@ =~= head + elems_bytes(all.take(i + 1)));
            }
            i = i + 1;
        }
        assert(all.take(i as int) =~= all);
        buf
    }

    /// The list of a stored form: as many numbers as the count says. Bytes
    /// behind them are passed over.
    pub fn decode_payload(payload: &[u8]) -> (r: Self)
        requires
            holds_vector::<T>(payload@),
        ensures
            r.elems@.len() == crate::bytes::be_value(payload@.take(4)),
            elems_bytes(r.elems@) == payload@.subrange(
                4,
                4 + crate::bytes::be_value(payload@.take(4)) * T::ELEM_WIDTH,
            ),
    {
        let front = slice_to(payload, 4);
        assert(front@ =~= payload@.take(4));
        let count: u64 = read_be(front);
        let total: usize = payload.len();
        let mut elems: Vec<T> = Vec::new();
        let mut left: u64 = count;
        let mut at: usize = 4;
        proof {
            if payload@.len() > 0 {
                let any: T = arbitrary();
                T::stored_apart(any, any);
            }
            assert(elems_bytes(elems@) =~= payload@.subrange(4, 4));
            assert(0 * T::ELEM_WIDTH == 0) by (nonlinear_arith);
        }
        while left > 0
            invariant
                total == payload@.len(),
                left <= count,
                0 < T::ELEM_WIDTH <= 8,
                count == crate::bytes::be_value(payload@.take(4)),
                4 + count * T::ELEM_WIDTH <= total,
                elems@.len() == count - left,
                at == 4 + (count - left) * T::ELEM_WIDTH,
                elems_bytes(elems@) == payload@.subrange(4, at as int),
            decreases left,
        {
            proof {
                assert((count - left) * T::ELEM_WIDTH + T::ELEM_WIDTH == (count - left + 1)
                    * T::ELEM_WIDTH) by (nonlinear_arith);
                assert((count - left + 1) * T::ELEM_WIDTH <= count * T::ELEM_WIDTH)
                    by (nonlinear_arith)
                    requires
                        left >= 1,
                        left <= count,
                ;
            }
            let piece = slice_to(slice_from(payload, at), T::ELEM_WIDTH);
            let v = T::decode_le(piece);
            let ghost before = elems@;
            elems.push(v);
            proof {
                assert(elems@.drop_last() =~= before);
                assert(piece@ =~= payload@.subrange(at as int, at + T::ELEM_WIDTH));
                assert(elems_bytes(elems@) =~= payload@.subrange(4, at + T::ELEM_WIDTH));
            }
            at = at + T::ELEM_WIDTH;
            left = left - 1;
        }
        Vector { elems }
    }
}

/// A stored list reads back as it was: a list with its count and its bytes
/// is that list.
pub proof fn law_vector_round_trip<T: VectorElem>(a: Seq<T>, b: Seq<T>)
    requires
        a.len() == b.len(),
        elems_bytes(a) == elems_bytes(b),
    ensures
        a == b,
    decreases a.len(),
{
    if a.len() > 0 {
        let x = elems_bytes(a.drop_last());
        let y = elems_bytes(b.drop_last());
        lemma_elems_len(a.drop_last());
        lemma_elems_len(b.drop_last());
        let n = x.len() as int;
        assert(elems_bytes(a).take(n) =~= x);
        assert(elems_bytes(b).take(n) =~= y);
        assert(elems_bytes(a).skip(n) =~= a.last().le());
        assert(elems_bytes(b).skip(n) =~= b.last().le());
        law_vector_round_trip(a.drop_last(), b.drop_last());
        T::stored_apart(a.last(), b.last());
        assert(a =~= a.drop_last().push(a.last()));
        assert(b =~= b.drop_last().push(b.last()));
    } else {
        assert(a =~= b);
    }
}

/// What was written can be read.
pub proof fn law_vector_reads<T: VectorElem>(elems: Seq<T>)
    requires
        elems.len() <= u32::MAX,
    ensures
        holds_vector::<T>(vector_bytes(elems)),
        crate::bytes::be_value(vector_bytes(elems).take(4)) == elems.len(),
        vector_bytes(elems).subrange(4, 4 + elems.len() * T::ELEM_WIDTH) == elems_bytes(elems),
{
    let b = vector_bytes(elems);
    lemma_elems_len(elems);
    crate::bytes::lemma_pow256_small();
    crate::bytes::lemma_be_bytes_len(elems.len(), 4);
    crate::bytes::lemma_be_round_trip(elems.len(), 4);
    assert(b.take(4) =~= crate::bytes::be_bytes(elems.len(), 4));
    assert(b.subrange(4, 4 + elems.len() * T::ELEM_WIDTH) =~= elems_bytes(elems));
}

/// The stored form of a number begins with its lowest byte, and what follows
/// is the stored form of the rest.
pub proof fn law_le_bytes(v: nat, w: nat)
    requires
        w > 0,
    ensures
        le_bytes(v, w).len() == w,
        le_bytes(v, w)[0] == v % 256,
        le_bytes(v, w).skip(1) == le_bytes(v / 256, (w - 1) as nat),
        v < crate::bytes::pow256(w) ==> le_value(le_bytes(v, w)) == v,
{
    let all = crate::bytes::be_bytes(v, w);
    let front = crate::bytes::be_bytes(v / 256, (w - 1) as nat);
    crate::bytes::lemma_be_bytes_len(v, w);
    crate::bytes::lemma_be_bytes_len(v / 256, (w - 1) as nat);
    assert(all == front.push((v % 256) as u8));
    assert(all.reverse().skip(1) =~= front.reverse());
    if v < crate::bytes::pow256(w) {
        crate::bytes::lemma_be_round_trip(v, w);
        assert(all.reverse().reverse() =~= all);
    }
}

/// A stored `u32` is the number itself in 4 bytes: what the bytes write,
/// lowest first, is the number.
pub proof fn law_u32_element(a: u32, b: u32)
    ensures
        a.le().len() == 4,
        le_value(a.le()) == a,
        a.le() == b.le() <==> a == b,
{
    crate::bytes::lemma_pow256_small();
    law_le_bytes(a as nat, 4);
    <u32 as VectorElem>::stored_apart(a, b);
}

/// A stored `u64` is the number itself in 8 bytes: what the bytes write,
/// lowest first, is the number.
pub proof fn law_u64_element(a: u64, b: u64)
    ensures
        a.le().len() == 8,
        le_value(a.le()) == a,
        a.le() == b.le() <==> a == b,
{
    crate::bytes::lemma_pow256_small();
    law_le_bytes(a as nat, 8);
    <u64 as VectorElem>::stored_apart(a, b);
}

/// A stored `i32` is two's complement in 4 bytes: what the bytes write,
/// lowest first, is the number, modulo two to the power 32.
pub proof fn law_i32_element(a: i32, b: i32)
    ensures
        a.le().len() == 4,
        a >= 0 ==> le_value(a.le()) == a,
        a < 0 ==> le_value(a.le()) == a + 0x100000000,
        a.le() == b.le() <==> a == b,
{
    crate::bytes::lemma_pow256_small();
    law_le_bytes((if a < 0 {
        (a + 0x100000000) as nat
    } else {
        a as nat
    }), 4);
    <i32 as VectorElem>::stored_apart(a, b);
}

/// A stored `i64` is two's complement in 8 bytes: what the bytes write,
/// lowest first, is the number, modulo two to the power 64.
pub proof fn law_i64_element(a: i64, b: i64)
    ensures
        a.le().len() == 8,
        a >= 0 ==> le_value(a.le()) == a,
        a < 0 ==> le_value(a.le()) == a + 0x10000000000000000,
        a.le() == b.le() <==> a == b,
{
    crate::bytes::lemma_pow256_small();
    law_le_bytes((if a < 0 {
        (a + 0x10000000000000000) as nat
    } else {
        a as nat
    }), 8);
    <i64 as VectorElem>::stored_apart(a, b);
}

/// The numbers of a list stand one after another, in order: each at its
/// place, in its own stored form.
pub proof fn law_elements_in_order<T: VectorElem>(elems: Seq<T>, i: int)
    requires
        0 <= i < elems.len(),
    ensures
        elems_bytes(elems).len() == elems.len() * T::ELEM_WIDTH,
        i * T::ELEM_WIDTH + T::ELEM_WIDTH <= elems.len() * T::ELEM_WIDTH,
        elems_bytes(elems).subrange(i * T::ELEM_WIDTH, i * T::ELEM_WIDTH + T::ELEM_WIDTH)
            == elems[i].le(),
    decreases elems.len(),
{
    let w = T::ELEM_WIDTH as int;
    let n = elems.len() as int;
    let front = elems_bytes(elems.drop_last());
    lemma_elems_len(elems);
    lemma_elems_len(elems.drop_last());
    T::stored_apart(elems[i], elems.last());
    T::stored_apart(elems.last(), elems.last());
    assert(i * w + w == (i + 1) * w) by (nonlinear_arith);
    assert((i + 1) * w <= n * w) by (nonlinear_arith)
        requires
            i + 1 <= n,
            w > 0,
    ;
    assert((n - 1) * w + w == n * w) by (nonlinear_arith);
    if i < n - 1 {
        law_elements_in_order(elems.drop_last(), i);
        assert(elems_bytes(elems).subrange(i * w, i * w + w) =~= front.subrange(i * w, i * w + w));
    } else {
        assert(elems_bytes(elems).subrange(i * w, i * w + w) =~= elems.last().le());
    }
}

} // verus!
