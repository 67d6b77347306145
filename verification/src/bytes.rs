//! Byte strings: the lexicographic order an ordered engine sorts keys by,
//! and big-endian integers, the encoding under which that order is the
//! numeric order.

use vstd::prelude::*;

verus! {

/// `a` sorts strictly before `b`: the first differing byte decides, and a
/// proper prefix sorts before its extensions.
pub open spec fn lex_lt(a: Seq<u8>, b: Seq<u8>) -> bool
    decreases a.len(),
{
    if b.len() == 0 {
        false
    } else if a.len() == 0 {
        true
    } else if a[0] != b[0] {
        a[0] < b[0]
    } else {
        lex_lt(a.drop_first(), b.drop_first())
    }
}

/// `a` sorts before `b` or equals it.
pub open spec fn lex_le(a: Seq<u8>, b: Seq<u8>) -> bool {
    a == b || lex_lt(a, b)
}

/// `p` is a prefix of `s`.
pub open spec fn starts_with(s: Seq<u8>, p: Seq<u8>) -> bool {
    p.len() <= s.len() && s.subrange(0, p.len() as int) == p
}

/// `t` is a suffix of `s`.
pub open spec fn ends_with(s: Seq<u8>, t: Seq<u8>) -> bool {
    t.len() <= s.len() && s.subrange(s.len() - t.len(), s.len() as int) == t
}

/// No string sorts before itself.
pub proof fn lemma_lex_irreflexive(a: Seq<u8>)
    ensures
        !lex_lt(a, a),
    decreases a.len(),
{
    if a.len() > 0 {
        lemma_lex_irreflexive(a.drop_first());
    }
}

/// The order is transitive.
pub proof fn lemma_lex_transitive(a: Seq<u8>, b: Seq<u8>, c: Seq<u8>)
    requires
        lex_lt(a, b),
        lex_lt(b, c),
    ensures
        lex_lt(a, c),
    decreases a.len(),
{
    if a.len() > 0 && b.len() > 0 && c.len() > 0 && a[0] == b[0] && b[0] == c[0] {
        lemma_lex_transitive(a.drop_first(), b.drop_first(), c.drop_first());
    }
}

/// Two different strings are ordered one way or the other.
pub proof fn lemma_lex_total(a: Seq<u8>, b: Seq<u8>)
    ensures
        a == b || lex_lt(a, b) || lex_lt(b, a),
    decreases a.len(),
{
    if a.len() > 0 && b.len() > 0 && a[0] == b[0] {
        lemma_lex_total(a.drop_first(), b.drop_first());
        if a.drop_first() == b.drop_first() {
            assert(a =~= seq![a[0]] + a.drop_first());
            assert(b =~= seq![b[0]] + b.drop_first());
        }
    } else if a.len() == 0 && b.len() == 0 {
        assert(a =~= b);
    }
}

/// `a` before `b` excludes `b` before `a`.
pub proof fn lemma_lex_asymmetric(a: Seq<u8>, b: Seq<u8>)
    requires
        lex_lt(a, b),
    ensures
        !lex_lt(b, a),
        a != b,
{
    if lex_lt(b, a) {
        lemma_lex_transitive(a, b, a);
    }
    lemma_lex_irreflexive(a);
}

/// A weak step followed by a strict one is strict.
pub proof fn lemma_lex_le_lt(a: Seq<u8>, b: Seq<u8>, c: Seq<u8>)
    requires
        lex_le(a, b),
        lex_lt(b, c),
    ensures
        lex_lt(a, c),
{
    if a != b {
        lemma_lex_transitive(a, b, c);
    }
}

/// A shared prefix does not take part in the comparison.
pub proof fn lemma_lex_shared_prefix(p: Seq<u8>, a: Seq<u8>, b: Seq<u8>)
    ensures
        lex_lt(p + a, p + b) == lex_lt(a, b),
    decreases p.len(),
{
    if p.len() == 0 {
        assert(p + a =~= a);
        assert(p + b =~= b);
    } else {
        lemma_lex_shared_prefix(p.drop_first(), a, b);
        assert((p + a).drop_first() =~= p.drop_first() + a);
        assert((p + b).drop_first() =~= p.drop_first() + b);
    }
}

/// Between strings of one length the decision falls inside them, whatever
/// follows.
pub proof fn lemma_lex_extend(a: Seq<u8>, b: Seq<u8>, s: Seq<u8>, t: Seq<u8>)
    requires
        a.len() == b.len(),
        lex_lt(a, b),
    ensures
        lex_lt(a + s, b + t),
    decreases a.len(),
{
    if a.len() > 0 {
        assert((a + s)[0] == a[0]);
        assert((b + t)[0] == b[0]);
        if a[0] == b[0] {
            lemma_lex_extend(a.drop_first(), b.drop_first(), s, t);
            assert((a + s).drop_first() =~= a.drop_first() + s);
            assert((b + t).drop_first() =~= b.drop_first() + t);
        }
    }
}

/// A prefix sorts no later than what it begins.
pub proof fn lemma_lex_prefix_first(p: Seq<u8>, s: Seq<u8>)
    requires
        starts_with(s, p),
    ensures
        lex_le(p, s),
    decreases p.len(),
{
    if p.len() == 0 {
        if s.len() == 0 {
            assert(p =~= s);
        }
    } else {
        assert(s.subrange(0, p.len() as int)[0] == s[0]);
        assert(s.drop_first().subrange(0, p.drop_first().len() as int) =~= s.subrange(
            0,
            p.len() as int,
        ).drop_first());
        lemma_lex_prefix_first(p.drop_first(), s.drop_first());
        if p.drop_first() == s.drop_first() {
            assert(p =~= seq![p[0]] + p.drop_first());
            assert(s =~= seq![s[0]] + s.drop_first());
        }
    }
}

/// Behind a string comes first the string with a zero byte at its end.
pub proof fn lemma_lex_successor(a: Seq<u8>, b: Seq<u8>)
    ensures
        lex_lt(a, b) <==> lex_le(a.push(0u8), b),
    decreases a.len(),
{
    let n = a.push(0u8);
    if a.len() == 0 {
        if b.len() > 0 {
            assert(n.drop_first() =~= Seq::empty());
            assert(lex_lt(n.drop_first(), b.drop_first()) == (b.drop_first().len() > 0));
            if b[0] == 0 && b.drop_first().len() == 0 {
                assert(n =~= b);
            }
        }
    } else if b.len() > 0 && a[0] != b[0] {
        assert(n[0] == a[0]);
    } else if b.len() > 0 {
        lemma_lex_successor(a.drop_first(), b.drop_first());
        assert(n.drop_first() =~= a.drop_first().push(0u8));
        if n.drop_first() == b.drop_first() {
            assert(n =~= seq![n[0]] + n.drop_first());
            assert(b =~= seq![b[0]] + b.drop_first());
        }
    }
}

/// `p + t` starts with `p`, and stripping `p` gives `t` back.
pub proof fn lemma_starts_with_concat(p: Seq<u8>, t: Seq<u8>)
    ensures
        starts_with(p + t, p),
        (p + t).skip(p.len() as int) == t,
{
    assert((p + t).subrange(0, p.len() as int) =~= p);
    assert((p + t).skip(p.len() as int) =~= t);
}

/// What starts with `p` is `p` followed by the stripped rest.
pub proof fn lemma_starts_with_split(s: Seq<u8>, p: Seq<u8>)
    requires
        starts_with(s, p),
    ensures
        s == p + s.skip(p.len() as int),
{
    assert(s =~= s.subrange(0, p.len() as int) + s.skip(p.len() as int));
}

/// Concatenation is associative.
pub proof fn lemma_concat_assoc(a: Seq<u8>, b: Seq<u8>, c: Seq<u8>)
    ensures
        (a + b) + c == a + (b + c),
{
    assert((a + b) + c =~= a + (b + c));
}

/// Whether `a` sorts strictly before `b`.
pub fn bytes_lt(a: &[u8], b: &[u8]) -> (r: bool)
    ensures
        r == lex_lt(a@, b@),
{
    let mut i: usize = 0;
    proof {
        assert(a@.skip(0) =~= a@);
        assert(b@.skip(0) =~= b@);
    }
    while i < a.len() && i < b.len()
        invariant
            i <= a@.len(),
            i <= b@.len(),
            lex_lt(a@, b@) == lex_lt(a@.skip(i as int), b@.skip(i as int)),
        decreases a@.len() - i,
    {
        proof {
            assert(a@.skip(i as int).drop_first() =~= a@.skip(i + 1));
            assert(b@.skip(i as int).drop_first() =~= b@.skip(i + 1));
        }
        if a[i] != b[i] {
            return a[i] < b[i];
        }
        i = i + 1;
    }
    i < b.len()
}

/// Whether `a` and `b` hold the same bytes.
pub fn bytes_eq(a: &[u8], b: &[u8]) -> (r: bool)
    ensures
        r == (a@ == b@),
{
    if a.len() != b.len() {
        return false;
    }
    let mut i: usize = 0;
    while i < a.len()
        invariant
            i <= a@.len(),
            a@.len() == b@.len(),
            forall|j: int| 0 <= j < i ==> a@[j] == b@[j],
        decreases a@.len() - i,
    {
        if a[i] != b[i] {
            return false;
        }
        i = i + 1;
    }
    assert(a@ =~= b@);
    true
}

/// Whether `s` starts with `p`.
pub fn has_prefix(s: &[u8], p: &[u8]) -> (r: bool)
    ensures
        r == starts_with(s@, p@),
{
    if s.len() < p.len() {
        return false;
    }
    bytes_eq(slice_to(s, p.len()), p)
}

/// The first `n` bytes of `s`.
pub fn slice_to(s: &[u8], n: usize) -> (r: &[u8])
    requires
        n <= s@.len(),
    ensures
        r@ == s@.subrange(0, n as int),
{
    vstd::slice::slice_subrange(s, 0, n)
}

/// `s` without its first `n` bytes.
pub fn slice_from(s: &[u8], n: usize) -> (r: &[u8])
    requires
        n <= s@.len(),
    ensures
        r@ == s@.skip(n as int),
{
    let r = vstd::slice::slice_subrange(s, n, s.len());
    assert(r@ =~= s@.skip(n as int));
    r
}

/// An owned copy of `s`.
pub fn to_vec(s: &[u8]) -> (r: Vec<u8>)
    ensures
        r@ == s@,
{
    let mut r: Vec<u8> = Vec::with_capacity(s.len());
    r.extend_from_slice(s);
    assert(r@ =~= s@);
    r
}

/// `a` followed by `b`.
pub fn concat(a: &[u8], b: &[u8]) -> (r: Vec<u8>)
    ensures
        r@ == a@ + b@,
{
    let mut r: Vec<u8> = to_vec(a);
    r.extend_from_slice(b);
    r
}

/// 256 to the power `w`: how many values `w` bytes hold.
pub open spec fn pow256(w: nat) -> nat
    decreases w,
{
    if w == 0 {
        1
    } else {
        256 * pow256((w - 1) as nat)
    }
}

/// The low `w` bytes of `v`, most significant first.
pub open spec fn be_bytes(v: nat, w: nat) -> Seq<u8>
    decreases w,
{
    if w == 0 {
        Seq::empty()
    } else {
        be_bytes(v / 256, (w - 1) as nat).push((v % 256) as u8)
    }
}

/// The number that `s` writes, most significant byte first.
pub open spec fn be_value(s: Seq<u8>) -> nat
    decreases s.len(),
{
    if s.len() == 0 {
        0
    } else {
        be_value(s.drop_last()) * 256 + s.last() as nat
    }
}

pub proof fn lemma_pow256_small()
    ensures
        pow256(0) == 1,
        pow256(1) == 0x100,
        pow256(2) == 0x1_0000,
        pow256(3) == 0x100_0000,
        pow256(4) == 0x1_0000_0000,
        pow256(5) == 0x100_0000_0000,
        pow256(6) == 0x1_0000_0000_0000,
        pow256(7) == 0x100_0000_0000_0000,
        pow256(8) == 0x1_0000_0000_0000_0000,
{
    reveal_with_fuel(pow256, 9);
}

/// `be_bytes` writes exactly `w` bytes.
pub proof fn lemma_be_bytes_len(v: nat, w: nat)
    ensures
        be_bytes(v, w).len() == w,
    decreases w,
{
    if w > 0 {
        lemma_be_bytes_len(v / 256, (w - 1) as nat);
    }
}

/// Reading what `be_bytes` wrote gives the number back when it fits.
pub proof fn lemma_be_round_trip(v: nat, w: nat)
    requires
        v < pow256(w),
    ensures
        be_value(be_bytes(v, w)) == v,
    decreases w,
{
    if w > 0 {
        let s = be_bytes(v, w);
        assert(s.drop_last() =~= be_bytes(v / 256, (w - 1) as nat));
        lemma_be_round_trip(v / 256, (w - 1) as nat);
    }
}

/// Writing what `be_value` read gives the bytes back.
pub proof fn lemma_be_value_round_trip(s: Seq<u8>)
    ensures
        be_bytes(be_value(s), s.len()) == s,
        be_value(s) < pow256(s.len()),
    decreases s.len(),
{
    if s.len() > 0 {
        lemma_be_value_round_trip(s.drop_last());
        let v = be_value(s);
        assert(v / 256 == be_value(s.drop_last()));
        assert(v % 256 == s.last() as nat);
        assert(be_bytes(v, s.len()) =~= s);
    } else {
        assert(be_bytes(0, 0) =~= s);
    }
}

/// Big-endian strings of one width sort as the numbers they write.
pub proof fn lemma_be_order(a: nat, b: nat, w: nat)
    requires
        a < b,
        b < pow256(w),
    ensures
        lex_lt(be_bytes(a, w), be_bytes(b, w)),
    decreases w,
{
    if w > 0 {
        let v = (w - 1) as nat;
        let pa = be_bytes(a / 256, v);
        let pb = be_bytes(b / 256, v);
        let la = seq![(a % 256) as u8];
        let lb = seq![(b % 256) as u8];
        lemma_be_bytes_len(a / 256, v);
        lemma_be_bytes_len(b / 256, v);
        assert(be_bytes(a, w) =~= pa + la);
        assert(be_bytes(b, w) =~= pb + lb);
        if a / 256 < b / 256 {
            lemma_be_order(a / 256, b / 256, v);
            lemma_lex_extend(pa, pb, la, lb);
        } else {
            assert(a / 256 == b / 256);
            lemma_lex_shared_prefix(pa, la, lb);
            assert(lex_lt(la, lb));
        }
    }
}

/// Big-endian bytes of one width sort as the numbers that they write.
pub proof fn lemma_be_sorts(a: nat, b: nat, w: nat)
    requires
        a < pow256(w),
        b < pow256(w),
    ensures
        lex_lt(be_bytes(a, w), be_bytes(b, w)) <==> a < b,
{
    if a < b {
        lemma_be_order(a, b, w);
    } else if b < a {
        lemma_be_order(b, a, w);
        lemma_lex_asymmetric(
            be_bytes(b, w),
            be_bytes(a, w),
        );
    } else {
        lemma_lex_irreflexive(be_bytes(a, w));
    }
}

/// Different numbers of one width have different big-endian strings.
pub proof fn lemma_be_injective(a: nat, b: nat, w: nat)
    requires
        a < pow256(w),
        b < pow256(w),
        be_bytes(a, w) == be_bytes(b, w),
    ensures
        a == b,
{
    lemma_be_round_trip(a, w);
    lemma_be_round_trip(b, w);
}

/// Appends the low `w` bytes of `v`, most significant first.
pub fn push_be(buf: &mut Vec<u8>, v: u64, w: usize)
    ensures
        final(buf)@ == old(buf)@ + be_bytes(v as nat, w as nat),
    decreases w,
{
    if w > 0 {
        push_be(buf, v / 256, w - 1);
        buf.push((v % 256) as u8);
        assert(buf@ =~= old(buf)@ + be_bytes(v as nat, w as nat));
    } else {
        assert(buf@ =~= old(buf)@ + be_bytes(v as nat, w as nat));
    }
}

/// The low `w` bytes of `v`, most significant first.
pub fn be_vec(v: u64, w: usize) -> (r: Vec<u8>)
    ensures
        r@ == be_bytes(v as nat, w as nat),
{
    let mut r: Vec<u8> = Vec::with_capacity(w);
    push_be(&mut r, v, w);
    assert(r@ =~= be_bytes(v as nat, w as nat));
    r
}

/// The number that `b` writes, most significant byte first.
pub fn read_be(b: &[u8]) -> (r: u64)
    requires
        b@.len() <= 8,
    ensures
        r == be_value(b@),
{
    let mut acc: u64 = 0;
    let mut i: usize = 0;
    proof {
        assert(b@.subrange(0, 0) =~= Seq::<u8>::empty());
    }
    while i < b.len()
        invariant
            i <= b@.len() <= 8,
            acc == be_value(b@.subrange(0, i as int)),
        decreases b@.len() - i,
    {
        proof {
            let t = b@.subrange(0, i as int);
            let u = b@.subrange(0, i + 1);
            assert(u.drop_last() =~= t);
            lemma_be_value_round_trip(t);
            lemma_be_value_round_trip(u);
            lemma_pow256_small();
            lemma_pow256_monotone(u.len(), 8);
        }
        acc = acc * 256 + b[i] as u64;
        i = i + 1;
    }
    proof {
        assert(b@.subrange(0, b@.len() as int) =~= b@);
    }
    acc
}

pub proof fn lemma_pow256_monotone(a: nat, b: nat)
    requires
        a <= b,
    ensures
        pow256(a) <= pow256(b),
    decreases b,
{
    if a < b {
        lemma_pow256_monotone(a, (b - 1) as nat);
    }
}

pub proof fn lemma_pow256_add(a: nat, b: nat)
    ensures
        pow256(a + b) == pow256(a) * pow256(b),
    decreases b,
{
    let x = pow256(a);
    if b == 0 {
        let p = pow256(0);
        assert(x * p == x) by (nonlinear_arith)
            requires
                p == 1,
        ;
    } else {
        lemma_pow256_add(a, (b - 1) as nat);
        let y = pow256((b - 1) as nat);
        assert(x * (256 * y) == 256 * (x * y)) by (nonlinear_arith);
    }
}

/// The number of a concatenation.
pub proof fn lemma_be_value_concat(a: Seq<u8>, b: Seq<u8>)
    ensures
        be_value(a + b) == be_value(a) * pow256(b.len()) + be_value(b),
    decreases b.len(),
{
    if b.len() == 0 {
        assert(a + b =~= a);
        let p = pow256(0);
        assert(be_value(a) * p == be_value(a)) by (nonlinear_arith)
            requires
                p == 1,
        ;
    } else {
        lemma_be_value_concat(a, b.drop_last());
        assert((a + b).drop_last() =~= a + b.drop_last());
        assert((a + b).last() == b.last());
        let p = pow256((b.len() - 1) as nat);
        assert(be_value(a) * (256 * p) == 256 * (be_value(a) * p)) by (nonlinear_arith);
    }
}

/// The bytes of a number split at a byte boundary.
pub proof fn lemma_be_bytes_concat(v: nat, u: nat, m: nat, n: nat)
    requires
        u < pow256(n),
    ensures
        be_bytes(v * pow256(n) + u, m + n) == be_bytes(v, m) + be_bytes(u, n),
    decreases n,
{
    if n == 0 {
        let p = pow256(0);
        assert(v * p == v) by (nonlinear_arith)
            requires
                p == 1,
        ;
        assert(be_bytes(v, m) + be_bytes(u, 0) =~= be_bytes(v, m));
    } else {
        let p = pow256((n - 1) as nat);
        assert(v * (256 * p) == 256 * (v * p)) by (nonlinear_arith);
        let x = v * pow256(n) + u;
        assert(x / 256 == v * p + u / 256);
        assert(x % 256 == u % 256);
        lemma_be_bytes_concat(v, u / 256, m, (n - 1) as nat);
        assert(be_bytes(x, m + n) =~= be_bytes(v, m) + be_bytes(u, n));
    }
}

/// The first of the two bytes of a number below `FF00` is not `FF`.
pub proof fn lemma_high_byte(n: nat)
    requires
        n < 0xFF00,
    ensures
        be_bytes(n, 2).len() == 2,
        be_bytes(n, 2)[0] != 0xFF,
{
    let b = be_bytes(n, 2);
    lemma_be_bytes_len(n, 2);
    lemma_pow256_small();
    lemma_be_round_trip(n, 2);
    reveal_with_fuel(be_value, 3);
    assert(b.drop_last().drop_last() =~= Seq::empty());
    assert(b.drop_last().last() == b[0]);
    assert(be_value(b) == 256 * (b[0] as nat) + b[1] as nat);
}

} // verus!
