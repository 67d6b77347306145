//! Text: the byte order of strings, decimal numbers, and strings from bytes.

use vstd::prelude::*;
use vstd::string::StringExecFns;

use crate::bytes::{bytes_eq, bytes_lt};

verus! {

/// `a` sorts strictly before `b`: strings sort by their UTF-8 bytes.
pub open spec fn name_lt(a: Seq<char>, b: Seq<char>) -> bool {
    crate::bytes::lex_lt(vstd::utf8::encode_utf8(a), vstd::utf8::encode_utf8(b))
}

/// Two strings with the same bytes are the same string.
pub proof fn lemma_utf8_injective(a: Seq<char>, b: Seq<char>)
    requires
        vstd::utf8::encode_utf8(a) == vstd::utf8::encode_utf8(b),
    ensures
        a == b,
{
    broadcast use vstd::utf8::encode_utf8_decode_utf8;

    assert(vstd::utf8::decode_utf8(vstd::utf8::encode_utf8(a)) == a);
    assert(vstd::utf8::decode_utf8(vstd::utf8::encode_utf8(b)) == b);
}

/// Two different strings are ordered one way or the other, never both.
pub proof fn lemma_name_order(a: Seq<char>, b: Seq<char>)
    ensures
        a == b || name_lt(a, b) || name_lt(b, a),
        a == b ==> !name_lt(a, b),
        name_lt(a, b) ==> !name_lt(b, a),
{
    let x = vstd::utf8::encode_utf8(a);
    let y = vstd::utf8::encode_utf8(b);
    crate::bytes::lemma_lex_total(x, y);
    if x == y {
        lemma_utf8_injective(a, b);
    }
    crate::bytes::lemma_lex_irreflexive(x);
    if name_lt(a, b) {
        crate::bytes::lemma_lex_asymmetric(x, y);
    }
}

/// The order of strings is transitive.
pub proof fn lemma_name_transitive(a: Seq<char>, b: Seq<char>, c: Seq<char>)
    requires
        name_lt(a, b),
        name_lt(b, c),
    ensures
        name_lt(a, c),
{
    crate::bytes::lemma_lex_transitive(
        vstd::utf8::encode_utf8(a),
        vstd::utf8::encode_utf8(b),
        vstd::utf8::encode_utf8(c),
    );
}

/// Whether `a` sorts strictly before `b`.
pub fn str_lt(a: &str, b: &str) -> (r: bool)
    ensures
        r == name_lt(a@, b@),
{
    bytes_lt(a.as_bytes(), b.as_bytes())
}

/// Whether `a` and `b` are the same string.
pub fn str_eq(a: &str, b: &str) -> (r: bool)
    ensures
        r == (a@ == b@),
{
    let r = bytes_eq(a.as_bytes(), b.as_bytes());
    proof {
        if r {
            lemma_utf8_injective(a@, b@);
        }
    }
    r
}

/// The string whose UTF-8 bytes are `b`: `String::from_utf8`, which fails
/// exactly when `b` is not valid UTF-8.
#[verifier::external_body]
pub(crate) fn utf8_string(b: &[u8]) -> (r: Option<String>)
    ensures
        r is Some <==> vstd::utf8::valid_utf8(b@),
        r matches Some(s) ==> s@ == vstd::utf8::decode_utf8(b@),
{
    String::from_utf8(b.to_vec()).ok()
}

/// The digit character of `d`.
pub open spec fn digit_char(d: nat) -> char {
    (d + 48) as char
}

/// `n` in decimal.
pub open spec fn decimal(n: nat) -> Seq<char>
    decreases n,
{
    if n < 10 {
        seq![digit_char(n)]
    } else {
        decimal(n / 10).push(digit_char(n % 10))
    }
}

/// The digit of `d` as a string.
fn digit_str(d: u64) -> (r: &'static str)
    requires
        d < 10,
    ensures
        r@ == seq![digit_char(d as nat)],
{
    proof {
        reveal_strlit("0");
        reveal_strlit("1");
        reveal_strlit("2");
        reveal_strlit("3");
        reveal_strlit("4");
        reveal_strlit("5");
        reveal_strlit("6");
        reveal_strlit("7");
        reveal_strlit("8");
        reveal_strlit("9");
    }
    let r: &'static str = match d {
        0 => "0",
        1 => "1",
        2 => "2",
        3 => "3",
        4 => "4",
        5 => "5",
        6 => "6",
        7 => "7",
        8 => "8",
        _ => "9",
    };
    assert(r@ =~= seq![digit_char(d as nat)]);
    r
}

/// `n` in decimal.
pub fn decimal_string(n: u64) -> (r: String)
    ensures
        r@ == decimal(n as nat),
    decreases n,
{
    if n < 10 {
        String::from_str(digit_str(n))
    } else {
        let mut s = decimal_string(n / 10);
        s.append(digit_str(n % 10));
        assert(s@ =~= decimal(n as nat));
        s
    }
}

/// `n` in decimal, with a minus sign if it is negative.
pub open spec fn signed_decimal(n: int) -> Seq<char> {
    if n < 0 {
        "-"@ + decimal((-n) as nat)
    } else {
        decimal(n as nat)
    }
}

/// `n` in decimal, with a minus sign if it is negative.
pub fn signed_string(n: i64) -> (r: String)
    ensures
        r@ == signed_decimal(n as int),
{
    if n < 0 {
        let size: u64 = ((-(n + 1)) as u64) + 1;
        let mut s = String::from_str("-");
        s.append(decimal_string(size).as_str());
        s
    } else {
        decimal_string(n as u64)
    }
}

/// The number that decimal digits write.
pub open spec fn digits_value(s: Seq<char>) -> nat
    decreases s.len(),
{
    if s.len() == 0 {
        0
    } else {
        (digits_value(s.drop_last()) * 10 + (s.last() as int - '0' as int)) as nat
    }
}

/// A number in decimal is made of digits only, which write that number, and
/// only zero begins with a zero.
pub proof fn law_decimal_reads(n: nat)
    ensures
        decimal(n).len() > 0,
        forall|i: int| 0 <= i < decimal(n).len() ==> '0' <= #[trigger] decimal(n)[i] <= '9',
        digits_value(decimal(n)) == n,
        decimal(n)[0] == '0' <==> n == 0,
    decreases n,
{
    let s = decimal(n);
    if n < 10 {
        assert(s.drop_last() =~= Seq::empty());
        assert(digits_value(s.drop_last()) == 0);
        assert(s.last() == digit_char(n));
    } else {
        law_decimal_reads(n / 10);
        assert(s.drop_last() =~= decimal(n / 10));
        assert(s.last() == digit_char(n % 10));
        assert(s[0] == decimal(n / 10)[0]);
        assert forall|i: int| 0 <= i < s.len() implies '0' <= #[trigger] s[i] <= '9' by {
            if i < s.len() - 1 {
                assert(s[i] == decimal(n / 10)[i]);
            }
        }
    }
}

/// No two numbers are written alike in decimal, with a sign or without.
pub proof fn law_decimal_apart(a: int, b: int)
    ensures
        signed_decimal(a) == signed_decimal(b) <==> a == b,
        signed_decimal(a)[0] == '-' <==> a < 0,
        a < 0 ==> digits_value(signed_decimal(a).skip(1)) == -a,
        a >= 0 ==> digits_value(signed_decimal(a)) == a,
{
    reveal_strlit("-");
    lemma_signed(a);
    lemma_signed(b);
    if a < 0 {
        assert(signed_decimal(a).skip(1) =~= decimal((-a) as nat));
    }
    if b < 0 {
        assert(signed_decimal(b).skip(1) =~= decimal((-b) as nat));
    }
}

proof fn lemma_signed(a: int)
    ensures
        a < 0 ==> digits_value(decimal((-a) as nat)) == -a && signed_decimal(a)[0] == '-',
        a >= 0 ==> digits_value(decimal(a as nat)) == a && signed_decimal(a)[0] != '-',
{
    reveal_strlit("-");
    if a < 0 {
        law_decimal_reads((-a) as nat);
    } else {
        law_decimal_reads(a as nat);
        assert('0' <= decimal(a as nat)[0]);
    }
}

} // verus!
