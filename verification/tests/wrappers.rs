//! Field wrappers: bytes, numbers of variable length, tags, optional and
//! fixed-point fields.

use okm::bytes::bytes_lt;
use okm::model::wrappers::bytes::Bytes;
use okm::model::wrappers::obj_value::ObjValueType;
use okm::model::wrappers::varint::{VarInt, VarIntEnc};
use okm::model::wrappers::vector::Vector;
use okm::reverse::{Reverse, Reversible};
use okm::wrappers::enum_tag::{enum_from_name, from_tag, tag, Enum, EnumTag};
use okm::wrappers::offset::{offset_decode, offset_encode};
use okm::wrappers::optional::Optional;
use okm::wrappers::quant::{wire_to_be_bytes, Quant};
use okm::wrappers::ref_mod::Ref;
use okm::wrappers::refs::Refs;
use okm::wrappers::varint::VarInt as Leb;
use okm::wrappers::varint::VarIntEnc as LebEnc;
use okm::wrappers::wire::{put_len, put_u64, take_len, take_u64};

#[test]
fn deref_and_conversions() {
    let b = Bytes::new(vec![1, 2, 3]);
    assert_eq!(b.len(), 3);
    assert!(!b.is_empty());
    assert_eq!(&b[..], &[1, 2, 3]);
    assert_eq!(Bytes::from(&[9u8][..]), Bytes(vec![9]));
    assert_eq!(Bytes::default(), Bytes(vec![]));
}

#[test]
fn bytes_from_vec_keeps_them() {
    assert_eq!(Bytes::from(vec![4u8, 5]), Bytes(vec![4, 5]));
    assert!(Bytes::new(vec![]).is_empty());
}

#[test]
fn tags_round_trip_and_unknown_is_none() {
    for b in 0u8..=8 {
        let t = ObjValueType::from_byte(b).expect("0-8 are defined");
        assert_eq!(t.to_byte(), b);
    }
    assert_eq!(ObjValueType::from_byte(9), None);
    assert_eq!(ObjValueType::from_byte(0xFF), None);
}

#[test]
fn tags_are_stable_contract() {
    assert_eq!(ObjValueType::UInt.to_byte(), 0);
    assert_eq!(ObjValueType::F64.to_byte(), 1);
    assert_eq!(ObjValueType::Str.to_byte(), 2);
    assert_eq!(ObjValueType::Bytes.to_byte(), 3);
    assert_eq!(ObjValueType::Bool.to_byte(), 4);
    assert_eq!(ObjValueType::Null.to_byte(), 5);
    assert_eq!(ObjValueType::Array.to_byte(), 6);
    assert_eq!(ObjValueType::Obj.to_byte(), 7);
    assert_eq!(ObjValueType::Int.to_byte(), 8);
}

#[test]
fn encoding_shapes() {
    assert_eq!(VarInt::<u32>(0).encode(), vec![0x00]);
    assert_eq!(VarInt::<u32>(127).encode(), vec![0x7F]);
    assert_eq!(VarInt::<u32>(128).encode(), vec![0x80, 0x80]);
    assert_eq!(VarInt::<u32>(300).encode().len(), 2);
    assert_eq!(VarInt::<u64>(u64::MAX).encode().len(), 9);
}

#[test]
fn round_trip_domain_edges() {
    for v in [0u64, 1, 127, 128, 16_383, 16_384, u32::MAX as u64, u64::MAX] {
        assert_eq!(VarInt::<u64>::decode(&VarInt(v).encode()).0, v);
    }
    for v in [0u16, 127, 128, u16::MAX] {
        assert_eq!(VarInt::<u16>::decode(&VarInt(v).encode()).0, v);
    }
    for v in [0u32, 127, 128, u32::MAX] {
        assert_eq!(VarInt::<u32>::decode(&VarInt(v).encode()).0, v);
    }
}

#[test]
fn byte_order_equals_value_order() {
    let values: Vec<u64> = vec![
        0, 1, 42, 126, 127, 128, 129, 2_097_151, 2_097_152, 268_435_455,
        268_435_456, u32::MAX as u64, u32::MAX as u64 + 1, u64::MAX - 1, u64::MAX,
    ];
    let mut pairs: Vec<(u64, Vec<u8>)> = values
        .iter()
        .map(|v| (*v, VarInt::<u64>(*v).encode()))
        .collect();
    pairs.sort_by(|a, b| a.1.cmp(&b.1));
    let sorted_by_bytes: Vec<u64> = pairs.into_iter().map(|(v, _)| v).collect();
    let mut sorted_by_value = values.clone();
    sorted_by_value.sort_unstable();
    assert_eq!(sorted_by_bytes, sorted_by_value);
}

#[test]
fn decode_reports_bytes_consumed() {
    let enc = VarInt::<u32>(300u32).encode();
    let (v, n) = <u32 as VarIntEnc>::varint_decode(&enc);
    assert_eq!(v, 300);
    assert_eq!(n, enc.len());
}

#[test]
fn ordered_varint_cuts_dynamic_numbers() {
    assert_eq!(VarInt::<u16>::from_dyn(0x1_0005).0, 5);
}

#[derive(Clone, Copy, PartialEq, Debug)]
enum State {
    Active,
    Suspended,
    Closed,
}

impl EnumTag for State {
    fn table() -> vstd::seq::Seq<(Self, u8)> {
        unreachable!()
    }

    fn named(_v: Self) -> vstd::seq::Seq<char> {
        unreachable!()
    }

    fn complete(_v: Self) {}

    fn tags() -> Vec<(Self, u8)> {
        vec![(State::Active, 0), (State::Suspended, 1), (State::Closed, 9)]
    }

    fn same(a: Self, b: Self) -> bool {
        a == b
    }

    fn name(v: Self) -> String {
        format!("{v:?}")
    }
}

#[test]
fn tag_round_trip_with_gaps() {
    for s in [State::Active, State::Suspended, State::Closed] {
        assert_eq!(Enum::<State>::decode(&Enum(s).encode()).0, s);
    }
    assert_eq!(Enum(State::Closed).encode(), vec![9]);
}

#[test]
fn tags_and_names_find_variants() {
    assert_eq!(tag(State::Suspended), 1);
    assert_eq!(from_tag::<State>(9), State::Closed);
    assert_eq!(enum_from_name::<State>("Closed"), Some(State::Closed));
    assert_eq!(enum_from_name::<State>("Gone"), None);
    assert_eq!(Enum::<State>::default().0, State::Active);
}

#[test]
fn none_and_some_zero_are_byte_distinct() {
    let mut none = Vec::new();
    Optional::<u64>(None).enc_wire(&mut none);
    assert_eq!(none.len(), 9);
    assert_eq!(none[0], 0);
    assert!(none[1..].iter().all(|&b| b == 0));

    let mut zero = Vec::new();
    Optional::<u64>(Some(0)).enc_wire(&mut zero);
    assert_eq!(zero.len(), 9);
    assert_eq!(zero[0], 1);
    assert!(zero[1..].iter().all(|&b| b == 0));

    assert_ne!(none[0], zero[0]);
}

#[test]
fn round_trips() {
    for v in [None, Some(0u32), Some(u32::MAX)] {
        let mut buf = Vec::new();
        Optional::<u32>(v).enc_wire(&mut buf);
        let back = Optional::<u32>::dec_wire(buf[0], &buf[1..]);
        assert_eq!(back, Optional::<u32>(v));
        assert_eq!(buf.len(), 5);
    }
    let mut buf = Vec::new();
    Optional::<[u8; 4]>(Some([1, 2, 3, 4])).enc_wire(&mut buf);
    let back = Optional::<[u8; 4]>::dec_wire(buf[0], &buf[1..]);
    assert_eq!(back, Optional::<[u8; 4]>(Some([1, 2, 3, 4])));
}

#[test]
fn default_is_none() {
    assert_eq!(Optional::<u16>::default(), Optional(None));
}

fn fixed(v: f64, places: i32) -> i64 {
    (v * 10f64.powi(places)).round() as i64
}

fn float(w: i64, places: i32) -> f64 {
    w as f64 / 10f64.powi(places)
}

type Q3 = Quant<3>;

#[test]
fn quantize_round_trip() {
    for v in [0.0, 1.5, -2.25, 123.456, -0.0005, 1e9] {
        let back = float(Q3::decode(&Q3::new(fixed(v, 3)).encode()).0, 3);
        assert_eq!(back, (v * 1000.0).round() / 1000.0);
    }
}

#[test]
fn wire_is_stable_width_and_order_preserving() {
    let lo = Q3::new(fixed(1.5, 3)).encode();
    let hi = Q3::new(fixed(2.5, 3)).encode();
    assert_eq!(lo.len(), 8);
    assert!(lo < hi, "fixed-point keeps ascending order on BE bytes");
}

#[test]
fn reverse_composition_descends_float_order() {
    let lo = Quant::<3>::new(fixed(-1.5, 3)).wire();
    let hi = Quant::<3>::new(fixed(9.75, 3)).wire();
    let lo_enc = Reverse(lo).encode();
    let hi_enc = Reverse(hi).encode();
    assert!(lo_enc > hi_enc);
}

#[test]
fn fixed_point_bytes_are_two_complement() {
    assert_eq!(wire_to_be_bytes(-1), vec![0xFF; 8]);
    assert_eq!(wire_to_be_bytes(1500), vec![0, 0, 0, 0, 0, 0, 0x05, 0xDC]);
    assert_eq!(Q3::decode(&wire_to_be_bytes(i64::MIN)).0, i64::MIN);
}

#[test]
fn leb128_shapes() {
    assert_eq!(Leb::<u32>(0).encode(), vec![0x00]);
    assert_eq!(Leb::<u32>(127).encode(), vec![0x7F]);
    assert_eq!(Leb::<u32>(128).encode(), vec![0x80, 0x01]);
    assert_eq!(Leb::<u32>(300).encode(), vec![0xAC, 0x02]);
    assert_eq!(Leb::<u64>(u64::MAX).encode().len(), 10);
}

#[test]
fn varint_round_trip_domain_edges() {
    for v in [0u64, 1, 127, 128, 16_383, u32::MAX as u64, u64::MAX] {
        assert_eq!(Leb::<u64>::decode(&Leb(v).encode()).0, v);
    }
    for v in [0u16, u16::MAX] {
        assert_eq!(Leb::<u16>::decode(&Leb(v).encode()).0, v);
    }
}

#[test]
fn varint_decode_reports_bytes_consumed() {
    let (v, n) = <u32 as LebEnc>::varint_decode(&[0xAC, 0x02]);
    assert_eq!((v, n), (300, 2));
}

#[test]
fn reversed_numbers_descend() {
    assert_eq!(Reverse(0u16).encode(), vec![0xFF, 0xFF]);
    assert_eq!(Reverse(1u8).encode(), vec![0xFE]);
    for (a, b) in [(i32::MIN, -5), (-5, 0), (0, 7), (7, i32::MAX)] {
        assert!(bytes_lt(&Reverse(b).encode(), &Reverse(a).encode()));
        assert_eq!(Reverse::<i32>::decode(&Reverse(a).encode()).0, a);
    }
    assert_eq!(u64::rev_decode(&9u64.rev_encode()), 9);
}

#[test]
fn offsets_count_from_their_base() {
    assert_eq!(offset_encode(1_000_007, 1_000_000), vec![0, 0, 0, 7]);
    assert_eq!(offset_decode(&[0, 0, 0, 7], 1_000_000), 1_000_007);
    assert_eq!(offset_decode(&offset_encode(-3, -10), -10), -3);
}

#[test]
fn wire_numbers_announce_their_width() {
    for v in [0u64, 63, 64, 0x3FFF, 0x4000, u32::MAX as u64, u64::MAX] {
        let mut buf = Vec::new();
        put_u64(&mut buf, v);
        assert_eq!(take_u64(&buf), Some((v, buf.len())));
        let short = take_u64(&buf[..buf.len() - 1]);
        assert_eq!(short, None);
    }
    let mut buf = Vec::new();
    put_len(&mut buf, 5);
    assert_eq!(buf, vec![5]);
    assert_eq!(take_len(&buf), Some((5, 1)));
}

#[test]
fn vectors_are_little_endian() {
    let v = Vector::new(vec![1u32, 0x0102_0304]);
    let bytes = v.encode_payload();
    assert_eq!(bytes[bytes.len() - 8..], [1, 0, 0, 0, 4, 3, 2, 1]);
    assert_eq!(Vector::<u32>::decode_payload(&bytes).elems, vec![1, 0x0102_0304]);
    assert!(Vector::<i64>::default().is_empty());
    let w = Vector::new(vec![-2i64]);
    assert_eq!(Vector::<i64>::decode_payload(&w.encode_payload()).elems, vec![-2]);
}

#[test]
fn references_hold_keys_and_documents() {
    let r: Ref<String, u32> = Ref::own(7, "doc".to_string());
    assert_eq!(r.encode_key(), vec![0, 0, 0, 7]);
    assert_eq!(r.value.as_deref(), Some("doc"));
    assert!(Ref::<String, u32>::ref_key(7).value.is_none());
    let rs: Refs<String, u32> = Refs::own_all(vec![1, 2], vec!["a".to_string(), "b".to_string()]);
    assert_eq!(rs.keys, vec![1, 2]);
    assert_eq!(rs.values[1].as_deref(), Some("b"));
    let pairs: Refs<String, u32> = Refs::from_pairs(vec![(3, None)]);
    assert_eq!(pairs.keys, vec![3]);
    assert!(pairs.values[0].is_none());
    assert_eq!(Refs::<String, u32>::new(vec![4, 5]).values.len(), 2);
}
