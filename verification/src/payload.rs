//! The layout of a document payload: a header, the fixed-width fields, then
//! a frame for each field of variable length.
//!
//! ```text
//! [version u8][hot length u16 BE][hot segment][tag u8][length u32 BE][value]…
//! ```
//!
//! Fields are only ever added at the end of their segment, so payloads of an
//! older layout lack fields and never hold them elsewhere.

use vstd::prelude::*;

use crate::bytes::{push_be, read_be, slice_from, slice_to, to_vec};

verus! {

/// Bytes of the payload header.
pub const HEADER_LEN: usize = 3;

/// The frame of a field of variable length.
pub open spec fn cold_frame(tag: u8, value: Seq<u8>) -> Seq<u8> {
    seq![tag] + crate::bytes::be_bytes(value.len(), 4) + value
}

/// The frames of fields of variable length.
pub open spec fn cold_bytes(fields: Seq<(u8, Seq<u8>)>) -> Seq<u8>
    decreases fields.len(),
{
    if fields.len() == 0 {
        Seq::empty()
    } else {
        cold_frame(fields[0].0, fields[0].1) + cold_bytes(fields.drop_first())
    }
}

/// A payload.
pub open spec fn payload_bytes(version: u8, hot: Seq<u8>, cold: Seq<(u8, Seq<u8>)>) -> Seq<u8> {
    seq![version] + crate::bytes::be_bytes(hot.len(), 2) + hot + cold_bytes(cold)
}

/// The fields that frames hold. `None` when a frame is cut short.
pub open spec fn cold_fields(b: Seq<u8>) -> Option<Seq<(u8, Seq<u8>)>>
    decreases b.len(),
{
    if b.len() == 0 {
        Some(Seq::empty())
    } else if b.len() < 5 {
        None
    } else {
        let n = crate::bytes::be_value(b.subrange(1, 5));
        if 5 + n > b.len() {
            None
        } else {
            match cold_fields(b.skip(5 + n as int)) {
                None => None,
                Some(rest) => Some(seq![(b[0], b.subrange(5, 5 + n as int))] + rest),
            }
        }
    }
}

/// The fields of the whole frames at the front, up to the first that is cut
/// short.
pub open spec fn whole_frames(b: Seq<u8>) -> Seq<(u8, Seq<u8>)>
    decreases b.len(),
{
    if b.len() < 5 {
        Seq::empty()
    } else {
        let n = crate::bytes::be_value(b.subrange(1, 5));
        if 5 + n > b.len() {
            Seq::empty()
        } else {
            seq![(b[0], b.subrange(5, 5 + n as int))] + whole_frames(b.skip(5 + n as int))
        }
    }
}

/// Where no frame is cut short, the whole frames are all.
pub proof fn lemma_whole_frames(b: Seq<u8>)
    requires
        cold_fields(b) is Some,
    ensures
        whole_frames(b) == cold_fields(b)->0,
    decreases b.len(),
{
    if b.len() > 0 {
        let n = crate::bytes::be_value(b.subrange(1, 5));
        lemma_whole_frames(b.skip(5 + n as int));
    }
}

/// The value of the first field with a tag.
pub open spec fn cold_find(fields: Seq<(u8, Seq<u8>)>, tag: u8) -> Option<Seq<u8>>
    decreases fields.len(),
{
    if fields.len() == 0 {
        None
    } else if fields[0].0 == tag {
        Some(fields[0].1)
    } else {
        cold_find(fields.drop_first(), tag)
    }
}

/// Bytes of the hot segment, as the header tells them.
pub open spec fn hot_len(b: Seq<u8>) -> nat {
    crate::bytes::be_value(b.subrange(1, 3))
}

/// A payload whose segments are whole.
pub open spec fn well_formed(b: Seq<u8>) -> bool {
    &&& b.len() >= HEADER_LEN
    &&& HEADER_LEN + hot_len(b) <= b.len()
    &&& cold_fields(b.skip(HEADER_LEN + hot_len(b) as int)) is Some
}

/// The hot segment of a payload.
pub open spec fn hot_of(b: Seq<u8>) -> Seq<u8> {
    b.subrange(HEADER_LEN as int, HEADER_LEN + hot_len(b) as int)
}

/// The fields of variable length of a payload.
pub open spec fn cold_of(b: Seq<u8>) -> Seq<(u8, Seq<u8>)> {
    cold_fields(b.skip(HEADER_LEN + hot_len(b) as int))->0
}

/// Frames read back as the fields they were written from.
pub proof fn law_cold_round_trip(fields: Seq<(u8, Seq<u8>)>)
    requires
        forall|i: int| 0 <= i < fields.len() ==> (#[trigger] fields[i]).1.len() <= u32::MAX,
    ensures
        cold_fields(cold_bytes(fields)) == Some(fields),
    decreases fields.len(),
{
    if fields.len() == 0 {
        assert(fields =~= Seq::empty());
    } else {
        let t = fields.drop_first();
        assert forall|i: int| 0 <= i < t.len() implies (#[trigger] t[i]).1.len() <= u32::MAX by {
            assert(t[i] == fields[i + 1]);
        }
        law_cold_round_trip(t);
        let (tag, v) = fields[0];
        let n = v.len();
        let b = cold_bytes(fields);
        assert(fields[0].1.len() <= u32::MAX);
        crate::bytes::lemma_pow256_small();
        crate::bytes::lemma_be_bytes_len(n, 4);
        crate::bytes::lemma_be_round_trip(n, 4);
        assert(b.subrange(1, 5) =~= crate::bytes::be_bytes(n, 4));
        assert(b.subrange(5, 5 + n as int) =~= v);
        assert(b.skip(5 + n as int) =~= cold_bytes(t));
        assert(seq![(tag, v)] + t =~= fields);
    }
}

/// A payload reads back as the segments it was written from.
pub proof fn law_payload_round_trip(version: u8, hot: Seq<u8>, cold: Seq<(u8, Seq<u8>)>)
    requires
        hot.len() <= u16::MAX,
        forall|i: int| 0 <= i < cold.len() ==> (#[trigger] cold[i]).1.len() <= u32::MAX,
    ensures
        well_formed(payload_bytes(version, hot, cold)),
        payload_bytes(version, hot, cold)[0] == version,
        hot_of(payload_bytes(version, hot, cold)) == hot,
        cold_of(payload_bytes(version, hot, cold)) == cold,
{
    let b = payload_bytes(version, hot, cold);
    let n = hot.len();
    crate::bytes::lemma_pow256_small();
    crate::bytes::lemma_be_bytes_len(n, 2);
    crate::bytes::lemma_be_round_trip(n, 2);
    assert(b.subrange(1, 3) =~= crate::bytes::be_bytes(n, 2));
    assert(b.subrange(3, 3 + n as int) =~= hot);
    assert(b.skip(3 + n as int) =~= cold_bytes(cold));
    law_cold_round_trip(cold);
}

/// Begins a payload: the header and the hot segment.
pub fn start_payload(version: u8, hot: &[u8]) -> (r: Vec<u8>)
    requires
        hot@.len() <= u16::MAX,
    ensures
        r@ == seq![version] + crate::bytes::be_bytes(hot@.len(), 2) + hot@,
{
    let mut r: Vec<u8> = Vec::new();
    r.push(version);
    push_be(&mut r, hot.len() as u64, 2);
    r.extend_from_slice(hot);
    assert(r@ =~= seq![version] + crate::bytes::be_bytes(hot@.len(), 2) + hot@);
    r
}

/// Appends the frame of a field of variable length.
pub fn push_cold(buf: &mut Vec<u8>, tag: u8, value: &[u8])
    requires
        value@.len() <= u32::MAX,
    ensures
        final(buf)@ == old(buf)@ + cold_frame(tag, value@),
{
    buf.push(tag);
    push_be(buf, value.len() as u64, 4);
    buf.extend_from_slice(value);
    assert(buf@ =~= old(buf)@ + cold_frame(tag, value@));
}

/// One more frame behind others.
pub proof fn lemma_cold_push(fields: Seq<(u8, Seq<u8>)>, f: (u8, Seq<u8>))
    ensures
        cold_bytes(fields.push(f)) == cold_bytes(fields) + cold_frame(f.0, f.1),
    decreases fields.len(),
{
    let all = fields.push(f);
    if fields.len() == 0 {
        assert(all.drop_first() =~= Seq::empty());
        assert(cold_bytes(all.drop_first()) =~= Seq::empty());
        assert(cold_bytes(all) =~= cold_bytes(fields) + cold_frame(f.0, f.1));
    } else {
        assert(all.drop_first() =~= fields.drop_first().push(f));
        lemma_cold_push(fields.drop_first(), f);
        assert(cold_bytes(all) =~= cold_bytes(fields) + cold_frame(f.0, f.1));
    }
}

/// The hot segment of a payload.
pub fn hot_segment(b: &[u8]) -> (r: &[u8])
    requires
        well_formed(b@),
    ensures
        r@ == hot_of(b@),
{
    let front = slice_to(slice_from(b, 1), 2);
    assert(front@ =~= b@.subrange(1, 3));
    proof {
        crate::bytes::lemma_pow256_small();
        crate::bytes::lemma_be_value_round_trip(front@);
    }
    let n: u64 = read_be(front);
    let r = slice_to(slice_from(b, HEADER_LEN), n as usize);
    assert(r@ =~= hot_of(b@));
    r
}

/// The cold segment of a payload.
pub fn cold_segment(b: &[u8]) -> (r: &[u8])
    requires
        well_formed(b@),
    ensures
        cold_fields(r@) == Some(cold_of(b@)),
{
    let hot = hot_segment(b);
    let total: usize = b.len();
    assert(HEADER_LEN + hot@.len() <= total);
    let r = slice_from(b, HEADER_LEN + hot.len());
    assert(r@ =~= b@.skip(HEADER_LEN + hot_len(b@) as int));
    r
}

/// The value of the first field with a tag.
pub fn cold_value(cold: &[u8], tag: u8) -> (r: Option<Vec<u8>>)
    requires
        cold_fields(cold@) is Some,
    ensures
        match r {
            Some(v) => cold_find(cold_fields(cold@)->0, tag) == Some(v@),
            None => cold_find(cold_fields(cold@)->0, tag) is None,
        },
{
    let mut at: usize = 0;
    assert(cold@.skip(0) =~= cold@);
    while at < cold.len()
        invariant
            at <= cold@.len(),
            cold_fields(cold@.skip(at as int)) is Some,
            cold_find(cold_fields(cold@.skip(at as int))->0, tag) == cold_find(
                cold_fields(cold@)->0,
                tag,
            ),
        decreases cold@.len() - at,
    {
        let rest = slice_from(cold, at);
        let ghost fields = cold_fields(rest@)->0;
        assert(rest@ =~= cold@.skip(at as int));
        let len = slice_to(slice_from(rest, 1), 4);
        assert(len@ =~= rest@.subrange(1, 5));
        let n: usize = read_be(len) as usize;
        let value = slice_to(slice_from(rest, 5), n);
        assert(value@ =~= rest@.subrange(5, 5 + n as int));
        proof {
            let tail = cold_fields(rest@.skip(5 + n as int))->0;
            assert(fields =~= seq![(rest@[0], value@)] + tail);
            assert(fields.drop_first() =~= tail);
            assert(rest@.skip(5 + n as int) =~= cold@.skip(at + 5 + n as int));
        }
        if rest[0] == tag {
            return Some(to_vec(value));
        }
        at = at + 5 + n;
    }
    None
}

/// The first field with a tag is the one that is found.
pub proof fn law_first_tag_is_found(fields: Seq<(u8, Seq<u8>)>, i: int)
    requires
        0 <= i < fields.len(),
        forall|j: int| 0 <= j < i ==> (#[trigger] fields[j]).0 != fields[i].0,
    ensures
        cold_find(fields, fields[i].0) == Some(fields[i].1),
    decreases fields.len(),
{
    if i > 0 {
        let rest = fields.drop_first();
        assert(fields[0].0 != fields[i].0);
        assert forall|j: int| 0 <= j < i - 1 implies (#[trigger] rest[j]).0 != rest[i - 1].0 by {
            assert(fields[j + 1].0 != fields[i].0);
        }
        law_first_tag_is_found(rest, i - 1);
    }
}

/// A tag that no field has is not found.
pub proof fn law_missing_tag_is_not_found(fields: Seq<(u8, Seq<u8>)>, tag: u8)
    requires
        forall|j: int| 0 <= j < fields.len() ==> (#[trigger] fields[j]).0 != tag,
    ensures
        cold_find(fields, tag) is None,
    decreases fields.len(),
{
    if fields.len() > 0 {
        let rest = fields.drop_first();
        assert(fields[0].0 != tag);
        assert forall|j: int| 0 <= j < rest.len() implies (#[trigger] rest[j]).0 != tag by {
            assert(fields[j + 1].0 != tag);
        }
        law_missing_tag_is_not_found(rest, tag);
    }
}

/// Frames in front of others are read first, and those others then.
pub proof fn law_frames_in_order(fields: Seq<(u8, Seq<u8>)>, rest: Seq<u8>)
    requires
        forall|i: int| 0 <= i < fields.len() ==> (#[trigger] fields[i]).1.len() <= u32::MAX,
    ensures
        whole_frames(cold_bytes(fields) + rest) == fields + whole_frames(rest),
    decreases fields.len(),
{
    if fields.len() == 0 {
        assert(cold_bytes(fields) + rest =~= rest);
        assert(fields + whole_frames(rest) =~= whole_frames(rest));
    } else {
        let t = fields.drop_first();
        assert forall|i: int| 0 <= i < t.len() implies (#[trigger] t[i]).1.len() <= u32::MAX by {
            assert(t[i] == fields[i + 1]);
        }
        law_frames_in_order(t, rest);
        let (tag, v) = fields[0];
        let n = v.len();
        let b = cold_bytes(fields) + rest;
        assert(fields[0].1.len() <= u32::MAX);
        crate::bytes::lemma_pow256_small();
        crate::bytes::lemma_be_bytes_len(n, 4);
        crate::bytes::lemma_be_round_trip(n, 4);
        assert(b.subrange(1, 5) =~= crate::bytes::be_bytes(n, 4));
        assert(b.subrange(5, 5 + n as int) =~= v);
        assert(b.skip(5 + n as int) =~= cold_bytes(t) + rest);
        assert(whole_frames(b) =~= seq![(tag, v)] + (t + whole_frames(rest)));
        assert(fields + whole_frames(rest) =~= seq![(tag, v)] + (t + whole_frames(rest)));
    }
}

/// Bytes that are frames throughout are the frames of the fields that are
/// read from them.
pub proof fn law_cold_is_its_fields(b: Seq<u8>)
    requires
        cold_fields(b) is Some,
    ensures
        cold_bytes(cold_fields(b)->0) == b,
    decreases b.len(),
{
    if b.len() == 0 {
        assert(b =~= Seq::empty());
    } else {
        let n = crate::bytes::be_value(b.subrange(1, 5));
        let rest = b.skip(5 + n as int);
        let fields = cold_fields(b)->0;
        law_cold_is_its_fields(rest);
        crate::bytes::lemma_be_value_round_trip(b.subrange(1, 5));
        assert(fields.drop_first() =~= cold_fields(rest)->0);
        assert(fields[0] == (b[0], b.subrange(5, 5 + n as int)));
        assert(cold_bytes(fields) =~= b);
    }
}

/// A whole payload is its version, its fixed-width part and its fields of
/// variable length, and nothing else.
pub proof fn law_payload_is_its_parts(b: Seq<u8>)
    requires
        well_formed(b),
    ensures
        payload_bytes(b[0], hot_of(b), cold_of(b)) == b,
{
    let cold = b.skip(HEADER_LEN + hot_len(b) as int);
    law_cold_is_its_fields(cold);
    crate::bytes::lemma_be_value_round_trip(b.subrange(1, 3));
    assert(payload_bytes(b[0], hot_of(b), cold_of(b)) =~= b);
}

} // verus!
