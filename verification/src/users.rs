//! Users of organisations: a document type with two fixed-width fields and a
//! name.

use vstd::prelude::*;
use vstd::string::StringExecFns;

use crate::bytes::{be_vec, concat, push_be, read_be, slice_from, slice_to};
use crate::engine::storage::VirtualStorage;
use crate::field::{DefaultValueConst, FieldDesc, FieldType};
use crate::edge::KvEdge;
use crate::index::{entry_pairs, Document, KvIndex};
use crate::junction::KvJunction;
use crate::key::KeyEncode;
use crate::model::obj_dynamic::{DynamicValue, FieldMap};
use crate::payload::{
    cold_segment, cold_value, hot_segment, push_cold, start_payload,
};
use crate::subscribe::Op;
use crate::text::{str_eq, utf8_string};

verus! {

/// The identity of a user: the organisation, and the user within it.
#[derive(Clone, PartialEq, Debug, Default)]
pub struct UserKey {
    pub org_id: u32,
    pub user_id: u64,
}

impl KeyEncode for UserKey {
    const KEY_LEN: usize = 12;

    open spec fn bytes(&self) -> Seq<u8> {
        crate::bytes::be_bytes(self.org_id as nat, 4) + crate::bytes::be_bytes(
            self.user_id as nat,
            8,
        )
    }

    open spec fn canon(b: Seq<u8>) -> Seq<u8> {
        b
    }

    open spec fn named_len(names: Seq<Seq<char>>) -> nat {
        if names.len() == 0 {
            0
        } else if names.len() == 1 {
            4
        } else {
            12
        }
    }

    open spec fn declared() -> Seq<crate::field::FieldView> {
        seq![
            crate::field::FieldView { name: "org_id"@, width: 4, ty: FieldType::U32 },
            crate::field::FieldView { name: "user_id"@, width: 8, ty: FieldType::U64 },
        ]
    }

    proof fn reads_back(&self) {
        crate::bytes::lemma_be_bytes_len(self.org_id as nat, 4);
        crate::bytes::lemma_be_bytes_len(self.user_id as nat, 8);
    }

    proof fn prefix_fits(names: Seq<Seq<char>>) {
        let all = Self::declared();
        assert(all.drop_last() =~= seq![all[0]]);
        assert(seq![all[0]].drop_last() =~= Seq::empty());
        assert(crate::field::total_width(Seq::empty()) == 0);
        assert(crate::field::total_width(seq![all[0]]) == 4);
    }

    fn fields() -> (r: Vec<FieldDesc>) {
        let mut r: Vec<FieldDesc> = Vec::new();
        r.push(FieldDesc { name: "org_id", width: 4, ty: FieldType::U32 });
        r.push(FieldDesc { name: "user_id", width: 8, ty: FieldType::U64 });
        assert(crate::field::field_list(r@) =~= Self::declared());
        r
    }

    fn encode(&self) -> (r: Vec<u8>) {
        let org = be_vec(self.org_id as u64, 4);
        let user = be_vec(self.user_id, 8);
        concat(org.as_slice(), user.as_slice())
    }

    fn decode(b: &[u8]) -> (r: Self) {
        let org = slice_to(b, 4);
        let user = slice_from(b, 4);
        proof {
            crate::bytes::lemma_pow256_small();
            crate::bytes::lemma_be_value_round_trip(org@);
            crate::bytes::lemma_be_value_round_trip(user@);
            assert(org@ + user@ =~= b@);
        }
        UserKey { org_id: read_be(org) as u32, user_id: read_be(user) }
    }

    fn prefix_width(names: &Vec<&'static str>) -> (r: usize) {
        if names.len() == 0 {
            0
        } else if names.len() == 1 {
            4
        } else {
            12
        }
    }
}

/// Stored keys sort by organisation, then by user.
pub proof fn law_user_keys_sort(a: UserKey, b: UserKey)
    requires
        a.org_id < b.org_id || (a.org_id == b.org_id && a.user_id < b.user_id),
    ensures
        crate::bytes::lex_lt(a.bytes(), b.bytes()),
{
    crate::bytes::lemma_pow256_small();
    let (ao, au) = (
        crate::bytes::be_bytes(a.org_id as nat, 4),
        crate::bytes::be_bytes(a.user_id as nat, 8),
    );
    let (bo, bu) = (
        crate::bytes::be_bytes(b.org_id as nat, 4),
        crate::bytes::be_bytes(b.user_id as nat, 8),
    );
    crate::bytes::lemma_be_bytes_len(a.org_id as nat, 4);
    crate::bytes::lemma_be_bytes_len(b.org_id as nat, 4);
    if a.org_id < b.org_id {
        crate::bytes::lemma_be_order(a.org_id as nat, b.org_id as nat, 4);
        crate::bytes::lemma_lex_extend(ao, bo, au, bu);
    } else {
        crate::bytes::lemma_be_order(a.user_id as nat, b.user_id as nat, 8);
        crate::bytes::lemma_lex_shared_prefix(ao, au, bu);
    }
}

/// A user.
#[derive(Clone, PartialEq, Debug)]
pub struct User {
    pub level: u32,
    pub score: u16,
    pub name: String,
}

/// What a user says.
#[verifier::ext_equal]
pub struct UserView {
    pub level: u32,
    pub score: u16,
    pub name: Seq<char>,
}

/// The tag of the name among the fields of variable length.
pub const NAME_TAG: u8 = 2;

/// The fixed-width fields of a user.
pub open spec fn user_hot(u: UserView) -> Seq<u8> {
    crate::bytes::be_bytes(u.level as nat, 4) + crate::bytes::be_bytes(u.score as nat, 2)
}

/// The level that fixed-width fields hold; an older layout may lack it.
pub open spec fn hot_level(hot: Seq<u8>) -> u32 {
    if hot.len() >= 4 {
        crate::bytes::be_value(hot.take(4)) as u32
    } else {
        0
    }
}

/// The score that fixed-width fields hold; an older layout may lack it.
pub open spec fn hot_score(hot: Seq<u8>) -> u16 {
    if hot.len() >= 6 {
        crate::bytes::be_value(hot.subrange(4, 6)) as u16
    } else {
        0
    }
}

/// The name among fields of variable length; an older layout may lack it.
pub open spec fn cold_name(cold: Seq<(u8, Seq<u8>)>) -> Seq<char> {
    match crate::payload::cold_find(cold, NAME_TAG) {
        Some(b) => vstd::utf8::decode_utf8(b),
        None => Seq::empty(),
    }
}

/// The fields of a user by name.
pub open spec fn user_fields(u: UserView) -> Seq<
    (Seq<char>, crate::model::obj_dynamic::DynView),
> {
    crate::model::obj_dynamic::insert_field(
        crate::model::obj_dynamic::insert_field(
            crate::model::obj_dynamic::insert_field(
                Seq::empty(),
                "level"@,
                crate::model::obj_dynamic::DynView::UInt(u.level as nat),
            ),
            "score"@,
            crate::model::obj_dynamic::DynView::UInt(u.score as nat),
        ),
        "name"@,
        crate::model::obj_dynamic::DynView::Str(u.name),
    )
}

/// An unsigned field by name that fits below a limit; 0 without one.
pub open spec fn uint_field(
    fields: Seq<(Seq<char>, crate::model::obj_dynamic::DynView)>,
    name: Seq<char>,
    limit: nat,
) -> nat {
    match crate::model::obj_dynamic::find_field(fields, name) {
        Some(crate::model::obj_dynamic::DynView::UInt(n)) => if n <= limit {
            n
        } else {
            0
        },
        _ => 0,
    }
}

/// A text field by name; empty without one.
pub open spec fn str_field(
    fields: Seq<(Seq<char>, crate::model::obj_dynamic::DynView)>,
    name: Seq<char>,
) -> Seq<char> {
    match crate::model::obj_dynamic::find_field(fields, name) {
        Some(crate::model::obj_dynamic::DynView::Str(s)) => s,
        _ => Seq::empty(),
    }
}

/// An unsigned field by name that fits below a limit; 0 without one.
fn get_uint(map: &FieldMap, name: &str, limit: u64) -> (r: u64)
    ensures
        r == uint_field(map@, name@, limit as nat),
        r <= limit,
{
    broadcast use DynamicValue::lemma_view;

    match map.get(name) {
        Some(DynamicValue::UInt(n)) => if *n <= limit {
            *n
        } else {
            0
        },
        _ => 0,
    }
}

impl Document for User {
    type Key = UserKey;

    type Model = UserView;

    const LAYOUT_VERSION: u8 = 2;

    const HOT_WIDTH: usize = 6;

    open spec fn model(&self) -> UserView {
        UserView { level: self.level, score: self.score, name: self.name@ }
    }

    open spec fn payload(d: UserView) -> Seq<u8> {
        crate::payload::payload_bytes(
            2,
            user_hot(d),
            seq![(NAME_TAG, vstd::utf8::encode_utf8(d.name))],
        )
    }

    open spec fn readable(b: Seq<u8>) -> bool {
        &&& crate::payload::well_formed(b)
        &&& b[0] <= 2
        &&& match crate::payload::cold_find(crate::payload::cold_of(b), NAME_TAG) {
            Some(name) => vstd::utf8::valid_utf8(name),
            None => true,
        }
    }

    open spec fn decoded(b: Seq<u8>) -> UserView {
        UserView {
            level: hot_level(crate::payload::hot_of(b)),
            score: hot_score(crate::payload::hot_of(b)),
            name: cold_name(crate::payload::cold_of(b)),
        }
    }

    open spec fn bare(d: UserView) -> UserView {
        d
    }

    open spec fn storable(d: UserView) -> bool {
        vstd::utf8::encode_utf8(d.name).len() <= u32::MAX
    }

    open spec fn entries(key: Seq<u8>, d: UserView, header: Seq<u8>) -> Seq<(Seq<u8>, Seq<u8>)> {
        seq![
            (
                crate::index::entry_at::<ByLevel>(
                    header,
                    user_named(d, seq!["level"@]),
                    key,
                ),
                user_named(d, seq!["score"@]),
            ),
        ]
    }

    open spec fn dereferenced(d: UserView, m: crate::engine::storage::Contents) -> UserView {
        d
    }

    open spec fn embeds(d: UserView) -> Seq<(Seq<u8>, Seq<u8>)> {
        Seq::empty()
    }

    open spec fn embedded(d: UserView) -> Seq<Seq<u8>> {
        Seq::empty()
    }

    open spec fn reduced(
        m: crate::engine::storage::Contents,
        key: Seq<u8>,
        d: UserView,
        header: Seq<u8>,
        fold: bool,
    ) -> crate::engine::storage::Contents {
        m
    }

    open spec fn announced(op: Op, epoch: u64, key: Seq<u8>, d: UserView) -> bool {
        true
    }

    open spec fn mapped(d: UserView) -> Seq<(Seq<char>, crate::model::obj_dynamic::DynView)> {
        user_fields(d)
    }

    open spec fn unmapped(
        fields: Seq<(Seq<char>, crate::model::obj_dynamic::DynView)>,
    ) -> UserView {
        UserView {
            level: uint_field(fields, "level"@, u32::MAX as nat) as u32,
            score: uint_field(fields, "score"@, u16::MAX as nat) as u16,
            name: str_field(fields, "name"@),
        }
    }

    open spec fn declared() -> Seq<crate::field::FieldView> {
        seq![
            crate::field::FieldView { name: "level"@, width: 4, ty: FieldType::U32 },
            crate::field::FieldView { name: "score"@, width: 2, ty: FieldType::U16 },
            crate::field::FieldView { name: "name"@, width: 0, ty: FieldType::Str },
        ]
    }

    open spec fn literals() -> Seq<(Seq<char>, DefaultValueConst)> {
        Seq::empty()
    }

    open spec fn ns_bytes() -> Seq<u8> {
        crate::bytes::be_bytes(42, 2)
    }

    open spec fn partition() -> Option<u8> {
        None
    }

    open spec fn retired() -> Seq<Seq<u8>> {
        Seq::empty()
    }

    proof fn reads_back(d: UserView) {
        broadcast use vstd::utf8::encode_utf8_decode_utf8, vstd::utf8::encode_utf8_valid_utf8;

        let hot = user_hot(d);
        let name = vstd::utf8::encode_utf8(d.name);
        let cold = seq![(NAME_TAG, name)];
        crate::bytes::lemma_pow256_small();
        crate::bytes::lemma_be_bytes_len(d.level as nat, 4);
        crate::bytes::lemma_be_bytes_len(d.score as nat, 2);
        crate::bytes::lemma_be_round_trip(d.level as nat, 4);
        crate::bytes::lemma_be_round_trip(d.score as nat, 2);
        crate::payload::law_payload_round_trip(2, hot, cold);
        assert(hot.take(4) =~= crate::bytes::be_bytes(d.level as nat, 4));
        assert(hot.subrange(4, 6) =~= crate::bytes::be_bytes(d.score as nat, 2));
        assert(crate::payload::cold_find(cold, NAME_TAG) == Some(name));
    }

    proof fn keeps_to_slots(
        m: crate::engine::storage::Contents,
        key: Seq<u8>,
        d: UserView,
        header: Seq<u8>,
        fold: bool,
    ) {
        let k = Self::entries(key, d, header)[0].0;
        assert(k[header.len() as int] == 0x10);
        assert(k.subrange(0, header.len() as int) =~= header);
    }

    fn encode_payload(&self) -> (r: Vec<u8>) {
        let mut hot: Vec<u8> = be_vec(self.level as u64, 4);
        push_be(&mut hot, self.score as u64, 2);
        proof {
            crate::bytes::lemma_be_bytes_len(self.level as nat, 4);
            crate::bytes::lemma_be_bytes_len(self.score as nat, 2);
        }
        let mut r = start_payload(2, hot.as_slice());
        let ghost front = r@;
        push_cold(&mut r, NAME_TAG, self.name.as_str().as_bytes());
        proof {
            let f = (NAME_TAG, vstd::utf8::encode_utf8(self.name@));
            crate::payload::lemma_cold_push(Seq::empty(), f);
            assert(Seq::<(u8, Seq<u8>)>::empty().push(f) =~= seq![f]);
            assert(r@ =~= Self::payload(self.model()));
        }
        r
    }

    fn decode_payload(b: &[u8]) -> (r: Self) {
        let hot = hot_segment(b);
        let mut level: u32 = 0;
        let mut score: u16 = 0;
        proof {
            crate::bytes::lemma_pow256_small();
        }
        if hot.len() >= 4 {
            let f = slice_to(hot, 4);
            assert(f@ =~= hot@.take(4));
            proof {
                crate::bytes::lemma_be_value_round_trip(f@);
            }
            level = read_be(f) as u32;
        }
        if hot.len() >= 6 {
            let f = slice_to(slice_from(hot, 4), 2);
            assert(f@ =~= hot@.subrange(4, 6));
            proof {
                crate::bytes::lemma_be_value_round_trip(f@);
            }
            score = read_be(f) as u16;
        }
        let cold = cold_segment(b);
        let mut name: String = String::from_str("");
        match cold_value(cold, NAME_TAG) {
            Some(v) => {
                if let Some(s) = utf8_string(v.as_slice()) {
                    name = s;
                }
            },
            None => {
                proof {
                    reveal_strlit("");
                    assert(name@ =~= Seq::empty());
                }
            },
        }
        User { level, score, name }
    }

    fn index_entries(key: &UserKey, row: &Self, header: &[u8]) -> (r: Vec<(Vec<u8>, Vec<u8>)>) {
        entry_pairs::<ByLevel>(header, key, row)
    }

    fn embed_deref<S: VirtualStorage>(&mut self, store: &S) {
    }

    fn embed_entries(&self) -> (r: Vec<(Vec<u8>, Vec<u8>)>) {
        let r: Vec<(Vec<u8>, Vec<u8>)> = Vec::new();
        assert(crate::engine::storage::pair_views(r@) =~= Seq::empty());
        r
    }

    fn embed_keys(&self) -> (r: Vec<Vec<u8>>) {
        let r: Vec<Vec<u8>> = Vec::new();
        assert(crate::engine::storage::views(r@) =~= Seq::empty());
        r
    }

    fn apply_reduces<S: VirtualStorage>(
        store: &mut S,
        key: &UserKey,
        row: &Self,
        header: &[u8],
        fold: bool,
    ) {
    }

    fn emit_event(op: Op, epoch: u64, key: &UserKey, row: &Self) {
    }

    fn to_map(&self) -> (r: FieldMap) {
        broadcast use DynamicValue::lemma_view;

        let mut map = FieldMap::new();
        map.insert(String::from_str("level"), DynamicValue::UInt(self.level as u64));
        map.insert(String::from_str("score"), DynamicValue::UInt(self.score as u64));
        map.insert(
            String::from_str("name"),
            DynamicValue::Str(String::from_str(self.name.as_str())),
        );
        map
    }

    fn from_map(map: &FieldMap) -> (r: Self) {
        broadcast use DynamicValue::lemma_view;

        let level: u32 = get_uint(map, "level", u32::MAX as u64) as u32;
        let score: u16 = get_uint(map, "score", u16::MAX as u64) as u16;
        let name: String = match map.get("name") {
            Some(DynamicValue::Str(s)) => String::from_str(s.as_str()),
            _ => {
                let empty = String::from_str("");
                proof {
                    reveal_strlit("");
                    assert(empty@ =~= Seq::empty());
                }
                empty
            },
        };
        User { level, score, name }
    }

    fn fields() -> (r: Vec<FieldDesc>) {
        let mut r: Vec<FieldDesc> = Vec::new();
        r.push(FieldDesc { name: "level", width: 4, ty: FieldType::U32 });
        r.push(FieldDesc { name: "score", width: 2, ty: FieldType::U16 });
        r.push(FieldDesc { name: "name", width: 0, ty: FieldType::Str });
        assert(crate::field::field_list(r@) =~= Self::declared());
        r
    }

    fn defaults() -> (r: Vec<(&'static str, DefaultValueConst)>) {
        let r: Vec<(&'static str, DefaultValueConst)> = Vec::new();
        assert(crate::index::default_list(r@) =~= Self::literals());
        r
    }

    fn ns_prefix() -> (r: Vec<u8>) {
        be_vec(42, 2)
    }

    fn partition_id() -> (r: Option<u8>) {
        None
    }

    fn retired_slots() -> (r: Vec<Vec<u8>>) {
        let r: Vec<Vec<u8>> = Vec::new();
        assert(crate::engine::storage::views(r@) =~= Self::retired());
        r
    }
}

/// Why a group could not be updated.
#[derive(Clone, Copy, Debug, PartialEq, Eq, Structural)]
pub enum GroupError {
    /// The stored count does not have eight bytes.
    Width,
    /// The group is empty.
    Underflow,
}

/// How many users a group has, as eight bytes, big-endian.
#[derive(Clone, Copy, Debug)]
pub struct GroupCount;

impl GroupCount {
    /// The count of an empty group.
    pub fn seed() -> (r: Vec<u8>)
        ensures
            r@ == crate::bytes::be_bytes(0, 8),
    {
        be_vec(0, 8)
    }

    /// Counts one user more.
    pub fn fold(acc: &mut Vec<u8>) -> (r: Result<(), GroupError>)
        requires
            old(acc)@.len() == 8 ==> crate::bytes::be_value(old(acc)@) < u64::MAX,
        ensures
            match r {
                Ok(_) => old(acc)@.len() == 8 && final(acc)@ == crate::bytes::be_bytes(
                    crate::bytes::be_value(old(acc)@) + 1,
                    8,
                ),
                Err(e) => e == GroupError::Width && old(acc)@.len() != 8 && final(acc)@ == old(
                    acc,
                )@,
            },
    {
        if acc.len() != 8 {
            return Err(GroupError::Width);
        }
        let n: u64 = read_be(acc.as_slice());
        *acc = be_vec(n + 1, 8);
        Ok(())
    }

    /// Counts one user less.
    pub fn unfold(acc: &mut Vec<u8>) -> (r: Result<(), GroupError>)
        ensures
            match r {
                Ok(_) => old(acc)@.len() == 8 && crate::bytes::be_value(old(acc)@) > 0
                    && final(acc)@ == crate::bytes::be_bytes(
                    (crate::bytes::be_value(old(acc)@) - 1) as nat,
                    8,
                ),
                Err(GroupError::Width) => old(acc)@.len() != 8 && final(acc)@ == old(acc)@,
                Err(GroupError::Underflow) => old(acc)@.len() == 8 && crate::bytes::be_value(
                    old(acc)@,
                ) == 0 && final(acc)@ == old(acc)@,
            },
    {
        if acc.len() != 8 {
            return Err(GroupError::Width);
        }
        let n: u64 = read_be(acc.as_slice());
        if n == 0 {
            return Err(GroupError::Underflow);
        }
        *acc = be_vec(n - 1, 8);
        Ok(())
    }
}

/// Counting one user less undoes counting one more.
pub proof fn law_unfold_undoes_fold(acc: Seq<u8>)
    requires
        acc.len() == 8,
        crate::bytes::be_value(acc) < u64::MAX,
    ensures
        ({
            let folded = crate::bytes::be_bytes(crate::bytes::be_value(acc) + 1, 8);
            &&& crate::bytes::be_value(folded) > 0
            &&& crate::bytes::be_bytes((crate::bytes::be_value(folded) - 1) as nat, 8) == acc
        }),
{
    crate::bytes::lemma_pow256_small();
    crate::bytes::lemma_be_round_trip(crate::bytes::be_value(acc) + 1, 8);
    crate::bytes::lemma_be_value_round_trip(acc);
}

/// Who follows whom: a junction of users with users.
#[derive(Clone, PartialEq, Debug)]
pub struct Follows {
    pub follower: UserKey,
    pub followed: UserKey,
}

impl KvJunction for Follows {
    type A = User;

    type B = User;

    const JUNCTION_ID: u16 = 1;

    open spec fn a_fields() -> Seq<Seq<char>> {
        Seq::empty()
    }

    open spec fn b_fields() -> Seq<Seq<char>> {
        Seq::empty()
    }

    open spec fn a_bytes(&self) -> Seq<u8> {
        self.follower.bytes()
    }

    open spec fn b_bytes(&self) -> Seq<u8> {
        self.followed.bytes()
    }

    fn a_head() -> (r: Vec<&'static str>) {
        let r: Vec<&'static str> = Vec::new();
        assert(crate::key::name_list(r@) =~= Seq::empty());
        r
    }

    fn b_head() -> (r: Vec<&'static str>) {
        let r: Vec<&'static str> = Vec::new();
        assert(crate::key::name_list(r@) =~= Seq::empty());
        r
    }

    fn a(&self) -> (r: &UserKey) {
        &self.follower
    }

    fn b(&self) -> (r: &UserKey) {
        &self.followed
    }

    fn from_parts(a: UserKey, b: UserKey) -> (r: Self) {
        Follows { follower: a, followed: b }
    }
}

/// Which users an organisation has: an edge that knows the organisation only.
#[derive(Clone, Copy, Debug)]
pub struct Members;

impl KvEdge for Members {
    type A = UserKey;

    type B = u64;

    const NS: u16 = 43;

    open spec fn a_fields() -> Seq<Seq<char>> {
        seq!["org_id"@]
    }

    open spec fn b_fields() -> Seq<Seq<char>> {
        Seq::empty()
    }

    fn a_head() -> (r: Vec<&'static str>) {
        let mut r: Vec<&'static str> = Vec::new();
        r.push("org_id");
        assert(crate::key::name_list(r@) =~= seq!["org_id"@]);
        r
    }

    fn b_head() -> (r: Vec<&'static str>) {
        let r: Vec<&'static str> = Vec::new();
        assert(crate::key::name_list(r@) =~= Seq::empty());
        r
    }
}

/// Users by level, with the score carried along.
#[derive(Clone, Copy, Debug)]
pub struct ByLevel;

/// A named field of a user in an index entry.
pub open spec fn user_field_bytes(u: UserView, name: Seq<char>) -> Seq<u8> {
    if name == "level"@ {
        crate::bytes::be_bytes(u.level as nat, 4)
    } else if name == "score"@ {
        crate::bytes::be_bytes(u.score as nat, 2)
    } else if name == "name"@ {
        vstd::utf8::encode_utf8(u.name)
    } else {
        Seq::empty()
    }
}

/// Named fields of a user in an index entry.
pub open spec fn user_named(u: UserView, names: Seq<Seq<char>>) -> Seq<u8>
    decreases names.len(),
{
    if names.len() == 0 {
        Seq::empty()
    } else {
        user_named(u, names.drop_last()) + user_field_bytes(u, names.last())
    }
}

impl KvIndex for ByLevel {
    type Document = User;

    open spec fn slot() -> Seq<u8> {
        seq![0x10u8, 0x01u8]
    }

    open spec fn sorted_by() -> Seq<Seq<char>> {
        seq!["level"@]
    }

    open spec fn covered() -> Seq<Seq<char>> {
        seq!["score"@]
    }

    open spec fn tail_fields() -> Seq<Seq<char>> {
        Seq::empty()
    }

    open spec fn named(key: Seq<u8>, d: UserView, names: Seq<Seq<char>>) -> Seq<u8> {
        user_named(d, names)
    }

    fn slot_bytes() -> (r: Vec<u8>) {
        let mut r: Vec<u8> = Vec::new();
        r.push(0x10);
        r.push(0x01);
        assert(r@ =~= Self::slot());
        r
    }

    fn sort_fields() -> (r: Vec<&'static str>) {
        let mut r: Vec<&'static str> = Vec::new();
        r.push("level");
        assert(crate::key::name_list(r@) =~= Self::sorted_by());
        r
    }

    fn includes() -> (r: Vec<&'static str>) {
        let mut r: Vec<&'static str> = Vec::new();
        r.push("score");
        assert(crate::key::name_list(r@) =~= Self::covered());
        r
    }

    fn key_prefix() -> (r: Vec<&'static str>) {
        let r: Vec<&'static str> = Vec::new();
        assert(crate::key::name_list(r@) =~= Self::tail_fields());
        r
    }

    fn encode_named(key: &UserKey, row: &User, names: &Vec<&'static str>, buf: &mut Vec<u8>) {
        let ghost all = crate::key::name_list(names@);
        let ghost start = buf@;
        let mut i: usize = 0;
        proof {
            assert(all.take(0) =~= Seq::empty());
            assert(buf@ =~= start + user_named(row.model(), all.take(0)));
        }
        while i < names.len()
            invariant
                i <= names@.len() == all.len(),
                all == crate::key::name_list(names@),
                buf@ == start + user_named(row.model(), all.take(i as int)),
            decreases names@.len() - i,
        {
            let ghost before = buf@;
            proof {
                assert(all.take(i + 1).drop_last() =~= all.take(i as int));
                assert(all.take(i + 1).last() == names@[i as int]@);
            }
            if str_eq(names[i], "level") {
                push_be(buf, row.level as u64, 4);
            } else if str_eq(names[i], "score") {
                push_be(buf, row.score as u64, 2);
            } else if str_eq(names[i], "name") {
                buf.extend_from_slice(row.name.as_str().as_bytes());
            }
            assert(buf@ =~= start + user_named(row.model(), all.take(i + 1)));
            i = i + 1;
        }
        assert(all.take(i as int) =~= all);
    }
}

/// An entry of a user holds the level in four bytes, which sort by size, and
/// the score in two.
pub proof fn law_levels_sort(key: Seq<u8>, a: UserView, b: UserView)
    ensures
        ({
            let x = crate::access::sorted_form::<ByLevel>(key, a);
            let y = crate::access::sorted_form::<ByLevel>(key, b);
            let score = ByLevel::named(key, a, ByLevel::covered());
            &&& x.len() == 4
            &&& crate::bytes::be_value(x) == a.level
            &&& crate::bytes::lex_lt(x, y) <==> a.level < b.level
            &&& score.len() == 2
            &&& crate::bytes::be_value(score) == a.score
        }),
{
    reveal_strlit("level");
    reveal_strlit("score");
    assert("level"@[0] != "score"@[0]);
    lemma_one_name(a, "level"@);
    lemma_one_name(b, "level"@);
    lemma_one_name(a, "score"@);
    crate::bytes::lemma_pow256_small();
    crate::bytes::lemma_be_bytes_len(a.level as nat, 4);
    crate::bytes::lemma_be_bytes_len(a.score as nat, 2);
    crate::bytes::lemma_be_round_trip(a.level as nat, 4);
    crate::bytes::lemma_be_round_trip(a.score as nat, 2);
    crate::index::law_u32_index(a.level, b.level);
}

proof fn lemma_one_name(u: UserView, name: Seq<char>)
    ensures
        user_named(u, seq![name]) == user_field_bytes(u, name),
{
    assert(seq![name].drop_last() =~= Seq::empty());
    assert(user_named(u, seq![name].drop_last()) =~= Seq::empty());
    assert(user_named(u, seq![name]) =~= user_field_bytes(u, name));
}

/// Users are written such that scans by level lead back to them: in tables
/// and in collections.
pub proof fn law_users_are_indexed(
    header: Seq<u8>,
    front: Seq<u8>,
    key: Seq<u8>,
    d: UserView,
    embed: bool,
)
    requires
        key.len() == 12,
        front == crate::table::narrow_front(header, crate::index::PRIMARY_SLOT) || front
            == crate::model::index::slot_key(
            header,
            crate::model::index::PRIMARY_SLOT,
            Seq::empty(),
        ),
    ensures
        crate::index::tail_width::<ByLevel>() == 12,
        crate::access::whole_key::<UserKey>(key),
        crate::access::one_entry::<ByLevel>(header, key, d, 0),
        crate::access::stands_apart::<ByLevel>(header, front, key, d, embed),
        crate::access::payloads_apart::<ByLevel>(header, front),
{
    let p = header + ByLevel::slot();
    let e = User::entries(key, d, header)[0];
    assert(key.take(12) =~= key);
    assert(e.0 =~= p + (user_named(d, seq!["level"@]) + key));
    assert forall|k: Seq<u8>| crate::bytes::starts_with(k, p) implies #[trigger]
        crate::access::ungrouped_at::<User>(header, key, d, k) by {}
    reveal_with_fuel(crate::bytes::be_bytes, 3);
    assert(crate::bytes::be_bytes(0, 2)[0] == 0);
    assert(crate::bytes::be_bytes(0, 2).len() == 2);
    assert forall|k: Seq<u8>| #[trigger]
        crate::bytes::starts_with(k, front) implies !crate::index::declared_key(header, k)
        && !crate::bytes::starts_with(k, p) by {
        let n = header.len() as int;
        assert(front.len() > n && front[n] == 0) by {
            if front != crate::table::narrow_front(header, crate::index::PRIMARY_SLOT) {
                assert(front[n] == crate::bytes::be_bytes(0, 2)[0]);
            }
        }
        assert(k.subrange(0, front.len() as int)[n] == k[n]);
        if crate::bytes::starts_with(k, p) {
            assert(k.subrange(0, p.len() as int)[n] == k[n]);
            assert(p[n] == 0x10);
        }
    }
}

/// A user by name gives the user back, and each field has its name.
pub proof fn law_user_map_round_trip(d: UserView)
    ensures
        User::unmapped(User::mapped(d)) == d,
        crate::model::obj_dynamic::find_field(User::mapped(d), "level"@) == Some(
            crate::model::obj_dynamic::DynView::UInt(d.level as nat),
        ),
        crate::model::obj_dynamic::find_field(User::mapped(d), "score"@) == Some(
            crate::model::obj_dynamic::DynView::UInt(d.score as nat),
        ),
        crate::model::obj_dynamic::find_field(User::mapped(d), "name"@) == Some(
            crate::model::obj_dynamic::DynView::Str(d.name),
        ),
{
    reveal_strlit("level");
    reveal_strlit("score");
    reveal_strlit("name");
    assert("level"@[0] != "score"@[0]);
    assert("level"@[0] != "name"@[0]);
    assert("score"@[0] != "name"@[0]);
    let level = crate::model::obj_dynamic::DynView::UInt(d.level as nat);
    let score = crate::model::obj_dynamic::DynView::UInt(d.score as nat);
    let name = crate::model::obj_dynamic::DynView::Str(d.name);
    let none = Seq::<(Seq<char>, crate::model::obj_dynamic::DynView)>::empty();
    let one = crate::model::obj_dynamic::insert_field(none, "level"@, level);
    let two = crate::model::obj_dynamic::insert_field(one, "score"@, score);
    crate::model::obj_dynamic::law_insert_field(none, "level"@, level, "level"@);
    crate::model::obj_dynamic::law_insert_field(one, "score"@, score, "level"@);
    crate::model::obj_dynamic::law_insert_field(two, "name"@, name, "level"@);
    crate::model::obj_dynamic::law_insert_field(two, "name"@, name, "score"@);
}

/// A user key holds its two numbers side by side: no two users share one,
/// and a prefix of its fields is as wide as those fields.
pub proof fn law_user_key_holds_numbers(a: UserKey, b: UserKey, names: Seq<Seq<char>>)
    ensures
        a.bytes().len() == 12,
        crate::bytes::be_value(a.bytes().take(4)) == a.org_id,
        crate::bytes::be_value(a.bytes().skip(4)) == a.user_id,
        a.bytes() == UserKey::canon(b.bytes()) <==> a.org_id == b.org_id && a.user_id == b.user_id,
        UserKey::named_len(names) == crate::field::total_width(
            UserKey::declared().take(
                if names.len() < 2 {
                    names.len() as int
                } else {
                    2
                },
            ),
        ),
{
    crate::bytes::lemma_pow256_small();
    crate::bytes::lemma_be_bytes_len(a.org_id as nat, 4);
    crate::bytes::lemma_be_bytes_len(b.org_id as nat, 4);
    crate::bytes::lemma_be_bytes_len(a.user_id as nat, 8);
    crate::bytes::lemma_be_round_trip(a.org_id as nat, 4);
    crate::bytes::lemma_be_round_trip(b.org_id as nat, 4);
    crate::bytes::lemma_be_round_trip(a.user_id as nat, 8);
    crate::bytes::lemma_be_round_trip(b.user_id as nat, 8);
    assert(a.bytes().take(4) =~= crate::bytes::be_bytes(a.org_id as nat, 4));
    assert(a.bytes().skip(4) =~= crate::bytes::be_bytes(a.user_id as nat, 8));
    assert(b.bytes().take(4) =~= crate::bytes::be_bytes(b.org_id as nat, 4));
    assert(b.bytes().skip(4) =~= crate::bytes::be_bytes(b.user_id as nat, 8));
    let all = UserKey::declared();
    assert(all.take(0) =~= Seq::empty());
    assert(all.take(1).drop_last() =~= Seq::empty());
    assert(all.take(1).last() == all[0]);
    assert(all.take(2).drop_last() =~= all.take(1));
    assert(all.take(2).last() == all[1]);
    assert(crate::field::total_width(Seq::empty()) == 0);
    assert(crate::field::total_width(all.take(1)) == 4);
    assert(crate::field::total_width(all.take(2)) == 12);
}

/// A payload of an older layout, whose fixed-width part ends early or that
/// has no name, reads as the user with the fields that it has; those that it
/// lacks are zero or empty.
pub proof fn law_older_layouts_lack_fields(u: UserView, version: u8, n: int, named: bool)
    requires
        User::storable(u),
        0 <= n <= 6,
    ensures
        ({
            let cold = if named {
                seq![(NAME_TAG, vstd::utf8::encode_utf8(u.name))]
            } else {
                Seq::empty()
            };
            let b = crate::payload::payload_bytes(version, user_hot(u).take(n), cold);
            let r = User::decoded(b);
            &&& User::readable(b) <==> version <= 2
            &&& r.level == (if n >= 4 {
                u.level
            } else {
                0
            })
            &&& r.score == (if n >= 6 {
                u.score
            } else {
                0
            })
            &&& named ==> r.name == u.name
            &&& !named ==> r.name.len() == 0
        }),
{
    broadcast use vstd::utf8::encode_utf8_decode_utf8, vstd::utf8::encode_utf8_valid_utf8;

    let cold: Seq<(u8, Seq<u8>)> = if named {
        seq![(NAME_TAG, vstd::utf8::encode_utf8(u.name))]
    } else {
        Seq::empty()
    };
    let hot = user_hot(u).take(n);
    crate::bytes::lemma_pow256_small();
    crate::bytes::lemma_be_bytes_len(u.level as nat, 4);
    crate::bytes::lemma_be_bytes_len(u.score as nat, 2);
    crate::bytes::lemma_be_round_trip(u.level as nat, 4);
    crate::bytes::lemma_be_round_trip(u.score as nat, 2);
    crate::payload::law_payload_round_trip(version, hot, cold);
    if n >= 4 {
        assert(hot.take(4) =~= crate::bytes::be_bytes(u.level as nat, 4));
    }
    if n >= 6 {
        assert(hot.subrange(4, 6) =~= crate::bytes::be_bytes(u.score as nat, 2));
    }
}

/// A user that is made of named fields has the numbers that fit and the
/// text; a field that is missing, of another type or out of range counts as
/// zero or empty.
pub proof fn law_user_is_made_of_fields(
    fields: Seq<(Seq<char>, crate::model::obj_dynamic::DynView)>,
)
    ensures
        ({
            let u = User::unmapped(fields);
            let level = crate::model::obj_dynamic::find_field(fields, "level"@);
            let score = crate::model::obj_dynamic::find_field(fields, "score"@);
            let name = crate::model::obj_dynamic::find_field(fields, "name"@);
            &&& u.level != 0 ==> level == Some(
                crate::model::obj_dynamic::DynView::UInt(u.level as nat),
            )
            &&& level matches Some(v) ==> (v is UInt && v->UInt_0 <= u32::MAX ==> u.level
                == v->UInt_0)
            &&& u.score != 0 ==> score == Some(
                crate::model::obj_dynamic::DynView::UInt(u.score as nat),
            )
            &&& score matches Some(v) ==> (v is UInt && v->UInt_0 <= u16::MAX ==> u.score
                == v->UInt_0)
            &&& u.name.len() > 0 ==> name == Some(crate::model::obj_dynamic::DynView::Str(u.name))
            &&& name matches Some(v) ==> (v is Str ==> u.name == v->Str_0)
        }),
{
}

/// Named fields of a user stand one after another, in the order of the
/// names, and a name that users do not have takes no bytes.
pub proof fn law_named_fields_in_order(u: UserView, a: Seq<Seq<char>>, b: Seq<Seq<char>>)
    ensures
        user_named(u, a + b) == user_named(u, a) + user_named(u, b),
        user_named(u, seq!["level"@]).len() == 4,
        crate::bytes::be_value(user_named(u, seq!["level"@])) == u.level,
        user_named(u, seq!["score"@]).len() == 2,
        crate::bytes::be_value(user_named(u, seq!["score"@])) == u.score,
        vstd::utf8::decode_utf8(user_named(u, seq!["name"@])) == u.name,
    decreases b.len(),
{
    broadcast use vstd::utf8::encode_utf8_decode_utf8;

    reveal_strlit("level");
    reveal_strlit("score");
    reveal_strlit("name");
    assert("level"@[0] != "score"@[0]);
    assert("level"@[0] != "name"@[0]);
    assert("score"@[0] != "name"@[0]);
    crate::bytes::lemma_pow256_small();
    crate::bytes::lemma_be_bytes_len(u.level as nat, 4);
    crate::bytes::lemma_be_bytes_len(u.score as nat, 2);
    crate::bytes::lemma_be_round_trip(u.level as nat, 4);
    crate::bytes::lemma_be_round_trip(u.score as nat, 2);
    lemma_one_named(u, "level"@);
    lemma_one_named(u, "score"@);
    lemma_one_named(u, "name"@);
    if b.len() == 0 {
        assert(a + b =~= a);
        assert(user_named(u, a) + user_named(u, b) =~= user_named(u, a));
    } else {
        law_named_fields_in_order(u, a, b.drop_last());
        assert((a + b).drop_last() =~= a + b.drop_last());
        assert((a + b).last() == b.last());
        assert(user_named(u, a + b) =~= user_named(u, a) + user_named(u, b));
    }
}

proof fn lemma_one_named(u: UserView, name: Seq<char>)
    ensures
        user_named(u, seq![name]) == user_field_bytes(u, name),
{
    let one = seq![name];
    assert(one.drop_last() =~= Seq::empty());
    assert(user_named(u, one.drop_last()) =~= Seq::empty());
    assert(user_named(u, one) =~= user_field_bytes(u, name));
}

/// The name of a user is the first field with its tag, as UTF-8, wherever it
/// stands among the others.
pub proof fn law_name_is_the_tagged_field(cold: Seq<(u8, Seq<u8>)>, i: int)
    requires
        0 <= i < cold.len(),
        cold[i].0 == NAME_TAG,
        vstd::utf8::valid_utf8(cold[i].1),
        forall|j: int| 0 <= j < i ==> (#[trigger] cold[j]).0 != NAME_TAG,
    ensures
        vstd::utf8::encode_utf8(cold_name(cold)) == cold[i].1,
{
    broadcast use vstd::utf8::decode_utf8_encode_utf8;

    crate::payload::law_first_tag_is_found(cold, i);
}

} // verus!
