//! Dynamic fields: self-describing frames
//!
//! ```text
//! ([field id][value type u8][len varint][bytes])*
//! ```
//!
//! The field id is the number of the field's name in a dictionary: one byte,
//! or `0xFF` and two bytes from 255 on. An unknown value type is normal
//! input: the frame is skipped by its length. A malformed frame ends the
//! list, and what came before it is kept. Frames are written in the order
//! given; readers address fields by id.

use vstd::prelude::*;

use crate::bytes::{push_be, read_be, slice_from, to_vec};
use crate::model::wrappers::obj_value::ObjValueType;
use crate::text::{decimal_string, str_eq, str_lt, utf8_string};
use crate::wrappers::wire::{put_len, take_len};

verus! {

/// What a dynamic value is, as a mathematical value. A double is its 64
/// bits; an object is its fields in ascending order of their names.
pub enum DynView {
    UInt(nat),
    Int(int),
    F64(u64),
    Str(Seq<char>),
    Bytes(Seq<u8>),
    Bool(bool),
    Null,
    Array(Seq<DynView>),
    Obj(Seq<(Seq<char>, DynView)>),
}

/// A dynamic value.
#[derive(Debug, PartialEq)]
pub enum DynamicValue {
    UInt(u64),
    Int(i64),
    /// The bits of an IEEE 754 double.
    F64(u64),
    Str(String),
    Bytes(Vec<u8>),
    Bool(bool),
    /// Nothing stored; presence itself is the information.
    Null,
    Array(Vec<DynamicValue>),
    /// Nested object: values by name.
    Obj(FieldMap),
}

/// Values by name, in ascending order of the names.
#[derive(Debug, PartialEq)]
pub struct FieldMap {
    entries: Vec<(String, DynamicValue)>,
}

/// One dynamic field: the id of its name and its value.
#[derive(Debug, PartialEq)]
pub struct DynamicField {
    pub id: u16,
    pub value: DynamicValue,
}

/// The values that a list of dynamic values holds.
pub open spec fn values_view(items: Seq<DynamicValue>) -> Seq<DynView> {
    Seq::new(items.len(), |i: int| items[i].view())
}

impl DynamicValue {
    pub closed spec fn view(&self) -> DynView
        decreases self,
    {
        match self {
            DynamicValue::UInt(v) => DynView::UInt(*v as nat),
            DynamicValue::Int(v) => DynView::Int(*v as int),
            DynamicValue::F64(v) => DynView::F64(*v),
            DynamicValue::Str(s) => DynView::Str(s@),
            DynamicValue::Bytes(b) => DynView::Bytes(b@),
            DynamicValue::Bool(b) => DynView::Bool(*b),
            DynamicValue::Null => DynView::Null,
            DynamicValue::Array(items) => DynView::Array(
                Seq::new(
                    items@.len(),
                    |i: int|
                        if 0 <= i < items@.len() {
                            items@[i].view()
                        } else {
                            DynView::Null
                        },
                ),
            ),
            DynamicValue::Obj(m) => DynView::Obj(
                Seq::new(
                    m.entries@.len(),
                    |i: int|
                        if 0 <= i < m.entries@.len() {
                            (m.entries@[i].0@, m.entries@[i].1.view())
                        } else {
                            (Seq::empty(), DynView::Null)
                        },
                ),
            ),
        }
    }

    /// What each kind of value holds.
    pub broadcast proof fn lemma_view(self)
        ensures
            #[trigger] self.view() == (match self {
                DynamicValue::UInt(v) => DynView::UInt(v as nat),
                DynamicValue::Int(v) => DynView::Int(v as int),
                DynamicValue::F64(v) => DynView::F64(v),
                DynamicValue::Str(s) => DynView::Str(s@),
                DynamicValue::Bytes(b) => DynView::Bytes(b@),
                DynamicValue::Bool(b) => DynView::Bool(b),
                DynamicValue::Null => DynView::Null,
                DynamicValue::Array(items) => DynView::Array(values_view(items@)),
                DynamicValue::Obj(m) => DynView::Obj(m@),
            }),
    {
        match self {
            DynamicValue::Array(items) => {
                assert(self.view()->Array_0 =~= values_view(items@));
            },
            DynamicValue::Obj(m) => {
                assert(self.view()->Obj_0 =~= m@);
            },
            _ => {},
        }
    }
}

impl View for FieldMap {
    type V = Seq<(Seq<char>, DynView)>;

    /// The fields in stored order.
    closed spec fn view(&self) -> Self::V {
        Seq::new(self.entries@.len(), |i: int| (self.entries@[i].0@, self.entries@[i].1.view()))
    }
}

impl DynamicField {
    /// The id and the value.
    pub open spec fn view(&self) -> (u16, DynView) {
        (self.id, self.value.view())
    }
}

/// The fields that a list of dynamic fields holds.
pub open spec fn field_views(v: Seq<DynamicField>) -> Seq<(u16, DynView)> {
    v.map_values(|f: DynamicField| f.view())
}

/// The names ascend strictly.
pub open spec fn names_sorted(fields: Seq<(Seq<char>, DynView)>) -> bool {
    forall|i: int, j: int|
        0 <= i < j < fields.len() ==> crate::text::name_lt(fields[i].0, fields[j].0)
}

/// `fields` with `value` under `name`: replaced if the name is there, else
/// put in order.
pub open spec fn insert_field(
    fields: Seq<(Seq<char>, DynView)>,
    name: Seq<char>,
    value: DynView,
) -> Seq<(Seq<char>, DynView)>
    decreases fields.len(),
{
    if fields.len() == 0 {
        seq![(name, value)]
    } else if fields[0].0 == name {
        seq![(name, value)] + fields.drop_first()
    } else if crate::text::name_lt(fields[0].0, name) {
        seq![fields[0]] + insert_field(fields.drop_first(), name, value)
    } else {
        seq![(name, value)] + fields
    }
}

/// The value under `name`.
pub open spec fn find_field(fields: Seq<(Seq<char>, DynView)>, name: Seq<char>) -> Option<DynView>
    decreases fields.len(),
{
    if fields.len() == 0 {
        None
    } else if fields[0].0 == name {
        Some(fields[0].1)
    } else {
        find_field(fields.drop_first(), name)
    }
}

/// A name above all others goes to the end.
pub proof fn lemma_insert_last(
    fields: Seq<(Seq<char>, DynView)>,
    name: Seq<char>,
    value: DynView,
)
    requires
        forall|i: int| 0 <= i < fields.len() ==> crate::text::name_lt((#[trigger] fields[i]).0, name),
    ensures
        insert_field(fields, name, value) == fields.push((name, value)),
    decreases fields.len(),
{
    if fields.len() == 0 {
        assert(insert_field(fields, name, value) =~= fields.push((name, value)));
    } else {
        let rest = fields.drop_first();
        assert forall|i: int| 0 <= i < rest.len() implies crate::text::name_lt(
            (#[trigger] rest[i]).0,
            name,
        ) by {
            assert(rest[i] == fields[i + 1]);
        }
        lemma_insert_last(rest, name, value);
        crate::text::lemma_name_order(fields[0].0, name);
        assert(insert_field(fields, name, value) =~= fields.push((name, value)));
    }
}

/// Where `insert_field` puts a name: behind the `at` fields below it, in
/// place of an equal one.
pub proof fn lemma_insert_at(
    fields: Seq<(Seq<char>, DynView)>,
    name: Seq<char>,
    value: DynView,
    at: int,
)
    requires
        0 <= at <= fields.len(),
        forall|i: int| 0 <= i < at ==> crate::text::name_lt((#[trigger] fields[i]).0, name),
        at < fields.len() ==> !crate::text::name_lt(fields[at].0, name),
    ensures
        insert_field(fields, name, value) == (if at < fields.len() && fields[at].0 == name {
            fields.update(at, (name, value))
        } else {
            fields.insert(at, (name, value))
        }),
    decreases at,
{
    if at == 0 {
        if fields.len() > 0 && fields[0].0 == name {
            assert(insert_field(fields, name, value) =~= fields.update(0, (name, value)));
        } else {
            assert(insert_field(fields, name, value) =~= fields.insert(0, (name, value)));
        }
    } else {
        let rest = fields.drop_first();
        crate::text::lemma_name_order(fields[0].0, name);
        assert forall|i: int| 0 <= i < at - 1 implies crate::text::name_lt(
            (#[trigger] rest[i]).0,
            name,
        ) by {
            assert(rest[i] == fields[i + 1]);
        }
        lemma_insert_at(rest, name, value, at - 1);
        if at < fields.len() && fields[at].0 == name {
            assert(insert_field(fields, name, value) =~= fields.update(at, (name, value)));
        } else {
            assert(insert_field(fields, name, value) =~= fields.insert(at, (name, value)));
        }
    }
}

/// Inserting keeps the names sorted, and the inserted value is found; the
/// other names keep theirs.
#[verifier::spinoff_prover]
#[verifier::rlimit(40)]
pub proof fn law_insert_field(
    fields: Seq<(Seq<char>, DynView)>,
    name: Seq<char>,
    value: DynView,
    other: Seq<char>,
)
    requires
        names_sorted(fields),
    ensures
        names_sorted(insert_field(fields, name, value)),
        find_field(insert_field(fields, name, value), name) == Some(value),
        other != name ==> find_field(insert_field(fields, name, value), other) == find_field(
            fields,
            other,
        ),
        forall|i: int|
            0 <= i < insert_field(fields, name, value).len() ==> #[trigger] insert_field(
                fields,
                name,
                value,
            )[i].0 == name || exists|j: int|
                0 <= j < fields.len() && fields[j].0 == insert_field(fields, name, value)[i].0,
    decreases fields.len(),
{
    let out = insert_field(fields, name, value);
    if fields.len() == 0 {
        assert(out.drop_first() =~= Seq::empty());
        assert(find_field(out.drop_first(), other) is None);
    } else {
        let rest = fields.drop_first();
        crate::text::lemma_name_order(fields[0].0, name);
        if fields[0].0 == name {
            assert(out.drop_first() =~= rest);
            assert forall|i: int| 0 <= i < out.len() implies out[i].0 == name || exists|j: int|
                0 <= j < fields.len() && fields[j].0 == #[trigger] out[i].0 by {
                if i > 0 {
                    assert(fields[i].0 == out[i].0);
                }
            }
        } else if crate::text::name_lt(fields[0].0, name) {
            law_insert_field(rest, name, value, other);
            let tail = insert_field(rest, name, value);
            assert(out.drop_first() =~= tail);
            assert forall|i: int| 0 <= i < out.len() implies out[i].0 == name || exists|j: int|
                0 <= j < fields.len() && fields[j].0 == #[trigger] out[i].0 by {
                if i > 0 {
                    assert(out[i] == tail[i - 1]);
                    if tail[i - 1].0 != name {
                        let j = choose|j: int| 0 <= j < rest.len() && rest[j].0 == tail[i - 1].0;
                        assert(fields[j + 1].0 == out[i].0);
                    }
                } else {
                    assert(fields[0].0 == out[0].0);
                }
            }
            assert forall|i: int, j: int| 0 <= i < j < out.len() implies crate::text::name_lt(
                out[i].0,
                out[j].0,
            ) by {
                assert(out[j] == tail[j - 1]);
                if i == 0 {
                    if tail[j - 1].0 != name {
                        let t = choose|t: int| 0 <= t < rest.len() && rest[t].0 == tail[j - 1].0;
                        assert(fields[t + 1].0 == out[j].0);
                    }
                } else {
                    assert(out[i] == tail[i - 1]);
                }
            }
        } else {
            assert(out.drop_first() =~= fields);
            assert forall|i: int| 0 <= i < out.len() implies out[i].0 == name || exists|j: int|
                0 <= j < fields.len() && fields[j].0 == #[trigger] out[i].0 by {
                if i > 0 {
                    assert(fields[i - 1].0 == out[i].0);
                }
            }
            assert forall|i: int, j: int| 0 <= i < j < out.len() implies crate::text::name_lt(
                out[i].0,
                out[j].0,
            ) by {
                assert(out[j] == fields[j - 1]);
                if i == 0 {
                    if j > 1 {
                        crate::text::lemma_name_transitive(name, fields[0].0, fields[j - 1].0);
                    }
                } else {
                    assert(out[i] == fields[i - 1]);
                }
            }
        }
    }
}

impl FieldMap {
    /// No fields.
    pub fn new() -> (r: Self)
        ensures
            r@ == Seq::<(Seq<char>, DynView)>::empty(),
    {
        let r = FieldMap { entries: Vec::new() };
        assert(r@ =~= Seq::empty());
        r
    }

    /// How many fields there are.
    pub fn len(&self) -> (r: usize)
        ensures
            r == self@.len(),
    {
        self.entries.len()
    }

    /// Whether there are no fields.
    pub fn is_empty(&self) -> (r: bool)
        ensures
            r == (self@.len() == 0),
    {
        self.entries.len() == 0
    }

    /// Puts `value` under `name`, replacing what was there.
    pub fn insert(&mut self, name: String, value: DynamicValue)
        ensures
            final(self)@ == insert_field(old(self)@, name@, value.view()),
    {
        let mut at: usize = 0;
        while at < self.entries.len() && str_lt(self.entries[at].0.as_str(), name.as_str())
            invariant
                at <= self.entries@.len(),
                forall|i: int|
                    0 <= i < at ==> crate::text::name_lt((#[trigger] self@[i]).0, name@),
            decreases self.entries@.len() - at,
        {
            proof {
                assert(self@[at as int].0 == self.entries@[at as int].0@);
            }
            at = at + 1;
        }
        proof {
            if at < self.entries@.len() {
                assert(self@[at as int].0 == self.entries@[at as int].0@);
            }
            lemma_insert_at(self@, name@, value.view(), at as int);
        }
        let ghost before = self@;
        let ghost pair = (name@, value.view());
        if at < self.entries.len() && str_eq(self.entries[at].0.as_str(), name.as_str()) {
            self.entries.set(at, (name, value));
            assert(self@ =~= before.update(at as int, pair));
        } else {
            self.entries.insert(at, (name, value));
            assert(self@ =~= before.insert(at as int, pair));
        }
    }

    /// The value under `name`.
    pub fn get(&self, name: &str) -> (r: Option<&DynamicValue>)
        ensures
            match r {
                Some(v) => find_field(self@, name@) == Some(v.view()),
                None => find_field(self@, name@) is None,
            },
    {
        let mut i: usize = 0;
        assert(self@.skip(0) =~= self@);
        while i < self.entries.len()
            invariant
                i <= self.entries@.len(),
                find_field(self@, name@) == find_field(self@.skip(i as int), name@),
            decreases self.entries@.len() - i,
        {
            proof {
                assert(self@.skip(i as int)[0] == self@[i as int]);
                assert(self@.skip(i as int).drop_first() =~= self@.skip(i + 1));
            }
            if str_eq(self.entries[i].0.as_str(), name) {
                return Some(&self.entries[i].1);
            }
            i = i + 1;
        }
        None
    }

    /// Whether there is a value under `name`.
    pub fn contains_key(&self, name: &str) -> (r: bool)
        ensures
            r == (find_field(self@, name@) is Some),
    {
        match self.get(name) {
            Some(_) => true,
            None => false,
        }
    }

    /// The name and value of the field at position `i`.
    pub fn entry(&self, i: usize) -> (r: (&str, &DynamicValue))
        requires
            i < self@.len(),
        ensures
            r.0@ == self@[i as int].0,
            r.1.view() == self@[i as int].1,
    {
        (self.entries[i].0.as_str(), &self.entries[i].1)
    }
}

/// A copy of a value.
pub fn copy_value(value: &DynamicValue) -> (r: DynamicValue)
    ensures
        r.view() == value.view(),
    decreases value,
{
    broadcast use DynamicValue::lemma_view;

    match value {
        DynamicValue::UInt(v) => DynamicValue::UInt(*v),
        DynamicValue::Int(v) => DynamicValue::Int(*v),
        DynamicValue::F64(v) => DynamicValue::F64(*v),
        DynamicValue::Str(s) => DynamicValue::Str(String::from_str(s.as_str())),
        DynamicValue::Bytes(b) => DynamicValue::Bytes(to_vec(b.as_slice())),
        DynamicValue::Bool(b) => DynamicValue::Bool(*b),
        DynamicValue::Null => DynamicValue::Null,
        DynamicValue::Array(items) => {
            let mut out: Vec<DynamicValue> = Vec::new();
            let mut i: usize = 0;
            while i < items.len()
                invariant
                    *value == DynamicValue::Array(*items),
                    i <= items@.len(),
                    out@.len() == i,
                    forall|j: int| 0 <= j < i ==> (#[trigger] out@[j]).view() == items@[j].view(),
                decreases items@.len() - i,
            {
                proof {
                    assert(decreases_to!(value => value->Array_0));
                    assert(decreases_to!(value->Array_0 => value->Array_0@));
                    assert(decreases_to!(items@ => items@[i as int]));
                }
                out.push(copy_value(&items[i]));
                i = i + 1;
            }
            assert(values_view(out@) =~= values_view(items@));
            DynamicValue::Array(out)
        },
        DynamicValue::Obj(map) => DynamicValue::Obj(copy_fields(map)),
    }
}

/// A copy of values by name.
pub fn copy_fields(map: &FieldMap) -> (r: FieldMap)
    ensures
        r@ == map@,
    decreases map,
{
    let mut out: Vec<(String, DynamicValue)> = Vec::new();
    let mut i: usize = 0;
    while i < map.entries.len()
        invariant
            i <= map.entries@.len(),
            out@.len() == i,
            forall|j: int|
                0 <= j < i ==> (#[trigger] out@[j]).0@ == map.entries@[j].0@ && out@[j].1.view()
                    == map.entries@[j].1.view(),
        decreases map.entries@.len() - i,
    {
        proof {
            assert(decreases_to!(map => map.entries));
            assert(decreases_to!(map.entries => map.entries@));
            assert(decreases_to!(map.entries@ => map.entries@[i as int]));
            assert(decreases_to!(map.entries@[i as int] => map.entries@[i as int].1));
        }
        let name = String::from_str(map.entries[i].0.as_str());
        let value = copy_value(&map.entries[i].1);
        out.push((name, value));
        i = i + 1;
    }
    let r = FieldMap { entries: out };
    assert(r@ =~= map@);
    r
}

/// Field names and their dictionary ids.
pub type NameTable = Map<Seq<char>, u16>;

/// Dictionary ids and the field names they stand for.
pub type IdTable = Map<u16, Seq<char>>;

/// A dictionary that numbers names, giving a number to a name on first
/// sight.
pub trait NameResolver: Sized {
    /// What decides the numbers.
    type State;

    /// What else resolving a name may change, such as an engine that the
    /// dictionary is stored in.
    type World;

    /// What decides the numbers.
    spec fn state(&self) -> Self::State;

    /// What else resolving a name may change.
    spec fn world(&self) -> Self::World;

    /// The numbers given so far.
    spec fn table(s: Self::State) -> NameTable;

    /// Whether `name` has a number or can get one.
    spec fn ready(s: Self::State, name: Seq<char>) -> bool;

    /// The state once `name` has a number.
    spec fn step(s: Self::State, name: Seq<char>) -> Self::State;

    /// What resolving `name` may make of the rest.
    spec fn moved(s: Self::State, name: Seq<char>, w: Self::World, w2: Self::World) -> bool;

    /// Numbers that were given stay, and the name has one.
    proof fn step_appends(s: Self::State, name: Seq<char>)
        requires
            Self::ready(s, name),
        ensures
            Self::table(s).submap_of(Self::table(Self::step(s, name))),
            Self::table(Self::step(s, name)).dom().contains(name),
    ;

    /// The number of `name`.
    fn resolve(&mut self, name: &str) -> (r: u16)
        requires
            Self::ready(old(self).state(), name@),
        ensures
            final(self).state() == Self::step(old(self).state(), name@),
            Self::moved(old(self).state(), name@, old(self).world(), final(self).world()),
            r == Self::table(final(self).state())[name@],
    ;
}

/// The state once the names of `order` have numbers, given in that order.
pub open spec fn steps<R: NameResolver>(s: R::State, order: Seq<Seq<char>>) -> R::State
    decreases order.len(),
{
    if order.len() == 0 {
        s
    } else {
        R::step(steps::<R>(s, order.drop_last()), order.last())
    }
}

/// Whether the names of `order` can be numbered, in that order.
pub open spec fn ready_all<R: NameResolver>(s: R::State, order: Seq<Seq<char>>) -> bool
    decreases order.len(),
{
    order.len() == 0 || (ready_all::<R>(s, order.drop_last()) && R::ready(
        steps::<R>(s, order.drop_last()),
        order.last(),
    ))
}

/// `trail` is what the rest may be before each name of `order` and after
/// the last.
pub open spec fn is_trail<R: NameResolver>(
    s: R::State,
    order: Seq<Seq<char>>,
    trail: Seq<R::World>,
) -> bool {
    &&& trail.len() == order.len() + 1
    &&& forall|i: int|
        0 <= i < order.len() ==> R::moved(
            steps::<R>(s, order.take(i)),
            #[trigger] order[i],
            trail[i],
            trail[i + 1],
        )
}

/// What numbering the names of `order`, in that order, may make of the
/// rest.
pub open spec fn moved_all<R: NameResolver>(
    s: R::State,
    order: Seq<Seq<char>>,
    w: R::World,
    w2: R::World,
) -> bool {
    exists|trail: Seq<R::World>| #[trigger]
        is_trail::<R>(s, order, trail) && trail[0] == w && trail.last() == w2
}

/// Numbering one list of names after another.
pub proof fn lemma_steps_concat<R: NameResolver>(
    s: R::State,
    a: Seq<Seq<char>>,
    b: Seq<Seq<char>>,
)
    ensures
        steps::<R>(s, a + b) == steps::<R>(steps::<R>(s, a), b),
        ready_all::<R>(s, a + b) <==> ready_all::<R>(s, a) && ready_all::<R>(steps::<R>(s, a), b),
    decreases b.len(),
{
    if b.len() == 0 {
        assert(a + b =~= a);
    } else {
        lemma_steps_concat::<R>(s, a, b.drop_last());
        assert((a + b).drop_last() =~= a + b.drop_last());
        assert((a + b).last() == b.last());
    }
}

/// What one list of names after another may make of the rest.
pub proof fn lemma_moved_concat<R: NameResolver>(
    s: R::State,
    a: Seq<Seq<char>>,
    b: Seq<Seq<char>>,
    w: R::World,
    mid: R::World,
    w2: R::World,
)
    requires
        moved_all::<R>(s, a, w, mid),
        moved_all::<R>(steps::<R>(s, a), b, mid, w2),
    ensures
        moved_all::<R>(s, a + b, w, w2),
{
    let sa = steps::<R>(s, a);
    let ta = choose|t: Seq<R::World>| #[trigger]
        is_trail::<R>(s, a, t) && t[0] == w && t.last() == mid;
    let tb = choose|t: Seq<R::World>| #[trigger]
        is_trail::<R>(sa, b, t) && t[0] == mid && t.last() == w2;
    let t = ta + tb.skip(1);
    let order = a + b;
    assert forall|i: int| 0 <= i < order.len() implies R::moved(
        steps::<R>(s, order.take(i)),
        #[trigger] order[i],
        t[i],
        t[i + 1],
    ) by {
        if i < a.len() {
            assert(order.take(i) =~= a.take(i));
            assert(order[i] == a[i]);
        } else {
            let j = i - a.len();
            assert(order.take(i) =~= a + b.take(j));
            lemma_steps_concat::<R>(s, a, b.take(j));
            assert(order[i] == b[j]);
            assert(R::moved(steps::<R>(sa, b.take(j)), b[j], tb[j], tb[j + 1]));
            assert(t[i] == tb[j]);
            assert(t[i + 1] == tb[j + 1]);
        }
    }
    assert(is_trail::<R>(s, order, t));
    assert(t.last() == w2);
}

/// No names change nothing.
pub proof fn lemma_moved_none<R: NameResolver>(s: R::State, w: R::World)
    ensures
        moved_all::<R>(s, Seq::empty(), w, w),
{
    assert(is_trail::<R>(s, Seq::empty(), seq![w]));
}

/// One name as a list.
pub proof fn lemma_steps_one<R: NameResolver>(s: R::State, name: Seq<char>)
    ensures
        steps::<R>(s, seq![name]) == R::step(s, name),
        ready_all::<R>(s, seq![name]) == R::ready(s, name),
        forall|w: R::World, w2: R::World| #[trigger]
            R::moved(s, name, w, w2) ==> moved_all::<R>(s, seq![name], w, w2),
{
    let one = seq![name];
    assert(one.drop_last() =~= Seq::<Seq<char>>::empty());
    assert(one.last() == name);
    assert(steps::<R>(s, one.drop_last()) == s);
    assert(ready_all::<R>(s, one.drop_last()));
    assert forall|w: R::World, w2: R::World| #[trigger]
        R::moved(s, name, w, w2) implies moved_all::<R>(s, one, w, w2) by {
        let trail = seq![w, w2];
        assert forall|i: int| 0 <= i < one.len() implies R::moved(
            steps::<R>(s, one.take(i)),
            #[trigger] one[i],
            trail[i],
            trail[i + 1],
        ) by {
            assert(one.take(0) =~= Seq::<Seq<char>>::empty());
        }
        assert(is_trail::<R>(s, one, trail));
    }
}

/// Numbering names keeps the numbers that were given, and numbers each of
/// the names.
pub proof fn law_steps_append<R: NameResolver>(s: R::State, order: Seq<Seq<char>>)
    requires
        ready_all::<R>(s, order),
    ensures
        R::table(s).submap_of(R::table(steps::<R>(s, order))),
        forall|i: int|
            0 <= i < order.len() ==> R::table(steps::<R>(s, order)).dom().contains(
                #[trigger] order[i],
            ),
    decreases order.len(),
{
    if order.len() > 0 {
        let init = order.drop_last();
        law_steps_append::<R>(s, init);
        let mid = steps::<R>(s, init);
        R::step_appends(mid, order.last());
        lemma_submap_transitive(
            R::table(s),
            R::table(mid),
            R::table(steps::<R>(s, order)),
        );
        assert forall|i: int| 0 <= i < order.len() implies R::table(
            steps::<R>(s, order),
        ).dom().contains(#[trigger] order[i]) by {
            if i < order.len() - 1 {
                assert(init[i] == order[i]);
                assert(R::table(mid).dom().contains(order[i]));
            }
        }
    }
}

/// The names that a value mentions, in the order in which they are written.
pub open spec fn value_names(v: DynView) -> Seq<Seq<char>>
    decreases v,
{
    match v {
        DynView::Array(items) => items_names(items),
        DynView::Obj(fields) => fields_names(fields),
        _ => Seq::empty(),
    }
}

/// The names that the values of a list mention.
pub open spec fn items_names(items: Seq<DynView>) -> Seq<Seq<char>>
    decreases items,
{
    if items.len() == 0 {
        Seq::empty()
    } else {
        items_names(items.drop_last()) + value_names(items.last())
    }
}

/// The names that a list of fields mentions: each field's own, then those
/// of its value.
pub open spec fn fields_names(fields: Seq<(Seq<char>, DynView)>) -> Seq<Seq<char>>
    decreases fields,
{
    if fields.len() == 0 {
        Seq::empty()
    } else {
        fields_names(fields.drop_last()) + seq![fields.last().0] + value_names(fields.last().1)
    }
}

/// Every name of `order` has a number.
pub open spec fn all_known(order: Seq<Seq<char>>, names: NameTable) -> bool {
    forall|i: int| 0 <= i < order.len() ==> names.dom().contains(#[trigger] order[i])
}

/// The stored form of a field id: one byte below 255, else `0xFF` and two.
pub open spec fn id_bytes(id: u16) -> Seq<u8> {
    if id < 0xFF {
        seq![id as u8]
    } else {
        seq![0xFFu8] + crate::bytes::be_bytes(id as nat, 2)
    }
}

/// The number of bytes of a big-endian number without leading zeros.
pub open spec fn uint_width(v: nat) -> nat
    decreases v,
{
    if v < 0x100 {
        1
    } else {
        1 + uint_width(v / 0x100)
    }
}

/// The number of bytes of a signed number: the smallest width that keeps the
/// sign of a non-negative one; one more than the complement needs, at most
/// eight, of a negative one.
pub open spec fn int_width(v: int) -> nat {
    if v >= 0 {
        if v < 0x80 {
            1
        } else if v < 0x8000 {
            2
        } else if v < 0x80_0000 {
            3
        } else if v < 0x8000_0000 {
            4
        } else if v < 0x80_0000_0000 {
            5
        } else if v < 0x8000_0000_0000 {
            6
        } else if v < 0x80_0000_0000_0000 {
            7
        } else {
            8
        }
    } else {
        let k = uint_width((-1 - v) as nat);
        if k < 8 {
            k + 1
        } else {
            8
        }
    }
}

/// Two's complement of `v` in `int_width(v)` bytes, big-endian.
pub open spec fn int_bytes(v: int) -> Seq<u8> {
    let w = int_width(v);
    if v >= 0 {
        crate::bytes::be_bytes(v as nat, w)
    } else {
        crate::bytes::be_bytes((v + crate::bytes::pow256(w)) as nat, w)
    }
}

/// The signed number that big-endian two's complement bytes write.
pub open spec fn int_value(b: Seq<u8>) -> int {
    if b[0] >= 0x80 {
        crate::bytes::be_value(b) - crate::bytes::pow256(b.len())
    } else {
        crate::bytes::be_value(b) as int
    }
}

/// The type of a value.
pub open spec fn value_type(v: DynView) -> ObjValueType {
    match v {
        DynView::UInt(_) => ObjValueType::UInt,
        DynView::Int(_) => ObjValueType::Int,
        DynView::F64(_) => ObjValueType::F64,
        DynView::Str(_) => ObjValueType::Str,
        DynView::Bytes(_) => ObjValueType::Bytes,
        DynView::Bool(_) => ObjValueType::Bool,
        DynView::Null => ObjValueType::Null,
        DynView::Array(_) => ObjValueType::Array,
        DynView::Obj(_) => ObjValueType::Obj,
    }
}

/// A type byte, a length and a body.
pub open spec fn tagged(t: ObjValueType, body: Seq<u8>) -> Seq<u8> {
    seq![crate::model::wrappers::obj_value::type_byte(t)]
        + crate::wrappers::wire::wire_bytes(body.len()) + body
}

/// The body of a value.
pub open spec fn value_body(v: DynView, names: NameTable) -> Seq<u8>
    decreases v,
{
    match v {
        DynView::UInt(n) => crate::bytes::be_bytes(n, uint_width(n)),
        DynView::Int(n) => int_bytes(n),
        DynView::F64(bits) => crate::bytes::be_bytes(bits as nat, 8),
        DynView::Str(s) => vstd::utf8::encode_utf8(s),
        DynView::Bytes(b) => b,
        DynView::Bool(b) => seq![if b { 1u8 } else { 0u8 }],
        DynView::Null => Seq::empty(),
        DynView::Array(items) => crate::wrappers::wire::wire_bytes(items.len()) + items_bytes(
            items,
            names,
        ),
        DynView::Obj(fields) => fields_bytes(fields, names),
    }
}

/// The elements of an array, one after the other.
pub open spec fn items_bytes(items: Seq<DynView>, names: NameTable) -> Seq<u8>
    decreases items,
{
    if items.len() == 0 {
        Seq::empty()
    } else {
        items_bytes(items.drop_last(), names) + tagged(
            value_type(items.last()),
            value_body(items.last(), names),
        )
    }
}

/// The frames of an object's fields, one after the other.
pub open spec fn fields_bytes(fields: Seq<(Seq<char>, DynView)>, names: NameTable) -> Seq<u8>
    decreases fields,
{
    if fields.len() == 0 {
        Seq::empty()
    } else {
        fields_bytes(fields.drop_last(), names) + id_bytes(names[fields.last().0]) + tagged(
            value_type(fields.last().1),
            value_body(fields.last().1, names),
        )
    }
}

/// The frame of a value under a field id.
pub open spec fn frame_bytes(id: u16, v: DynView, names: NameTable) -> Seq<u8> {
    id_bytes(id) + tagged(value_type(v), value_body(v, names))
}

/// No object anywhere in the value.
pub open spec fn no_objects(v: DynView) -> bool
    decreases v,
{
    match v {
        DynView::Array(items) => no_object_items(items),
        DynView::Obj(_) => false,
        _ => true,
    }
}

/// No object anywhere in the values.
pub open spec fn no_object_items(items: Seq<DynView>) -> bool
    decreases items,
{
    items.len() == 0 || (no_object_items(items.drop_last()) && no_objects(items.last()))
}

/// A value without objects mentions no names.
proof fn lemma_no_objects_names(v: DynView)
    requires
        no_objects(v),
    ensures
        value_names(v) == Seq::<Seq<char>>::empty(),
    decreases v,
{
    if let DynView::Array(items) = v {
        lemma_no_objects_items(items);
    }
}

proof fn lemma_no_objects_items(items: Seq<DynView>)
    requires
        no_object_items(items),
    ensures
        items_names(items) == Seq::<Seq<char>>::empty(),
    decreases items,
{
    if items.len() > 0 {
        lemma_no_objects_items(items.drop_last());
        lemma_no_objects_names(items.last());
        assert(items_names(items) =~= Seq::<Seq<char>>::empty());
    }
}

/// Bytes do not depend on names that are numbered later.
proof fn lemma_body_stable(v: DynView, a: NameTable, b: NameTable)
    requires
        all_known(value_names(v), a),
        a.submap_of(b),
    ensures
        value_body(v, a) == value_body(v, b),
    decreases v,
{
    match v {
        DynView::Array(items) => lemma_items_stable(items, a, b),
        DynView::Obj(fields) => lemma_fields_stable(fields, a, b),
        _ => {},
    }
}

proof fn lemma_items_stable(items: Seq<DynView>, a: NameTable, b: NameTable)
    requires
        all_known(items_names(items), a),
        a.submap_of(b),
    ensures
        items_bytes(items, a) == items_bytes(items, b),
    decreases items,
{
    if items.len() > 0 {
        let x = items_names(items.drop_last());
        let y = value_names(items.last());
        lemma_known_split(x, y, a);
        lemma_items_stable(items.drop_last(), a, b);
        lemma_body_stable(items.last(), a, b);
    }
}

/// Names given later do not change stored fields.
pub proof fn lemma_fields_stable(fields: Seq<(Seq<char>, DynView)>, a: NameTable, b: NameTable)
    requires
        all_known(fields_names(fields), a),
        a.submap_of(b),
    ensures
        fields_bytes(fields, a) == fields_bytes(fields, b),
    decreases fields,
{
    if fields.len() > 0 {
        let x = fields_names(fields.drop_last());
        let n = seq![fields.last().0];
        let y = value_names(fields.last().1);
        lemma_known_split(x + n, y, a);
        lemma_known_split(x, n, a);
        assert(n[0] == fields.last().0);
        assert(a.dom().contains(n[0]));
        assert(b.dom().contains(n[0]));
        assert(a[n[0]] == b[n[0]]);
        lemma_fields_stable(fields.drop_last(), a, b);
        lemma_body_stable(fields.last().1, a, b);
    }
}

proof fn lemma_submap_transitive(a: NameTable, b: NameTable, c: NameTable)
    requires
        a.submap_of(b),
        b.submap_of(c),
    ensures
        a.submap_of(c),
{
    assert forall|k: Seq<char>| #[trigger] a.dom().contains(k) implies c.dom().contains(k) && a[k]
        == c[k] by {
        assert(b.dom().contains(k));
        assert(c.dom().contains(k));
    }
}

proof fn lemma_known_split(x: Seq<Seq<char>>, y: Seq<Seq<char>>, a: NameTable)
    ensures
        all_known(x + y, a) <==> all_known(x, a) && all_known(y, a),
{
    if all_known(x + y, a) {
        assert forall|i: int| 0 <= i < x.len() implies a.dom().contains(#[trigger] x[i]) by {
            assert((x + y)[i] == x[i]);
        }
        assert forall|i: int| 0 <= i < y.len() implies a.dom().contains(#[trigger] y[i]) by {
            assert((x + y)[x.len() + i] == y[i]);
        }
    }
}

/// How many bytes `v` takes without leading zeros.
pub fn width_of_uint(v: u64) -> (r: usize)
    ensures
        r == uint_width(v as nat),
        1 <= r <= 8,
        v < crate::bytes::pow256(r as nat),
{
    proof {
        reveal_with_fuel(uint_width, 9);
        crate::bytes::lemma_pow256_small();
    }
    if v < 0x100 {
        1
    } else if v < 0x1_0000 {
        2
    } else if v < 0x100_0000 {
        3
    } else if v < 0x1_0000_0000 {
        4
    } else if v < 0x100_0000_0000 {
        5
    } else if v < 0x1_0000_0000_0000 {
        6
    } else if v < 0x100_0000_0000_0000 {
        7
    } else {
        8
    }
}

/// Only the low bytes of a number are written.
proof fn lemma_be_bytes_wrap(a: nat, k: nat, w: nat)
    ensures
        crate::bytes::be_bytes(a + k * crate::bytes::pow256(w), w) == crate::bytes::be_bytes(a, w),
    decreases w,
{
    if w > 0 {
        let p = crate::bytes::pow256((w - 1) as nat);
        let b = a + k * crate::bytes::pow256(w);
        assert(k * (256 * p) == 256 * (k * p)) by (nonlinear_arith);
        assert(b / 256 == a / 256 + k * p);
        assert(b % 256 == a % 256);
        lemma_be_bytes_wrap(a / 256, k, (w - 1) as nat);
    }
}

/// Two's complement of `v`, without excess sign bytes.
fn encode_int(v: i64) -> (r: Vec<u8>)
    ensures
        r@ == int_bytes(v as int),
{
    let mut out: Vec<u8> = Vec::new();
    if v >= 0 {
        let u: u64 = v as u64;
        let w: usize = if u < 0x80 {
            1
        } else if u < 0x8000 {
            2
        } else if u < 0x80_0000 {
            3
        } else if u < 0x8000_0000 {
            4
        } else if u < 0x80_0000_0000 {
            5
        } else if u < 0x8000_0000_0000 {
            6
        } else if u < 0x80_0000_0000_0000 {
            7
        } else {
            8
        };
        push_be(&mut out, u, w);
        assert(out@ =~= int_bytes(v as int));
    } else {
        let n: u64 = (-(v + 1)) as u64;
        let k: usize = width_of_uint(n);
        let w: usize = if k < 8 {
            k + 1
        } else {
            8
        };
        push_be(&mut out, u64::MAX - n, w);
        proof {
            crate::bytes::lemma_pow256_small();
            // 2^64 + v and 256^w + v have the same low `w` bytes
            let low = (v + crate::bytes::pow256(w as nat)) as nat;
            let p = crate::bytes::pow256(w as nat);
            crate::bytes::lemma_pow256_monotone(k as nat, w as nat);
            assert(n < p);
            let times: nat = if w == 2 {
                0xFFFF_FFFF_FFFF
            } else if w == 3 {
                0xFF_FFFF_FFFF
            } else if w == 4 {
                0xFFFF_FFFF
            } else if w == 5 {
                0xFF_FFFF
            } else if w == 6 {
                0xFFFF
            } else if w == 7 {
                0xFF
            } else {
                0
            };
            assert((times + 1) * p == 0x1_0000_0000_0000_0000) by (nonlinear_arith)
                requires
                    w == 2 ==> times == 0xFFFF_FFFF_FFFF && p == 0x1_0000,
                    w == 3 ==> times == 0xFF_FFFF_FFFF && p == 0x100_0000,
                    w == 4 ==> times == 0xFFFF_FFFF && p == 0x1_0000_0000,
                    w == 5 ==> times == 0xFF_FFFF && p == 0x100_0000_0000,
                    w == 6 ==> times == 0xFFFF && p == 0x1_0000_0000_0000,
                    w == 7 ==> times == 0xFF && p == 0x100_0000_0000_0000,
                    w == 8 ==> times == 0 && p == 0x1_0000_0000_0000_0000,
                    2 <= w <= 8,
            ;
            assert((times + 1) * p == times * p + p) by (nonlinear_arith);
            assert(low + times * p == u64::MAX - n);
            lemma_be_bytes_wrap(low, times, w as nat);
            assert(out@ =~= int_bytes(v as int));
        }
    }
    out
}

/// Appends the stored form of a field id.
pub fn put_id(buf: &mut Vec<u8>, id: u16)
    ensures
        final(buf)@ == old(buf)@ + id_bytes(id),
{
    if id < 0xFF {
        buf.push(id as u8);
    } else {
        buf.push(0xFF);
        push_be(buf, id as u64, 2);
    }
    assert(buf@ =~= old(buf)@ + id_bytes(id));
}

/// Appends a type byte, a length and a body.
fn put_tagged(buf: &mut Vec<u8>, ty: ObjValueType, body: Vec<u8>)
    ensures
        final(buf)@ == old(buf)@ + tagged(ty, body@),
{
    let mut body = body;
    let ghost b = body@;
    buf.push(ty.to_byte());
    put_len(buf, body.len());
    buf.append(&mut body);
    assert(buf@ =~= old(buf)@ + tagged(ty, b));
}

/// The type and body of a value. The names of nested objects are numbered
/// by `dict`, in the order in which they are written.
#[verifier::spinoff_prover]
#[verifier::rlimit(50)]
fn encode_value<R: NameResolver>(value: &DynamicValue, dict: &mut R) -> (r: (
    ObjValueType,
    Vec<u8>,
))
    requires
        ready_all::<R>(old(dict).state(), value_names(value.view())),
    ensures
        r.0 == value_type(value.view()),
        r.1@ == value_body(value.view(), R::table(final(dict).state())),
        final(dict).state() == steps::<R>(old(dict).state(), value_names(value.view())),
        moved_all::<R>(
            old(dict).state(),
            value_names(value.view()),
            old(dict).world(),
            final(dict).world(),
        ),
    decreases value,
{
    broadcast use DynamicValue::lemma_view;

    proof {
        lemma_moved_none::<R>(dict.state(), dict.world());
    }
    match value {
        DynamicValue::Int(v) => (ObjValueType::Int, encode_int(*v)),
        DynamicValue::UInt(v) => {
            let w: usize = width_of_uint(*v);
            (ObjValueType::UInt, crate::bytes::be_vec(*v, w))
        },
        DynamicValue::F64(bits) => (ObjValueType::F64, crate::bytes::be_vec(*bits, 8)),
        DynamicValue::Str(s) => (ObjValueType::Str, to_vec(s.as_str().as_bytes())),
        DynamicValue::Bytes(b) => (ObjValueType::Bytes, to_vec(b.as_slice())),
        DynamicValue::Bool(b) => {
            let mut body: Vec<u8> = Vec::new();
            body.push(if *b {
                1
            } else {
                0
            });
            (ObjValueType::Bool, body)
        },
        DynamicValue::Null => (ObjValueType::Null, Vec::new()),
        DynamicValue::Array(items) => {
            let mut body: Vec<u8> = Vec::new();
            put_len(&mut body, items.len());
            let ghost head = body@;
            let ghost all = values_view(items@);
            let ghost s0 = dict.state();
            let ghost w0 = dict.world();
            let mut i: usize = 0;
            proof {
                assert(all.take(0) =~= Seq::empty());
                assert(body@ =~= head + items_bytes(all.take(0), R::table(s0)));
                assert(items_names(all.take(0)) =~= Seq::empty());
                lemma_moved_none::<R>(s0, w0);
            }
            while i < items.len()
                invariant
                    *value == DynamicValue::Array(*items),
                    all == values_view(items@),
                    i <= items@.len(),
                    ready_all::<R>(s0, items_names(all)),
                    dict.state() == steps::<R>(s0, items_names(all.take(i as int))),
                    moved_all::<R>(s0, items_names(all.take(i as int)), w0, dict.world()),
                    body@ == head + items_bytes(all.take(i as int), R::table(dict.state())),
                decreases items@.len() - i,
            {
                let ghost done = all.take(i as int);
                let ghost next = all.take(i + 1);
                let ghost before = dict.state();
                let ghost before_w = dict.world();
                proof {
                    assert(next.drop_last() =~= done);
                    assert(next.last() == items@[i as int].view());
                    lemma_ready_items::<R>(s0, all, i + 1);
                    lemma_steps_concat::<R>(s0, items_names(done), value_names(next.last()));
                    law_steps_append::<R>(before, value_names(next.last()));
                    law_steps_append::<R>(s0, items_names(done));
                    assert(decreases_to!(value => value->Array_0));
                    assert(decreases_to!(value->Array_0 => value->Array_0@));
                    assert(decreases_to!(items@ => items@[i as int]));
                }
                let (ty, b) = encode_value(&items[i], dict);
                put_tagged(&mut body, ty, b);
                proof {
                    lemma_moved_concat::<R>(
                        s0,
                        items_names(done),
                        value_names(next.last()),
                        w0,
                        before_w,
                        dict.world(),
                    );
                    lemma_items_stable(done, R::table(before), R::table(dict.state()));
                    assert(body@ =~= head + items_bytes(next, R::table(dict.state())));
                }
                i = i + 1;
            }
            proof {
                assert(all.take(i as int) =~= all);
            }
            (ObjValueType::Array, body)
        },
        DynamicValue::Obj(map) => (ObjValueType::Obj, encode_fields(map, dict)),
    }
}

/// The frames of the fields of an object.
#[verifier::spinoff_prover]
#[verifier::rlimit(60)]
pub fn encode_fields<R: NameResolver>(map: &FieldMap, dict: &mut R) -> (r: Vec<u8>)
    requires
        ready_all::<R>(old(dict).state(), fields_names(map@)),
    ensures
        r@ == fields_bytes(map@, R::table(final(dict).state())),
        final(dict).state() == steps::<R>(old(dict).state(), fields_names(map@)),
        moved_all::<R>(
            old(dict).state(),
            fields_names(map@),
            old(dict).world(),
            final(dict).world(),
        ),
    decreases map,
{
    let mut body: Vec<u8> = Vec::new();
    let ghost all = map@;
    let ghost s0 = dict.state();
    let ghost w0 = dict.world();
    let mut i: usize = 0;
    proof {
        assert(all.take(0) =~= Seq::empty());
        assert(body@ =~= fields_bytes(all.take(0), R::table(s0)));
        assert(fields_names(all.take(0)) =~= Seq::empty());
        lemma_moved_none::<R>(s0, w0);
    }
    while i < map.entries.len()
        invariant
            all == map@,
            i <= map.entries@.len(),
            ready_all::<R>(s0, fields_names(all)),
            dict.state() == steps::<R>(s0, fields_names(all.take(i as int))),
            moved_all::<R>(s0, fields_names(all.take(i as int)), w0, dict.world()),
            body@ == fields_bytes(all.take(i as int), R::table(dict.state())),
        decreases map.entries@.len() - i,
    {
        let ghost done = all.take(i as int);
        let ghost next = all.take(i + 1);
        let ghost before = dict.state();
        let ghost w1 = dict.world();
        let ghost name = next.last().0;
        let ghost inner = next.last().1;
        let ghost x = fields_names(done);
        proof {
            assert(next.drop_last() =~= done);
            assert(all[i as int] == (map.entries@[i as int].0@, map.entries@[i as int].1.view()));
            lemma_ready_fields::<R>(s0, all, i + 1);
            lemma_steps_concat::<R>(s0, x + seq![name], value_names(inner));
            lemma_steps_concat::<R>(s0, x, seq![name]);
            lemma_steps_one::<R>(before, name);
            law_steps_append::<R>(s0, x);
            R::step_appends(before, name);
            law_steps_append::<R>(R::step(before, name), value_names(inner));
        }
        let id: u16 = dict.resolve(map.entries[i].0.as_str());
        put_id(&mut body, id);
        let ghost mid = dict.state();
        let ghost w2 = dict.world();
        proof {
            assert(decreases_to!(map => map.entries));
            assert(decreases_to!(map.entries => map.entries@));
            assert(decreases_to!(map.entries@ => map.entries@[i as int]));
            assert(decreases_to!(map.entries@[i as int] => map.entries@[i as int].1));
        }
        let (ty, b) = encode_value(&map.entries[i].1, dict);
        put_tagged(&mut body, ty, b);
        proof {
            lemma_moved_concat::<R>(s0, x, seq![name], w0, w1, w2);
            lemma_moved_concat::<R>(
                s0,
                x + seq![name],
                value_names(inner),
                w0,
                w2,
                dict.world(),
            );
            let t0 = R::table(before);
            let t1 = R::table(mid);
            let t2 = R::table(dict.state());
            lemma_submap_transitive(t0, t1, t2);
            lemma_fields_stable(done, t0, t2);
            assert(t2.dom().contains(name));
            assert(t1[name] == t2[name]);
            assert(body@ =~= fields_bytes(next, t2));
        }
        i = i + 1;
    }
    proof {
        assert(all.take(i as int) =~= all);
    }
    body
}

proof fn lemma_ready_items<R: NameResolver>(s: R::State, items: Seq<DynView>, n: int)
    requires
        0 <= n <= items.len(),
        ready_all::<R>(s, items_names(items)),
    ensures
        ready_all::<R>(s, items_names(items.take(n))),
    decreases items.len(),
{
    if n == items.len() {
        assert(items.take(n) =~= items);
    } else {
        lemma_steps_concat::<R>(s, items_names(items.drop_last()), value_names(items.last()));
        lemma_ready_items::<R>(s, items.drop_last(), n);
        assert(items.drop_last().take(n) =~= items.take(n));
    }
}

proof fn lemma_ready_fields<R: NameResolver>(
    s: R::State,
    fields: Seq<(Seq<char>, DynView)>,
    n: int,
)
    requires
        0 <= n <= fields.len(),
        ready_all::<R>(s, fields_names(fields)),
    ensures
        ready_all::<R>(s, fields_names(fields.take(n))),
    decreases fields.len(),
{
    if n == fields.len() {
        assert(fields.take(n) =~= fields);
    } else {
        let x = fields_names(fields.drop_last());
        let m = seq![fields.last().0];
        lemma_steps_concat::<R>(s, x + m, value_names(fields.last().1));
        lemma_steps_concat::<R>(s, x, m);
        lemma_ready_fields::<R>(s, fields.drop_last(), n);
        assert(fields.drop_last().take(n) =~= fields.take(n));
    }
}

/// A dictionary in which every name has the number 0, for values without
/// objects, which mention no names.
struct NoDict;

impl NameResolver for NoDict {
    type State = ();

    type World = ();

    open spec fn state(&self) -> () {
        ()
    }

    open spec fn world(&self) -> () {
        ()
    }

    open spec fn table(s: ()) -> NameTable {
        Map::new(|name: Seq<char>| true, |name: Seq<char>| 0u16)
    }

    open spec fn ready(s: (), name: Seq<char>) -> bool {
        true
    }

    open spec fn step(s: (), name: Seq<char>) -> () {
        ()
    }

    open spec fn moved(s: (), name: Seq<char>, w: (), w2: ()) -> bool {
        true
    }

    proof fn step_appends(s: (), name: Seq<char>) {
    }

    fn resolve(&mut self, name: &str) -> (r: u16) {
        0
    }
}

/// Appends the frame of a value under a field id. A value with nested
/// objects needs a dictionary for their names: see [`put_frame_named`].
pub fn put_frame(buf: &mut Vec<u8>, id: u16, value: &DynamicValue)
    requires
        no_objects(value.view()),
    ensures
        final(buf)@ == old(buf)@ + frame_bytes(id, value.view(), Map::empty()),
{
    put_id(buf, id);
    let mut dict = NoDict;
    proof {
        lemma_no_objects_names(value.view());
    }
    let (ty, body) = encode_value(value, &mut dict);
    proof {
        lemma_body_stable(value.view(), Map::empty(), NoDict::table(()));
    }
    put_tagged(buf, ty, body);
    assert(buf@ =~= old(buf)@ + frame_bytes(id, value.view(), Map::empty()));
}

/// The names that the frame of a named field mentions.
pub open spec fn frame_names(name: Seq<char>, v: DynView) -> Seq<Seq<char>> {
    seq![name] + value_names(v)
}

/// Appends the frame of a named field. Its name, then the names of nested
/// objects, are numbered by `dict`.
pub fn put_frame_named<R: NameResolver>(
    buf: &mut Vec<u8>,
    name: &str,
    value: &DynamicValue,
    dict: &mut R,
)
    requires
        ready_all::<R>(old(dict).state(), frame_names(name@, value.view())),
    ensures
        final(dict).state() == steps::<R>(
            old(dict).state(),
            frame_names(name@, value.view()),
        ),
        moved_all::<R>(
            old(dict).state(),
            frame_names(name@, value.view()),
            old(dict).world(),
            final(dict).world(),
        ),
        final(buf)@ == old(buf)@ + frame_bytes(
            R::table(final(dict).state())[name@],
            value.view(),
            R::table(final(dict).state()),
        ),
{
    let ghost before = dict.state();
    let ghost w0 = dict.world();
    proof {
        lemma_steps_concat::<R>(before, seq![name@], value_names(value.view()));
        lemma_steps_one::<R>(before, name@);
        R::step_appends(before, name@);
        law_steps_append::<R>(R::step(before, name@), value_names(value.view()));
    }
    let id: u16 = dict.resolve(name);
    put_id(buf, id);
    let ghost mid = R::table(dict.state());
    let ghost w1 = dict.world();
    let (ty, body) = encode_value(value, dict);
    put_tagged(buf, ty, body);
    proof {
        lemma_moved_concat::<R>(
            before,
            seq![name@],
            value_names(value.view()),
            w0,
            w1,
            dict.world(),
        );
        let t = R::table(dict.state());
        assert(t.dom().contains(name@));
        assert(mid[name@] == t[name@]);
        assert(buf@ =~= old(buf)@ + frame_bytes(t[name@], value.view(), t));
    }
}

/// The dictionary in the other direction: the name of a number.
pub trait NameLookup: Sized {
    /// The names by number.
    spec fn ids(&self) -> IdTable;

    /// The name of `id`.
    fn name_of(&mut self, id: u16) -> (r: Option<String>)
        ensures
            final(self).ids() == old(self).ids(),
            match r {
                Some(s) => old(self).ids().dom().contains(id) && s@ == old(self).ids()[id],
                None => !old(self).ids().dom().contains(id),
            },
    ;
}

/// A dictionary of no names.
pub struct NoNames;

impl NameLookup for NoNames {
    open spec fn ids(&self) -> IdTable {
        Map::empty()
    }

    fn name_of(&mut self, id: u16) -> (r: Option<String>) {
        None
    }
}

/// The name that a nested field gets: that of its id, or the id in decimal
/// when the dictionary does not have it.
pub open spec fn field_name(ids: IdTable, id: u16) -> Seq<char> {
    if ids.dom().contains(id) {
        ids[id]
    } else {
        crate::text::decimal(id as nat)
    }
}

/// The front of a frame: the field id, the type byte, and where its body
/// begins and ends. `None` when the bytes end before the frame does.
pub open spec fn frame_front(b: Seq<u8>) -> Option<(u16, u8, nat, nat)> {
    let n: nat = if b.len() > 0 && b[0] == 0xFF {
        3
    } else {
        1
    };
    if b.len() <= n {
        None
    } else {
        let id = if n == 1 {
            b[0] as u16
        } else {
            crate::bytes::be_value(b.subrange(1, 3)) as u16
        };
        match tagged_front(b.skip(n as int)) {
            Some((ty, start, end)) => Some((id, ty, n + start, n + end)),
            None => None,
        }
    }
}

/// The front of a type byte, length and body: the type byte, and where the
/// body begins and ends.
pub open spec fn tagged_front(b: Seq<u8>) -> Option<(u8, nat, nat)> {
    if b.len() == 0 {
        None
    } else {
        match crate::wrappers::wire::wire_value(b.skip(1)) {
            None => None,
            Some((len, w)) => if 1 + w + len <= b.len() {
                Some((b[0], 1 + w, 1 + w + len))
            } else {
                None
            },
        }
    }
}

/// The value that a body of a type holds. `None` when it holds none.
pub open spec fn body_value(t: ObjValueType, body: Seq<u8>, ids: IdTable) -> Option<DynView>
    decreases body.len(), 2int,
{
    match t {
        ObjValueType::UInt => if body.len() > 8 {
            None
        } else {
            Some(DynView::UInt(crate::bytes::be_value(body)))
        },
        ObjValueType::Int => if body.len() == 0 || body.len() > 8 {
            None
        } else {
            Some(DynView::Int(int_value(body)))
        },
        ObjValueType::F64 => if body.len() != 8 {
            None
        } else {
            Some(DynView::F64(crate::bytes::be_value(body) as u64))
        },
        ObjValueType::Str => if vstd::utf8::valid_utf8(body) {
            Some(DynView::Str(vstd::utf8::decode_utf8(body)))
        } else {
            None
        },
        ObjValueType::Bytes => Some(DynView::Bytes(body)),
        ObjValueType::Bool => if body.len() != 1 {
            None
        } else {
            Some(DynView::Bool(body[0] != 0))
        },
        ObjValueType::Null => if body.len() != 0 {
            None
        } else {
            Some(DynView::Null)
        },
        ObjValueType::Array => match crate::wrappers::wire::wire_value(body) {
            None => None,
            Some((count, w)) => if 0 < w <= body.len() {
                match read_items(body.skip(w as int), count, ids) {
                    Some(items) => Some(DynView::Array(items)),
                    None => None,
                }
            } else {
                None
            },
        },
        ObjValueType::Obj => match read_fields(body, Seq::empty(), ids) {
            Some(fields) => Some(DynView::Obj(fields)),
            None => None,
        },
    }
}

/// The first `count` array elements of `b`.
pub open spec fn read_items(b: Seq<u8>, count: nat, ids: IdTable) -> Option<Seq<DynView>>
    decreases b.len(), 1int,
{
    if count == 0 {
        Some(Seq::empty())
    } else {
        match tagged_front(b) {
            None => None,
            Some((ty, start, end)) => if 0 < start <= end <= b.len() {
                match crate::model::wrappers::obj_value::byte_type(ty) {
                    None => None,
                    Some(t) => match body_value(t, b.subrange(start as int, end as int), ids) {
                        None => None,
                        Some(v) => match read_items(b.skip(end as int), (count - 1) as nat, ids) {
                            None => None,
                            Some(rest) => Some(seq![v] + rest),
                        },
                    },
                }
            } else {
                None
            },
        }
    }
}

/// The fields of `b`, put into `fields` one after the other. A field of an
/// unknown type is skipped; a malformed one makes the object malformed.
pub open spec fn read_fields(
    b: Seq<u8>,
    fields: Seq<(Seq<char>, DynView)>,
    ids: IdTable,
) -> Option<Seq<(Seq<char>, DynView)>>
    decreases b.len(), 1int,
{
    if b.len() == 0 {
        Some(fields)
    } else {
        match read_frame(b, ids) {
            FrameRead::Malformed => None,
            FrameRead::Unknown(n) => if 0 < n <= b.len() {
                read_fields(b.skip(n as int), fields, ids)
            } else {
                None
            },
            FrameRead::Field(id, v, n) => if 0 < n <= b.len() {
                read_fields(
                    b.skip(n as int),
                    insert_field(fields, field_name(ids, id), v),
                    ids,
                )
            } else {
                None
            },
        }
    }
}

/// What the front of a list of frames holds.
pub enum FrameRead {
    /// No whole frame, or a body that its type does not allow.
    Malformed,
    /// A frame of an unknown type, of so many bytes.
    Unknown(nat),
    /// A field with its id and value, of so many bytes.
    Field(u16, DynView, nat),
}

/// The frame at the front of `b`.
pub open spec fn read_frame(b: Seq<u8>, ids: IdTable) -> FrameRead
    decreases b.len(), 0int,
{
    match frame_front(b) {
        None => FrameRead::Malformed,
        Some((id, ty, start, end)) => if 0 < start <= end <= b.len() {
            match crate::model::wrappers::obj_value::byte_type(ty) {
                None => FrameRead::Unknown(end),
                Some(t) => match body_value(t, b.subrange(start as int, end as int), ids) {
                    None => FrameRead::Malformed,
                    Some(v) => FrameRead::Field(id, v, end),
                },
            }
        } else {
            FrameRead::Malformed
        },
    }
}

/// The fields of a list of frames: up to its end or the first malformed
/// frame, without those of unknown types.
pub open spec fn read_frames(b: Seq<u8>, ids: IdTable) -> Seq<(u16, DynView)>
    decreases b.len(),
{
    if b.len() == 0 {
        Seq::empty()
    } else {
        match read_frame(b, ids) {
            FrameRead::Malformed => Seq::empty(),
            FrameRead::Unknown(n) => if 0 < n <= b.len() {
                read_frames(b.skip(n as int), ids)
            } else {
                Seq::empty()
            },
            FrameRead::Field(id, v, n) => if 0 < n <= b.len() {
                seq![(id, v)] + read_frames(b.skip(n as int), ids)
            } else {
                Seq::empty()
            },
        }
    }
}

/// Why a frame could not be read.
#[derive(Debug)]
pub enum FrameErr {
    /// Truncated, or a body that its type does not allow.
    Malformed,
    /// A type that this reader does not know; the frame was skipped.
    UnknownType,
}

/// Splits a type byte, length and body off the front of `b`.
fn take_tagged(b: &[u8]) -> (r: Option<(u8, usize, usize)>)
    ensures
        match r {
            Some((ty, start, end)) => tagged_front(b@) == Some((ty, start as nat, end as nat)) && 0
                < start <= end <= b@.len(),
            None => tagged_front(b@) is None,
        },
{
    if b.len() == 0 {
        return None;
    }
    proof {
        if crate::wrappers::wire::wire_value(b@.skip(1)) is Some {
            crate::wrappers::wire::lemma_wire_value_bounds(b@.skip(1));
        }
    }
    match take_len(slice_from(b, 1)) {
        None => None,
        Some((len, w)) => {
            let start: usize = 1 + w;
            if len > b.len() - start {
                None
            } else {
                Some((b[0], start, start + len))
            }
        },
    }
}

/// Splits the front of a frame off `b`.
fn take_front(b: &[u8]) -> (r: Option<(u16, u8, usize, usize)>)
    ensures
        match r {
            Some((id, ty, start, end)) => frame_front(b@) == Some(
                (id, ty, start as nat, end as nat),
            ) && 0 < start <= end <= b@.len(),
            None => frame_front(b@) is None,
        },
{
    if b.len() == 0 {
        return None;
    }
    let n: usize = if b[0] == 0xFF {
        3
    } else {
        1
    };
    if b.len() <= n {
        return None;
    }
    let id: u16 = if n == 1 {
        b[0] as u16
    } else {
        let v: u64 = read_be(vstd::slice::slice_subrange(b, 1, 3));
        proof {
            crate::bytes::lemma_be_value_round_trip(b@.subrange(1, 3));
            crate::bytes::lemma_pow256_small();
        }
        v as u16
    };
    match take_tagged(slice_from(b, n)) {
        None => None,
        Some((ty, start, end)) => Some((id, ty, n + start, n + end)),
    }
}

/// The signed number that big-endian two's complement bytes write.
fn decode_int(body: &[u8]) -> (r: i64)
    requires
        1 <= body@.len() <= 8,
    ensures
        r == int_value(body@),
{
    let u: u64 = read_be(body);
    let n: usize = body.len();
    proof {
        let p = crate::bytes::pow256((n - 1) as nat);
        let first = body@[0] as nat;
        crate::bytes::lemma_pow256_small();
        assert(body@ =~= seq![body@[0]] + body@.drop_first());
        crate::wrappers::wire::lemma_be_value_cons(body@[0], body@.drop_first());
        crate::bytes::lemma_be_value_round_trip(body@.drop_first());
        assert(first < 0x80 ==> first * p + p <= 0x80 * p) by (nonlinear_arith);
        assert(first >= 0x80 ==> first * p >= 0x80 * p) by (nonlinear_arith);
        crate::bytes::lemma_be_value_round_trip(body@);
        assert(crate::bytes::pow256(n as nat) == 0x100 * p);
        crate::bytes::lemma_pow256_monotone((n - 1) as nat, 7);
    }
    if body[0] < 0x80 {
        u as i64
    } else {
        let top: u64 = match n {
            1 => 0xFF,
            2 => 0xFFFF,
            3 => 0xFF_FFFF,
            4 => 0xFFFF_FFFF,
            5 => 0xFF_FFFF_FFFF,
            6 => 0xFFFF_FFFF_FFFF,
            7 => 0xFF_FFFF_FFFF_FFFF,
            _ => 0xFFFF_FFFF_FFFF_FFFF,
        };
        assert(top + 1 == crate::bytes::pow256(n as nat));
        let c: u64 = top - u;
        -1 - (c as i64)
    }
}

/// The value that a body of type `ty` holds. Nested names come from
/// `names`.
#[verifier::spinoff_prover]
#[verifier::rlimit(50)]
fn decode_value_named<L: NameLookup>(ty: ObjValueType, body: &[u8], names: &mut L) -> (r: Option<
    DynamicValue,
>)
    ensures
        final(names).ids() == old(names).ids(),
        match r {
            Some(v) => body_value(ty, body@, old(names).ids()) == Some(v.view()),
            None => body_value(ty, body@, old(names).ids()) is None,
        },
    decreases body@.len(), 1int,
{
    broadcast use DynamicValue::lemma_view;

    match ty {
        ObjValueType::UInt => {
            if body.len() > 8 {
                return None;
            }
            Some(DynamicValue::UInt(read_be(body)))
        },
        ObjValueType::Int => {
            if body.len() == 0 || body.len() > 8 {
                return None;
            }
            Some(DynamicValue::Int(decode_int(body)))
        },
        ObjValueType::F64 => {
            if body.len() != 8 {
                return None;
            }
            Some(DynamicValue::F64(read_be(body)))
        },
        ObjValueType::Str => match utf8_string(body) {
            Some(s) => Some(DynamicValue::Str(s)),
            None => None,
        },
        ObjValueType::Bytes => Some(DynamicValue::Bytes(to_vec(body))),
        ObjValueType::Bool => {
            if body.len() != 1 {
                return None;
            }
            Some(DynamicValue::Bool(body[0] != 0))
        },
        ObjValueType::Null => {
            if body.len() != 0 {
                return None;
            }
            Some(DynamicValue::Null)
        },
        ObjValueType::Array => {
            proof {
                if crate::wrappers::wire::wire_value(body@) is Some {
                    crate::wrappers::wire::lemma_wire_value_bounds(body@);
                }
            }
            match crate::wrappers::wire::take_u64(body) {
                None => None,
                Some((count, w)) => match decode_items(slice_from(body, w), count, names) {
                    Some(items) => Some(DynamicValue::Array(items)),
                    None => None,
                },
            }
        },
        ObjValueType::Obj => match decode_fields(body, names) {
            Some(m) => Some(DynamicValue::Obj(m)),
            None => None,
        },
    }
}

/// The first `count` array elements of `b`.
#[verifier::spinoff_prover]
#[verifier::rlimit(50)]
fn decode_items<L: NameLookup>(b: &[u8], count: u64, names: &mut L) -> (r: Option<
    Vec<DynamicValue>,
>)
    ensures
        final(names).ids() == old(names).ids(),
        match r {
            Some(items) => read_items(b@, count as nat, old(names).ids()) == Some(
                values_view(items@),
            ),
            None => read_items(b@, count as nat, old(names).ids()) is None,
        },
    decreases b@.len(), 0int,
{
    let mut items: Vec<DynamicValue> = Vec::new();
    let mut left: u64 = count;
    let mut off: usize = 0;
    let n: usize = b.len();
    let ghost ids = names.ids();
    let ghost whole = read_items(b@, count as nat, ids);
    proof {
        assert(b@.skip(0) =~= b@);
        assert(values_view(items@) =~= Seq::empty());
        if whole is Some {
            assert(whole->0 =~= values_view(items@) + whole->0);
        }
    }
    while left > 0
        invariant
            off <= n == b@.len(),
            left <= count,
            ids == names.ids(),
            ids == old(names).ids(),
            whole == read_items(b@, count as nat, ids),
            match read_items(b@.skip(off as int), left as nat, ids) {
                Some(rest) => whole == Some(values_view(items@) + rest),
                None => whole is None,
            },
        decreases left,
    {
        let rest = slice_from(b, off);
        match take_tagged(rest) {
            None => {
                return None;
            },
            Some((ty_byte, start, end)) => {
                match ObjValueType::from_byte(ty_byte) {
                    None => {
                        return None;
                    },
                    Some(ty) => {
                        let body = vstd::slice::slice_subrange(rest, start, end);
                        match decode_value_named(ty, body, names) {
                            None => {
                                return None;
                            },
                            Some(v) => {
                                let ghost before = values_view(items@);
                                items.push(v);
                                proof {
                                    let tail = rest@.skip(end as int);
                                    assert(tail =~= b@.skip(off + end));
                                    assert(values_view(items@) =~= before.push(v.view()));
                                    match read_items(tail, (left - 1) as nat, ids) {
                                        Some(more) => {
                                            assert(before + (seq![v.view()] + more)
                                                =~= values_view(items@) + more);
                                        },
                                        None => {},
                                    }
                                }
                                off = off + end;
                                left = left - 1;
                            },
                        }
                    },
                }
            },
        }
    }
    proof {
        assert(values_view(items@) + Seq::<DynView>::empty() =~= values_view(items@));
    }
    Some(items)
}

/// The fields of a nested object.
#[verifier::spinoff_prover]
#[verifier::rlimit(50)]
fn decode_fields<L: NameLookup>(b: &[u8], names: &mut L) -> (r: Option<FieldMap>)
    ensures
        final(names).ids() == old(names).ids(),
        match r {
            Some(m) => read_fields(b@, Seq::empty(), old(names).ids()) == Some(m@),
            None => read_fields(b@, Seq::empty(), old(names).ids()) is None,
        },
    decreases b@.len(), 0int,
{
    let mut m = FieldMap::new();
    let mut off: usize = 0;
    let ghost ids = names.ids();
    let ghost whole = read_fields(b@, Seq::empty(), ids);
    proof {
        assert(b@.skip(0) =~= b@);
    }
    while off < b.len()
        invariant
            off <= b@.len(),
            ids == names.ids(),
            ids == old(names).ids(),
            whole == read_fields(b@, Seq::empty(), ids),
            whole == read_fields(b@.skip(off as int), m@, ids),
        decreases b@.len() - off,
    {
        let rest = slice_from(b, off);
        match take_front(rest) {
            None => {
                assert(read_frame(rest@, ids) is Malformed);
                return None;
            },
            Some((id, ty_byte, start, end)) => {
                proof {
                    assert(rest@.skip(end as int) =~= b@.skip(off + end));
                }
                match ObjValueType::from_byte(ty_byte) {
                    None => {},
                    Some(ty) => {
                        let body = vstd::slice::slice_subrange(rest, start, end);
                        match decode_value_named(ty, body, names) {
                            None => {
                                assert(read_frame(rest@, ids) is Malformed);
                                return None;
                            },
                            Some(v) => {
                                let name = match names.name_of(id) {
                                    Some(n) => n,
                                    None => decimal_string(id as u64),
                                };
                                m.insert(name, v);
                            },
                        }
                    },
                }
                off = off + end;
            },
        }
    }
    Some(m)
}

/// Reads the frame at `*off` and moves past it. Nested names come from
/// `names`.
pub fn decode_frame_named<L: NameLookup>(bytes: &[u8], off: &mut usize, names: &mut L) -> (r:
    Result<Option<DynamicField>, FrameErr>)
    requires
        *old(off) <= bytes@.len(),
    ensures
        final(names).ids() == old(names).ids(),
        *final(off) <= bytes@.len(),
        match r {
            Ok(f) => f is Some && read_frame(bytes@.skip(*old(off) as int), old(names).ids())
                == FrameRead::Field(f->0.id, f->0.value.view(), (*final(off) - *old(off)) as nat)
                && *final(off) > *old(off),
            Err(FrameErr::UnknownType) => read_frame(
                bytes@.skip(*old(off) as int),
                old(names).ids(),
            ) == FrameRead::Unknown((*final(off) - *old(off)) as nat) && *final(off) > *old(off),
            Err(FrameErr::Malformed) => read_frame(
                bytes@.skip(*old(off) as int),
                old(names).ids(),
            ) is Malformed,
        },
{
    let n: usize = bytes.len();
    let rest = slice_from(bytes, *off);
    assert(rest@.len() == n - *off);
    match take_front(rest) {
        None => Err(FrameErr::Malformed),
        Some((id, ty_byte, start, end)) => {
            *off = *off + end;
            match ObjValueType::from_byte(ty_byte) {
                None => Err(FrameErr::UnknownType),
                Some(ty) => {
                    let body = vstd::slice::slice_subrange(rest, start, end);
                    match decode_value_named(ty, body, names) {
                        None => Err(FrameErr::Malformed),
                        Some(value) => Ok(Some(DynamicField { id, value })),
                    }
                },
            }
        },
    }
}

/// Reads the frame at `*off` and moves past it. Nested fields are named by
/// their ids in decimal.
pub fn decode_frame(bytes: &[u8], off: &mut usize) -> (r: Result<Option<DynamicField>, FrameErr>)
    requires
        *old(off) <= bytes@.len(),
    ensures
        *final(off) <= bytes@.len(),
        match r {
            Ok(f) => f is Some && read_frame(bytes@.skip(*old(off) as int), Map::empty())
                == FrameRead::Field(f->0.id, f->0.value.view(), (*final(off) - *old(off)) as nat),
            Err(FrameErr::UnknownType) => read_frame(
                bytes@.skip(*old(off) as int),
                Map::empty(),
            ) == FrameRead::Unknown((*final(off) - *old(off)) as nat),
            Err(FrameErr::Malformed) => read_frame(
                bytes@.skip(*old(off) as int),
                Map::empty(),
            ) is Malformed,
        },
{
    let mut none = NoNames;
    decode_frame_named(bytes, off, &mut none)
}

/// All fields of a list of frames. Nested objects come back with names from
/// `names`; the top-level fields keep their ids.
#[verifier::spinoff_prover]
#[verifier::rlimit(50)]
pub fn decode_named<L: NameLookup>(bytes: &[u8], names: &mut L) -> (r: Vec<DynamicField>)
    ensures
        final(names).ids() == old(names).ids(),
        field_views(r@) == read_frames(bytes@, old(names).ids()),
{
    let mut out: Vec<DynamicField> = Vec::new();
    let mut off: usize = 0;
    let ghost ids = names.ids();
    proof {
        assert(bytes@.skip(0) =~= bytes@);
        assert(field_views(out@) =~= Seq::empty());
        assert(Seq::<(u16, DynView)>::empty() + read_frames(bytes@, ids) =~= read_frames(
            bytes@,
            ids,
        ));
    }
    while off < bytes.len()
        invariant
            off <= bytes@.len(),
            ids == names.ids(),
            ids == old(names).ids(),
            field_views(out@) + read_frames(bytes@.skip(off as int), ids) == read_frames(
                bytes@,
                ids,
            ),
        decreases bytes@.len() - off,
    {
        let ghost rest = bytes@.skip(off as int);
        let ghost done = field_views(out@);
        let ghost start = off;
        match decode_frame_named(bytes, &mut off, names) {
            Ok(Some(f)) => {
                let ghost fv = f.view();
                out.push(f);
                proof {
                    assert(rest.skip(off - start) =~= bytes@.skip(off as int));
                    assert(field_views(out@) =~= done.push(fv));
                    let more = read_frames(bytes@.skip(off as int), ids);
                    assert(done + (seq![fv] + more) =~= field_views(out@) + more);
                }
            },
            Ok(None) => {},
            Err(FrameErr::UnknownType) => {
                proof {
                    assert(rest.skip(off - start) =~= bytes@.skip(off as int));
                }
            },
            Err(FrameErr::Malformed) => {
                proof {
                    assert(done + Seq::<(u16, DynView)>::empty() =~= done);
                }
                return out;
            },
        }
    }
    proof {
        assert(field_views(out@) + Seq::<(u16, DynView)>::empty() =~= field_views(out@));
    }
    out
}

/// All fields of a list of frames, without a dictionary for nested names.
pub fn decode_variants(bytes: &[u8]) -> (r: Vec<DynamicField>)
    ensures
        field_views(r@) == read_frames(bytes@, Map::empty()),
{
    let mut none = NoNames;
    decode_named(bytes, &mut none)
}

/// A value that a [`DynamicValue`] can hold: numbers within 64 bits, the
/// names of each object strictly ascending.
pub open spec fn canonical(v: DynView) -> bool
    decreases v,
{
    match v {
        DynView::UInt(n) => n <= u64::MAX,
        DynView::Int(n) => i64::MIN <= n <= i64::MAX,
        DynView::Array(items) => canonical_items(items),
        DynView::Obj(fields) => names_sorted(fields) && canonical_fields(fields),
        _ => true,
    }
}

/// Every value of the list is canonical.
pub open spec fn canonical_items(items: Seq<DynView>) -> bool
    decreases items,
{
    items.len() == 0 || (canonical(items[0]) && canonical_items(items.drop_first()))
}

/// Every value of the fields is canonical.
pub open spec fn canonical_fields(fields: Seq<(Seq<char>, DynView)>) -> bool
    decreases fields,
{
    fields.len() == 0 || (canonical(fields[0].1) && canonical_fields(fields.drop_first()))
}

/// Both directions of a dictionary agree on the names of `order`.
pub open spec fn both_ways(order: Seq<Seq<char>>, names: NameTable, ids: IdTable) -> bool {
    forall|i: int|
        0 <= i < order.len() ==> {
            let name = #[trigger] order[i];
            &&& names.dom().contains(name)
            &&& ids.dom().contains(names[name])
            &&& ids[names[name]] == name
        }
}

proof fn lemma_both_split(x: Seq<Seq<char>>, y: Seq<Seq<char>>, names: NameTable, ids: IdTable)
    requires
        both_ways(x + y, names, ids),
    ensures
        both_ways(x, names, ids),
        both_ways(y, names, ids),
{
    assert forall|i: int| 0 <= i < x.len() implies {
        let name = #[trigger] x[i];
        &&& names.dom().contains(name)
        &&& ids.dom().contains(names[name])
        &&& ids[names[name]] == name
    } by {
        assert((x + y)[i] == x[i]);
    }
    assert forall|i: int| 0 <= i < y.len() implies {
        let name = #[trigger] y[i];
        &&& names.dom().contains(name)
        &&& ids.dom().contains(names[name])
        &&& ids[names[name]] == name
    } by {
        assert((x + y)[x.len() + i] == y[i]);
    }
}

/// A number fits into its own width, which is at most any width it fits into.
pub proof fn lemma_uint_width(n: nat, w: nat)
    requires
        n < crate::bytes::pow256(w),
        w > 0,
    ensures
        1 <= uint_width(n) <= w,
        n < crate::bytes::pow256(uint_width(n)),
    decreases w,
{
    crate::bytes::lemma_pow256_small();
    if n >= 0x100 {
        assert(w > 1);
        lemma_uint_width(n / 0x100, (w - 1) as nat);
    }
}

/// Signed numbers read back as written.
proof fn lemma_int_round_trip(v: int)
    requires
        i64::MIN <= v <= i64::MAX,
    ensures
        1 <= int_bytes(v).len() <= 8,
        int_value(int_bytes(v)) == v,
{
    let w = int_width(v);
    let p = crate::bytes::pow256(w);
    crate::bytes::lemma_pow256_small();
    if v < 0 {
        let n = (-1 - v) as nat;
        lemma_uint_width(n, 8);
        reveal_with_fuel(crate::bytes::pow256, 2);
        crate::bytes::lemma_pow256_monotone(uint_width(n), w);
        if uint_width(n) < 8 {
            assert(p == 256 * crate::bytes::pow256(uint_width(n)));
            assert(2 * n + 2 <= p);
        } else {
            assert(2 * n + 2 <= p);
        }
    }
    let u: nat = (if v >= 0 {
        v
    } else {
        v + p
    }) as nat;
    assert(u < p);
    crate::bytes::lemma_be_bytes_len(u, w);
    crate::bytes::lemma_be_round_trip(u, w);
    let b = int_bytes(v);
    assert(b == crate::bytes::be_bytes(u, w));
    let q = crate::bytes::pow256((w - 1) as nat);
    let first = b[0] as nat;
    let rest = b.drop_first();
    assert(b =~= seq![b[0]] + rest);
    crate::wrappers::wire::lemma_be_value_cons(b[0], rest);
    crate::bytes::lemma_be_value_round_trip(rest);
    assert(p == 256 * q);
    assert(first * q <= u < (first + 1) * q) by (nonlinear_arith)
        requires
            u == first * q + crate::bytes::be_value(rest),
            crate::bytes::be_value(rest) < q,
    ;
    if v >= 0 {
        assert(2 * u < p);
        assert(first < 0x80) by (nonlinear_arith)
            requires
                first * q <= u,
                2 * u < 256 * q,
        ;
    } else {
        assert(2 * u >= p);
        assert(first >= 0x80) by (nonlinear_arith)
            requires
                u < (first + 1) * q,
                2 * u >= 256 * q,
        ;
    }
}

/// What was tagged is found again in front of anything.
proof fn lemma_tagged_front(t: ObjValueType, body: Seq<u8>, rest: Seq<u8>)
    requires
        body.len() <= u64::MAX,
    ensures
        ({
            let b = tagged(t, body) + rest;
            &&& tagged_front(b) is Some
            &&& (tagged_front(b)->0).0 == crate::model::wrappers::obj_value::type_byte(t)
            &&& 0 < (tagged_front(b)->0).1 <= (tagged_front(b)->0).2 <= b.len()
            &&& b.subrange((tagged_front(b)->0).1 as int, (tagged_front(b)->0).2 as int) == body
            &&& b.skip((tagged_front(b)->0).2 as int) == rest
            &&& (tagged_front(b)->0).2 == tagged(t, body).len()
        }),
{
    let b = tagged(t, body) + rest;
    let wire = crate::wrappers::wire::wire_bytes(body.len());
    crate::wrappers::wire::law_wire_round_trip(body.len(), body + rest);
    assert(b.skip(1) =~= wire + (body + rest));
    let w = crate::wrappers::wire::wire_width(body.len());
    assert(b.subrange((1 + w) as int, (1 + w + body.len()) as int) =~= body);
    assert(b.skip((1 + w + body.len()) as int) =~= rest);
}

/// What was framed is found again in front of anything.
proof fn lemma_frame_front(id: u16, t: ObjValueType, body: Seq<u8>, rest: Seq<u8>)
    requires
        body.len() <= u64::MAX,
    ensures
        ({
            let b = id_bytes(id) + tagged(t, body) + rest;
            &&& frame_front(b) is Some
            &&& (frame_front(b)->0).0 == id
            &&& (frame_front(b)->0).1 == crate::model::wrappers::obj_value::type_byte(t)
            &&& 0 < (frame_front(b)->0).2 <= (frame_front(b)->0).3 <= b.len()
            &&& b.subrange((frame_front(b)->0).2 as int, (frame_front(b)->0).3 as int) == body
            &&& b.skip((frame_front(b)->0).3 as int) == rest
            &&& (frame_front(b)->0).3 == (id_bytes(id) + tagged(t, body)).len()
        }),
{
    let b = id_bytes(id) + tagged(t, body) + rest;
    let inner = tagged(t, body) + rest;
    let n = id_bytes(id).len();
    crate::bytes::lemma_be_bytes_len(id as nat, 2);
    assert(b[0] == id_bytes(id)[0]);
    assert(b.skip(n as int) =~= inner);
    if id >= 0xFF {
        crate::bytes::lemma_pow256_small();
        crate::bytes::lemma_be_round_trip(id as nat, 2);
        assert(b.subrange(1, 3) =~= crate::bytes::be_bytes(id as nat, 2));
    }
    lemma_tagged_front(t, body, rest);
    let (ty, start, end) = tagged_front(inner)->0;
    assert(b.subrange((n + start) as int, (n + end) as int) =~= inner.subrange(
        start as int,
        end as int,
    ));
    assert(b.skip((n + end) as int) =~= inner.skip(end as int));
}

proof fn lemma_items_cons(items: Seq<DynView>, names: NameTable)
    requires
        items.len() > 0,
    ensures
        items_bytes(items, names) == tagged(value_type(items[0]), value_body(items[0], names))
            + items_bytes(items.drop_first(), names),
        items_names(items) == value_names(items[0]) + items_names(items.drop_first()),
        items_bytes(items, names).len() >= items.len(),
    decreases items.len(),
{
    let head = tagged(value_type(items[0]), value_body(items[0], names));
    let tail = items.drop_first();
    if items.len() == 1 {
        assert(items.drop_last() =~= Seq::empty());
        assert(tail =~= Seq::empty());
        assert(items_bytes(items, names) =~= head + items_bytes(tail, names));
        assert(items_names(items) =~= value_names(items[0]) + items_names(tail));
    } else {
        let init = items.drop_last();
        lemma_items_cons(init, names);
        assert(init.drop_first() =~= tail.drop_last());
        assert(items_bytes(items, names) =~= head + items_bytes(tail, names));
        assert(items_names(items) =~= value_names(items[0]) + items_names(tail));
    }
}

#[verifier::spinoff_prover]
#[verifier::rlimit(50)]
proof fn lemma_fields_cons(fields: Seq<(Seq<char>, DynView)>, names: NameTable)
    requires
        fields.len() > 0,
    ensures
        fields_bytes(fields, names) == id_bytes(names[fields[0].0]) + tagged(
            value_type(fields[0].1),
            value_body(fields[0].1, names),
        ) + fields_bytes(fields.drop_first(), names),
        fields_names(fields) == seq![fields[0].0] + value_names(fields[0].1) + fields_names(
            fields.drop_first(),
        ),
    decreases fields.len(),
{
    let head = id_bytes(names[fields[0].0]) + tagged(
        value_type(fields[0].1),
        value_body(fields[0].1, names),
    );
    let order = seq![fields[0].0] + value_names(fields[0].1);
    let tail = fields.drop_first();
    if fields.len() == 1 {
        assert(fields.drop_last() =~= Seq::empty());
        assert(tail =~= Seq::empty());
        assert(fields_bytes(fields, names) =~= head + fields_bytes(tail, names));
        assert(fields_names(fields) =~= order + fields_names(tail));
    } else {
        let init = fields.drop_last();
        lemma_fields_cons(init, names);
        assert(init.drop_first() =~= tail.drop_last());
        assert(fields_bytes(fields, names) =~= head + fields_bytes(tail, names));
        assert(fields_names(fields) =~= order + fields_names(tail));
    }
}

/// A body reads back as the value it was written from.
#[verifier::spinoff_prover]
#[verifier::rlimit(50)]
pub proof fn law_body_round_trip(v: DynView, names: NameTable, ids: IdTable)
    requires
        canonical(v),
        both_ways(value_names(v), names, ids),
        value_body(v, names).len() <= u64::MAX,
    ensures
        body_value(value_type(v), value_body(v, names), ids) == Some(v),
    decreases v,
{
    let body = value_body(v, names);
    crate::bytes::lemma_pow256_small();
    match v {
        DynView::UInt(n) => {
            lemma_uint_width(n, 8);
            crate::bytes::lemma_be_bytes_len(n, uint_width(n));
            crate::bytes::lemma_be_round_trip(n, uint_width(n));
        },
        DynView::Int(n) => {
            lemma_int_round_trip(n);
        },
        DynView::F64(bits) => {
            crate::bytes::lemma_be_bytes_len(bits as nat, 8);
            crate::bytes::lemma_be_round_trip(bits as nat, 8);
        },
        DynView::Str(s) => {
            broadcast use vstd::utf8::encode_utf8_decode_utf8, vstd::utf8::encode_utf8_valid_utf8;

            assert(vstd::utf8::decode_utf8(vstd::utf8::encode_utf8(s)) == s);
        },
        DynView::Array(items) => {
            if items.len() > 0 {
                lemma_items_cons(items, names);
            }
            let bytes = items_bytes(items, names);
            crate::wrappers::wire::law_wire_round_trip(items.len(), bytes);
            let w = crate::wrappers::wire::wire_width(items.len());
            assert(body.skip(w as int) =~= bytes);
            assert(bytes + Seq::<u8>::empty() =~= bytes);
            lemma_items_round_trip(items, names, ids, Seq::empty());
        },
        DynView::Obj(fields) => {
            lemma_fields_round_trip(Seq::empty(), fields, names, ids);
            assert(Seq::<(Seq<char>, DynView)>::empty() + fields =~= fields);
        },
        _ => {},
    }
}

/// One element, then the rest.
proof fn lemma_read_items_step(b: Seq<u8>, v: DynView, tail: Seq<DynView>, count: nat, ids: IdTable)
    requires
        count > 0,
        tagged_front(b) is Some,
        0 < (tagged_front(b)->0).1 <= (tagged_front(b)->0).2 <= b.len(),
        crate::model::wrappers::obj_value::byte_type((tagged_front(b)->0).0) is Some,
        body_value(
            crate::model::wrappers::obj_value::byte_type((tagged_front(b)->0).0)->0,
            b.subrange((tagged_front(b)->0).1 as int, (tagged_front(b)->0).2 as int),
            ids,
        ) == Some(v),
        read_items(b.skip((tagged_front(b)->0).2 as int), (count - 1) as nat, ids) == Some(tail),
    ensures
        read_items(b, count, ids) == Some(seq![v] + tail),
{
}

#[verifier::spinoff_prover]
#[verifier::rlimit(50)]
proof fn lemma_items_round_trip(
    items: Seq<DynView>,
    names: NameTable,
    ids: IdTable,
    rest: Seq<u8>,
)
    requires
        canonical_items(items),
        both_ways(items_names(items), names, ids),
        items_bytes(items, names).len() <= u64::MAX,
    ensures
        read_items(items_bytes(items, names) + rest, items.len(), ids) == Some(items),
    decreases items,
{
    if items.len() == 0 {
        assert(items =~= Seq::empty());
    } else {
        let v = items[0];
        let tail = items.drop_first();
        let body = value_body(v, names);
        let t = value_type(v);
        let front = tagged(t, body);
        let after = items_bytes(tail, names) + rest;
        let b = items_bytes(items, names) + rest;
        assert(body.len() <= u64::MAX && items_bytes(tail, names).len() <= u64::MAX && b == front
            + after) by {
            lemma_items_cons(items, names);
            crate::bytes::lemma_concat_assoc(front, items_bytes(tail, names), rest);
        }
        assert(both_ways(value_names(v), names, ids) && both_ways(items_names(tail), names, ids))
            by {
            lemma_items_cons(items, names);
            lemma_both_split(value_names(v), items_names(tail), names, ids);
        }
        law_body_round_trip(v, names, ids);
        lemma_items_round_trip(tail, names, ids, rest);
        lemma_tagged_front(t, body, after);
        crate::model::wrappers::obj_value::law_type_bytes(t, 0);
        lemma_read_items_step(b, v, tail, items.len(), ids);
        assert(seq![v] + tail =~= items);
    }
}

/// A frame whose body holds a value reads as a field.
proof fn lemma_frame_reads(id: u16, v: DynView, body: Seq<u8>, rest: Seq<u8>, ids: IdTable)
    requires
        body.len() <= u64::MAX,
        body_value(value_type(v), body, ids) == Some(v),
    ensures
        ({
            let front = id_bytes(id) + tagged(value_type(v), body);
            &&& read_frame(front + rest, ids) == FrameRead::Field(id, v, front.len())
            &&& (front + rest).skip(front.len() as int) == rest
            &&& 0 < front.len() <= (front + rest).len()
        }),
{
    lemma_frame_front(id, value_type(v), body, rest);
    crate::model::wrappers::obj_value::law_type_bytes(value_type(v), 0);
}

/// One field, then the rest.
proof fn lemma_read_fields_step(
    b: Seq<u8>,
    n: nat,
    id: u16,
    v: DynView,
    done: Seq<(Seq<char>, DynView)>,
    ids: IdTable,
)
    requires
        read_frame(b, ids) == FrameRead::Field(id, v, n),
        0 < n <= b.len(),
    ensures
        read_fields(b, done, ids) == read_fields(
            b.skip(n as int),
            insert_field(done, field_name(ids, id), v),
            ids,
        ),
{
}

/// In a sorted list the next field goes behind those before it.
proof fn lemma_next_is_last(
    done: Seq<(Seq<char>, DynView)>,
    fields: Seq<(Seq<char>, DynView)>,
)
    requires
        names_sorted(done + fields),
        fields.len() > 0,
    ensures
        insert_field(done, fields[0].0, fields[0].1) == done.push(fields[0]),
        done.push(fields[0]) + fields.drop_first() == done + fields,
{
    assert forall|i: int| 0 <= i < done.len() implies crate::text::name_lt(
        (#[trigger] done[i]).0,
        fields[0].0,
    ) by {
        assert((done + fields)[i] == done[i]);
        assert((done + fields)[done.len() as int] == fields[0]);
    }
    lemma_insert_last(done, fields[0].0, fields[0].1);
    assert(done.push(fields[0]) + fields.drop_first() =~= done + fields);
}

#[verifier::spinoff_prover]
#[verifier::rlimit(50)]
proof fn lemma_fields_round_trip(
    done: Seq<(Seq<char>, DynView)>,
    fields: Seq<(Seq<char>, DynView)>,
    names: NameTable,
    ids: IdTable,
)
    requires
        names_sorted(done + fields),
        canonical_fields(fields),
        both_ways(fields_names(fields), names, ids),
        fields_bytes(fields, names).len() <= u64::MAX,
    ensures
        read_fields(fields_bytes(fields, names), done, ids) == Some(done + fields),
    decreases fields,
{
    if fields.len() == 0 {
        assert(done + fields =~= done);
    } else {
        let name = fields[0].0;
        let v = fields[0].1;
        let tail = fields.drop_first();
        let body = value_body(v, names);
        let t = value_type(v);
        let id = names[name];
        let after = fields_bytes(tail, names);
        let b = fields_bytes(fields, names);
        let front = id_bytes(id) + tagged(t, body);
        assert(body.len() <= u64::MAX && after.len() <= u64::MAX && b == front + after) by {
            lemma_fields_cons(fields, names);
        }
        assert(both_ways(value_names(v), names, ids) && both_ways(fields_names(tail), names, ids)
            && field_name(ids, id) == name) by {
            lemma_fields_cons(fields, names);
            lemma_both_split(seq![name] + value_names(v), fields_names(tail), names, ids);
            lemma_both_split(seq![name], value_names(v), names, ids);
            assert(seq![name][0] == name);
        }
        law_body_round_trip(v, names, ids);
        lemma_frame_reads(id, v, body, after, ids);
        lemma_next_is_last(done, fields);
        lemma_read_fields_step(b, front.len(), id, v, done, ids);
        lemma_fields_round_trip(done.push(fields[0]), tail, names, ids);
    }
}

/// A frame reads back as the field it was written from and takes exactly
/// its bytes, whatever follows; a list of frames reads back one field at a
/// time.
pub proof fn law_frame_round_trip(
    id: u16,
    v: DynView,
    names: NameTable,
    ids: IdTable,
    rest: Seq<u8>,
)
    requires
        canonical(v),
        both_ways(value_names(v), names, ids),
        value_body(v, names).len() <= u64::MAX,
    ensures
        read_frame(frame_bytes(id, v, names) + rest, ids) == FrameRead::Field(
            id,
            v,
            frame_bytes(id, v, names).len(),
        ),
        read_frames(frame_bytes(id, v, names) + rest, ids) == seq![(id, v)] + read_frames(
            rest,
            ids,
        ),
{
    law_body_round_trip(v, names, ids);
    lemma_frame_reads(id, v, value_body(v, names), rest, ids);
}

/// A frame of an unknown type is skipped by its length, and the list goes
/// on behind it.
pub proof fn law_unknown_type_is_skipped(id: u16, ty: u8, body: Seq<u8>, rest: Seq<u8>, ids: IdTable)
    requires
        crate::model::wrappers::obj_value::byte_type(ty) is None,
        body.len() <= u64::MAX,
    ensures
        read_frames(
            id_bytes(id) + (seq![ty] + crate::wrappers::wire::wire_bytes(body.len()) + body) + rest,
            ids,
        ) == read_frames(rest, ids),
{
    let wire = crate::wrappers::wire::wire_bytes(body.len());
    let b = id_bytes(id) + (seq![ty] + wire + body) + rest;
    let n = id_bytes(id).len();
    let inner = seq![ty] + wire + body + rest;
    crate::bytes::lemma_be_bytes_len(id as nat, 2);
    crate::wrappers::wire::law_wire_round_trip(body.len(), body + rest);
    assert(b[0] == id_bytes(id)[0]);
    assert(b.skip(n as int) =~= inner);
    assert(inner.skip(1) =~= wire + (body + rest));
    let w = crate::wrappers::wire::wire_width(body.len());
    assert(b.skip((n + 1 + w + body.len()) as int) =~= rest);
}

/// The frames of fields read back as the numbers and values of those fields,
/// in their order.
#[verifier::spinoff_prover]
#[verifier::rlimit(40)]
pub proof fn law_fields_read_back(
    fields: Seq<(Seq<char>, DynView)>,
    names: NameTable,
    ids: IdTable,
)
    requires
        canonical_fields(fields),
        both_ways(fields_names(fields), names, ids),
        fields_bytes(fields, names).len() <= u64::MAX,
    ensures
        read_frames(fields_bytes(fields, names), ids) == fields.map_values(
            |f: (Seq<char>, DynView)| (names[f.0], f.1),
        ),
    decreases fields.len(),
{
    let pick = |f: (Seq<char>, DynView)| (names[f.0], f.1);
    if fields.len() == 0 {
        assert(fields.map_values(pick) =~= Seq::empty());
    } else {
        let (name, v) = fields[0];
        let tail = fields.drop_first();
        let after = fields_bytes(tail, names);
        let frame = frame_bytes(names[name], v, names);
        lemma_fields_cons(fields, names);
        assert(fields_bytes(fields, names) =~= frame + after);
        lemma_both_split(seq![name] + value_names(v), fields_names(tail), names, ids);
        lemma_both_split(seq![name], value_names(v), names, ids);
        law_frame_round_trip(names[name], v, names, ids, after);
        law_fields_read_back(tail, names, ids);
        assert(fields.map_values(pick) =~= seq![(names[name], v)] + tail.map_values(pick));
    }
}

/// What the front of a frame says does not change with what follows it.
proof fn lemma_front_extends(b: Seq<u8>, rest: Seq<u8>)
    requires
        frame_front(b) is Some,
    ensures
        frame_front(b + rest) == frame_front(b),
{
    let c = b + rest;
    let n: int = if b[0] == 0xFF {
        3
    } else {
        1
    };
    assert(c[0] == b[0]);
    assert(c.subrange(1, 3) =~= b.subrange(1, 3) || n == 1);
    let x = b.skip(n);
    let y = c.skip(n);
    assert(y =~= x + rest);
    assert(y[0] == x[0]);
    let u = x.skip(1);
    let w = y.skip(1);
    assert(w =~= u + rest);
    assert(w[0] == u[0]);
    let k = crate::wrappers::wire::announced_width(u[0]) as int;
    assert(w.subrange(0, k) =~= u.subrange(0, k));
}

/// The frames of fields by number.
pub open spec fn frames_of(fields: Seq<(u16, DynView)>, names: NameTable) -> Seq<u8>
    decreases fields.len(),
{
    if fields.len() == 0 {
        Seq::empty()
    } else {
        frame_bytes(fields[0].0, fields[0].1, names) + frames_of(fields.drop_first(), names)
    }
}

/// A field whose frame reads back.
pub open spec fn frame_fits(v: DynView, names: NameTable, ids: IdTable) -> bool {
    canonical(v) && both_ways(value_names(v), names, ids) && value_body(v, names).len() <= u64::MAX
}

/// A frame that is cut short has no front.
#[verifier::spinoff_prover]
proof fn lemma_torn_front(id: u16, v: DynView, names: NameTable, ids: IdTable, n: int)
    requires
        frame_fits(v, names, ids),
        0 <= n < frame_bytes(id, v, names).len(),
    ensures
        frame_front(frame_bytes(id, v, names).take(n)) is None,
        read_frames(frame_bytes(id, v, names).take(n), ids) == Seq::<(u16, DynView)>::empty(),
{
    let frame = frame_bytes(id, v, names);
    let torn = frame.take(n);
    if frame_front(torn) is Some {
        law_frame_round_trip(id, v, names, ids, Seq::empty());
        assert(frame + Seq::<u8>::empty() =~= frame);
        lemma_front_extends(torn, frame.skip(n));
        assert(torn + frame.skip(n) =~= frame);
    }
}

/// A frame that is cut short ends a list: the frames before it are read, and
/// nothing of it.
#[verifier::spinoff_prover]
#[verifier::rlimit(40)]
pub proof fn law_torn_frame_ends_list(
    whole: Seq<(u16, DynView)>,
    id: u16,
    v: DynView,
    n: int,
    names: NameTable,
    ids: IdTable,
)
    requires
        forall|i: int| 0 <= i < whole.len() ==> frame_fits((#[trigger] whole[i]).1, names, ids),
        frame_fits(v, names, ids),
        0 <= n < frame_bytes(id, v, names).len(),
    ensures
        read_frames(frames_of(whole, names) + frame_bytes(id, v, names).take(n), ids) == whole,
    decreases whole.len(),
{
    let frame = frame_bytes(id, v, names);
    let torn = frame.take(n);
    if whole.len() == 0 {
        assert(frames_of(whole, names) + torn =~= torn);
        assert(whole =~= Seq::empty());
        lemma_torn_front(id, v, names, ids, n);
    } else {
        let t = whole.drop_first();
        assert forall|i: int| 0 <= i < t.len() implies frame_fits(
            (#[trigger] t[i]).1,
            names,
            ids,
        ) by {
            assert(t[i] == whole[i + 1]);
        }
        law_torn_frame_ends_list(t, id, v, n, names, ids);
        assert(frame_fits(whole[0].1, names, ids));
        let rest = frames_of(t, names) + torn;
        law_frame_round_trip(whole[0].0, whole[0].1, names, ids, rest);
        assert(frames_of(whole, names) + torn =~= frame_bytes(whole[0].0, whole[0].1, names)
            + rest);
        assert(whole =~= seq![whole[0]] + t);
    }
}

/// An unsigned number takes as many bytes as it needs and no more.
pub proof fn law_uint_is_shortest(n: nat, w: nat)
    requires
        w > 0,
    ensures
        uint_width(n) <= w <==> n < crate::bytes::pow256(w),
        uint_width(n) >= 1,
    decreases n,
{
    if n < 0x100 {
        crate::bytes::lemma_pow256_small();
        crate::bytes::lemma_pow256_monotone(1, w);
    } else if w == 1 {
        crate::bytes::lemma_pow256_small();
        law_uint_is_shortest(n / 0x100, 1);
    } else {
        law_uint_is_shortest(n / 0x100, (w - 1) as nat);
        assert(crate::bytes::pow256(w) == 256 * crate::bytes::pow256((w - 1) as nat));
    }
}

/// A signed number that is not negative takes as many bytes as keep its sign
/// and no more; a negative one takes a byte more than its complement, up to
/// eight.
pub proof fn law_int_width(v: i64, w: nat)
    requires
        1 <= w <= 8,
    ensures
        v >= 0 ==> (int_width(v as int) <= w <==> 2 * v < crate::bytes::pow256(w)),
        v < 0 && w < 8 ==> (int_width(v as int) <= w <==> w > 1 && -1 - v < crate::bytes::pow256(
            (w - 1) as nat,
        )),
        1 <= int_width(v as int) <= 8,
{
    crate::bytes::lemma_pow256_small();
    if v < 0 {
        let n = (-1 - v) as nat;
        law_uint_is_shortest(n, 1);
        if w > 1 {
            law_uint_is_shortest(n, (w - 1) as nat);
        }
    }
}

/// The bytes of a signed number have the announced width, tell its sign by
/// their first bit, and write it back.
pub proof fn law_int_bytes(v: i64)
    ensures
        int_bytes(v as int).len() == int_width(v as int),
        int_bytes(v as int)[0] >= 0x80 <==> v < 0,
        int_value(int_bytes(v as int)) == v,
{
    let w = int_width(v as int);
    let u = if v >= 0 {
        v as nat
    } else {
        (v + crate::bytes::pow256(w)) as nat
    };
    let b = crate::bytes::be_bytes(u, w);
    law_int_width(v, w);
    crate::bytes::lemma_pow256_small();
    if v < 0 {
        let n = (-1 - v) as nat;
        law_uint_is_shortest(n, uint_width(n));
        if w < 8 {
            assert(w == uint_width(n) + 1);
            assert(crate::bytes::pow256(w) == 256 * crate::bytes::pow256((w - 1) as nat));
        }
    }
    let half = crate::bytes::pow256((w - 1) as nat);
    assert(crate::bytes::pow256(w) == 256 * half);
    assert(u < crate::bytes::pow256(w));
    assert(u >= 128 * half <==> v < 0);
    crate::bytes::lemma_be_bytes_len(u, w);
    crate::bytes::lemma_be_round_trip(u, w);
    assert(b =~= seq![b[0]] + b.skip(1));
    crate::wrappers::wire::lemma_be_value_cons(b[0], b.skip(1));
    crate::bytes::lemma_be_value_round_trip(b.skip(1));
    let x = b[0] as int;
    let rest = crate::bytes::be_value(b.skip(1)) as int;
    assert(x * half + rest == u);
    assert(u >= 128 * half <==> x >= 128) by (nonlinear_arith)
        requires
            x * half + rest == u,
            0 <= rest < half,
            0 <= x,
    ;
}

/// The first field of a name is the one that is found, and a name that no
/// field has is not found.
pub proof fn law_first_field_is_found(fields: Seq<(Seq<char>, DynView)>, name: Seq<char>, i: int)
    ensures
        0 <= i < fields.len() && fields[i].0 == name && (forall|j: int|
            0 <= j < i ==> (#[trigger] fields[j]).0 != name) ==> find_field(fields, name) == Some(
            fields[i].1,
        ),
        (forall|j: int| 0 <= j < fields.len() ==> (#[trigger] fields[j]).0 != name) ==> find_field(
            fields,
            name,
        ) is None,
    decreases fields.len(),
{
    if fields.len() > 0 {
        let rest = fields.drop_first();
        law_first_field_is_found(rest, name, i - 1);
        if 0 < i < fields.len() && fields[i].0 == name && (forall|j: int|
            0 <= j < i ==> (#[trigger] fields[j]).0 != name) {
            assert(fields[0].0 != name);
            assert forall|j: int| 0 <= j < i - 1 implies (#[trigger] rest[j]).0 != name by {
                assert(fields[j + 1].0 != name);
            }
        }
        if forall|j: int| 0 <= j < fields.len() ==> (#[trigger] fields[j]).0 != name {
            assert(fields[0].0 != name);
            assert forall|j: int| 0 <= j < rest.len() implies (#[trigger] rest[j]).0 != name by {
                assert(fields[j + 1].0 != name);
            }
        }
    }
}

/// A name below all others is not found.
proof fn lemma_below_all(fields: Seq<(Seq<char>, DynView)>, name: Seq<char>)
    requires
        names_sorted(fields),
        fields.len() > 0 ==> crate::text::name_lt(name, fields[0].0),
    ensures
        find_field(fields, name) is None,
{
    assert forall|j: int| 0 <= j < fields.len() implies (#[trigger] fields[j]).0 != name by {
        crate::text::lemma_name_order(name, fields[0].0);
        if j > 0 {
            assert(crate::text::name_lt(fields[0].0, fields[j].0));
            crate::text::lemma_name_transitive(name, fields[0].0, fields[j].0);
            crate::text::lemma_name_order(name, fields[j].0);
        }
    }
    law_first_field_is_found(fields, name, 0);
}

/// Fields in order are told by what is found in them.
pub proof fn law_fields_are_what_is_found(
    a: Seq<(Seq<char>, DynView)>,
    b: Seq<(Seq<char>, DynView)>,
)
    requires
        names_sorted(a),
        names_sorted(b),
        forall|name: Seq<char>| #[trigger] find_field(a, name) == find_field(b, name),
    ensures
        a == b,
    decreases a.len(),
{
    if a.len() == 0 {
        if b.len() > 0 {
            assert(find_field(b, b[0].0) is Some);
            assert(find_field(a, b[0].0) == find_field(b, b[0].0));
        }
        assert(a =~= b);
    } else {
        assert(find_field(a, a[0].0) == Some(a[0].1));
        assert(find_field(a, a[0].0) == find_field(b, a[0].0));
        assert(b.len() > 0);
        assert(find_field(b, b[0].0) == Some(b[0].1));
        assert(find_field(a, b[0].0) == find_field(b, b[0].0));
        crate::text::lemma_name_order(a[0].0, b[0].0);
        if crate::text::name_lt(a[0].0, b[0].0) {
            lemma_below_all(b, a[0].0);
        } else if crate::text::name_lt(b[0].0, a[0].0) {
            lemma_below_all(a, b[0].0);
        }
        assert(a[0] == b[0]);
        let s = a.drop_first();
        let t = b.drop_first();
        assert(names_sorted(s)) by {
            assert forall|i: int, j: int| 0 <= i < j < s.len() implies crate::text::name_lt(
                s[i].0,
                s[j].0,
            ) by {
                assert(crate::text::name_lt(a[i + 1].0, a[j + 1].0));
            }
        }
        assert(names_sorted(t)) by {
            assert forall|i: int, j: int| 0 <= i < j < t.len() implies crate::text::name_lt(
                t[i].0,
                t[j].0,
            ) by {
                assert(crate::text::name_lt(b[i + 1].0, b[j + 1].0));
            }
        }
        assert forall|name: Seq<char>| #[trigger] find_field(s, name) == find_field(t, name) by {
            assert(find_field(a, name) == find_field(b, name));
            if name == a[0].0 {
                if s.len() > 0 {
                    assert(crate::text::name_lt(a[0].0, a[1].0));
                }
                if t.len() > 0 {
                    assert(crate::text::name_lt(b[0].0, b[1].0));
                }
                lemma_below_all(s, name);
                lemma_below_all(t, name);
            }
        }
        law_fields_are_what_is_found(s, t);
        assert(a =~= seq![a[0]] + s);
        assert(b =~= seq![b[0]] + t);
    }
}

/// A body that is read gives a value of its own type, and bodies of simple
/// types are refused only for their length, or as text for not being UTF-8.
pub proof fn law_bodies_are_read(t: ObjValueType, body: Seq<u8>, ids: IdTable)
    ensures
        body_value(t, body, ids) matches Some(v) ==> value_type(v) == t,
        t is UInt ==> (body_value(t, body, ids) is Some <==> body.len() <= 8),
        t is Int ==> (body_value(t, body, ids) is Some <==> 0 < body.len() <= 8),
        t is F64 ==> (body_value(t, body, ids) is Some <==> body.len() == 8),
        t is Bool ==> (body_value(t, body, ids) is Some <==> body.len() == 1),
        t is Null ==> (body_value(t, body, ids) is Some <==> body.len() == 0),
        t is Bytes ==> body_value(t, body, ids) == Some(DynView::Bytes(body)),
        t is Str ==> (body_value(t, body, ids) is Some <==> vstd::utf8::valid_utf8(body)),
        t is Str ==> (body_value(t, body, ids) matches Some(v) ==> vstd::utf8::encode_utf8(
            v->Str_0,
        ) == body),
{
    broadcast use vstd::utf8::decode_utf8_encode_utf8;

}

/// Zeros in front of an unsigned number change nothing, as long as there is
/// room for them; an empty body is zero; and any byte but zero is true.
pub proof fn law_bodies_mean_numbers(b: Seq<u8>, x: u8, ids: IdTable)
    ensures
        b.len() < 8 ==> body_value(ObjValueType::UInt, seq![0u8] + b, ids) == body_value(
            ObjValueType::UInt,
            b, ids,
        ),
        body_value(ObjValueType::UInt, Seq::empty(), ids) == Some(DynView::UInt(0)),
        b.len() < 8 ==> body_value(ObjValueType::UInt, b.push(x), ids) == Some(
            DynView::UInt(body_value(ObjValueType::UInt, b, ids)->0->UInt_0 * 256 + x as nat),
        ),
        body_value(ObjValueType::Bool, seq![x], ids) == Some(DynView::Bool(x != 0)),
        b.len() == 8 ==> body_value(ObjValueType::F64, b, ids) == Some(
            DynView::F64(crate::bytes::be_value(b) as u64),
        ),
{
    crate::wrappers::wire::lemma_be_value_cons(0, b);
    crate::bytes::lemma_be_value_round_trip(b);
    assert(0 * crate::bytes::pow256(b.len()) == 0) by (nonlinear_arith);
    assert(crate::bytes::be_value(Seq::<u8>::empty()) == 0);
    assert(b.push(x).drop_last() =~= b);
    assert(b.push(x).last() == x);
}

/// A signed number is read the same when its sign is extended by a byte, as
/// long as there is room for it.
pub proof fn law_sign_extends(b: Seq<u8>, ids: IdTable)
    requires
        0 < b.len() < 8,
    ensures
        ({
            let sign: u8 = if b[0] >= 0x80 {
                0xFF
            } else {
                0
            };
            body_value(ObjValueType::Int, seq![sign] + b, ids) == body_value(
                ObjValueType::Int,
                b,
                ids,
            )
        }),
{
    let sign: u8 = if b[0] >= 0x80 {
        0xFF
    } else {
        0
    };
    let p = crate::bytes::pow256(b.len());
    crate::wrappers::wire::lemma_be_value_cons(sign, b);
    assert(crate::bytes::pow256(b.len() + 1) == 256 * p);
    assert(sign * p == (if sign == 0 {
        0
    } else {
        255 * p
    })) by (nonlinear_arith)
        requires
            sign == 0 || sign == 255,
    ;
}

/// The frame of a named field mentions the names of an object with that
/// field alone, in the same order.
pub proof fn law_frame_names_one_field(name: Seq<char>, v: DynView)
    ensures
        frame_names(name, v) == fields_names(seq![(name, v)]),
{
    let one = seq![(name, v)];
    assert(one.drop_last() =~= Seq::empty());
    assert(fields_names(one.drop_last()) =~= Seq::empty());
    assert(fields_names(one) =~= frame_names(name, v));
}

} // verus!
