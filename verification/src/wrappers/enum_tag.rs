//! `Enum<T>`: an enumeration field stored as one byte.
//!
//! The byte of each variant is declared, not derived from its position, so
//! that variants can be inserted and reordered without touching stored data.

use vstd::prelude::*;

use crate::text::str_eq;

verus! {

/// The byte of a variant: the first that the table gives.
pub open spec fn tag_in<T>(table: Seq<(T, u8)>, v: T) -> Option<u8>
    decreases table.len(),
{
    if table.len() == 0 {
        None
    } else if table[0].0 == v {
        Some(table[0].1)
    } else {
        tag_in(table.drop_first(), v)
    }
}

/// The variant of a byte: the first that the table gives.
pub open spec fn variant_in<T>(table: Seq<(T, u8)>, tag: u8) -> Option<T>
    decreases table.len(),
{
    if table.len() == 0 {
        None
    } else if table[0].1 == tag {
        Some(table[0].0)
    } else {
        variant_in(table.drop_first(), tag)
    }
}

/// An enumeration with a byte and a name for each variant.
pub trait EnumTag: Copy + Sized {
    /// The variants and their bytes.
    spec fn table() -> Seq<(Self, u8)>;

    /// The name of a variant.
    spec fn named(v: Self) -> Seq<char>;

    /// Every variant is in the table, and one of them has the byte 0.
    proof fn complete(v: Self)
        ensures
            tag_in(Self::table(), v) is Some,
            variant_in(Self::table(), 0) is Some,
    ;

    /// The variants and their bytes.
    fn tags() -> (r: Vec<(Self, u8)>)
        ensures
            r@ == Self::table(),
    ;

    /// Whether two variants are the same.
    fn same(a: Self, b: Self) -> (r: bool)
        ensures
            r == (a == b),
    ;

    /// The name of a variant.
    fn name(v: Self) -> (r: String)
        ensures
            r@ == Self::named(v),
    ;
}

/// The byte of a variant.
pub fn tag<T: EnumTag>(v: T) -> (r: u8)
    ensures
        tag_in(T::table(), v) == Some(r),
{
    let list = T::tags();
    let ghost all = list@;
    let mut i: usize = 0;
    proof {
        T::complete(v);
        assert(all.skip(0) =~= all);
    }
    while i < list.len()
        invariant
            i <= list@.len(),
            all == list@,
            all == T::table(),
            tag_in(all, v) is Some,
            tag_in(all, v) == tag_in(all.skip(i as int), v),
        decreases list@.len() - i,
    {
        let ghost rest = all.skip(i as int);
        assert(rest.drop_first() =~= all.skip(i + 1));
        let (w, t) = list[i];
        if T::same(w, v) {
            return t;
        }
        i = i + 1;
    }
    vstd::pervasive::unreached()
}

/// The variant of a byte.
pub fn from_tag<T: EnumTag>(t: u8) -> (r: T)
    requires
        variant_in(T::table(), t) is Some,
    ensures
        variant_in(T::table(), t) == Some(r),
{
    let list = T::tags();
    let ghost all = list@;
    let mut i: usize = 0;
    assert(all.skip(0) =~= all);
    while i < list.len()
        invariant
            i <= list@.len(),
            all == list@,
            all == T::table(),
            variant_in(all, t) is Some,
            variant_in(all, t) == variant_in(all.skip(i as int), t),
        decreases list@.len() - i,
    {
        let ghost rest = all.skip(i as int);
        assert(rest.drop_first() =~= all.skip(i + 1));
        let (v, g) = list[i];
        if g == t {
            return v;
        }
        i = i + 1;
    }
    vstd::pervasive::unreached()
}

/// The first variant with a name. An unknown name is ordinary input.
pub fn enum_from_name<T: EnumTag>(name: &str) -> (r: Option<T>)
    ensures
        match r {
            Some(v) => exists|i: int|
                0 <= i < T::table().len() && (#[trigger] T::table()[i]).0 == v && T::named(v)
                    == name@ && forall|j: int|
                    0 <= j < i ==> T::named((#[trigger] T::table()[j]).0) != name@,
            None => forall|i: int|
                0 <= i < T::table().len() ==> T::named((#[trigger] T::table()[i]).0) != name@,
        },
{
    let list = T::tags();
    let mut i: usize = 0;
    while i < list.len()
        invariant
            i <= list@.len(),
            list@ == T::table(),
            forall|j: int| 0 <= j < i ==> T::named((#[trigger] T::table()[j]).0) != name@,
        decreases list@.len() - i,
    {
        let (v, _) = list[i];
        let n = T::name(v);
        if str_eq(n.as_str(), name) {
            assert(T::table()[i as int].0 == v);
            return Some(v);
        }
        i = i + 1;
    }
    None
}

/// An enumeration field.
#[derive(Clone, Copy, Debug, PartialEq, Eq)]
pub struct Enum<T: EnumTag>(pub T);

impl<T: EnumTag> Enum<T> {
    /// A field with a variant.
    pub fn from_dyn(v: T) -> (r: Self)
        ensures
            r.0 == v,
    {
        Enum(v)
    }

    /// The byte of the variant.
    pub fn encode(&self) -> (r: Vec<u8>)
        ensures
            r@.len() == 1,
            tag_in(T::table(), self.0) == Some(r@[0]),
    {
        let mut r: Vec<u8> = Vec::new();
        r.push(tag(self.0));
        r
    }

    /// The field of a stored byte.
    pub fn decode(b: &[u8]) -> (r: Self)
        requires
            b@.len() == 1,
            variant_in(T::table(), b@[0]) is Some,
        ensures
            variant_in(T::table(), b@[0]) == Some(r.0),
    {
        Enum(from_tag(b[0]))
    }
}

impl<T: EnumTag> Default for Enum<T> {
    /// The variant with the byte 0.
    fn default() -> (r: Self)
        ensures
            variant_in(T::table(), 0) == Some(r.0),
    {
        proof {
            let any: T = arbitrary();
            T::complete(any);
        }
        Enum(from_tag(0))
    }
}

/// Where no two variants share a byte, a stored variant reads back as it
/// was.
pub proof fn law_enum_round_trip<T>(table: Seq<(T, u8)>, v: T)
    requires
        tag_in(table, v) is Some,
        forall|i: int, j: int|
            0 <= i < table.len() && 0 <= j < table.len() && (#[trigger] table[i]).1 == (
            #[trigger] table[j]).1 ==> table[i].0 == table[j].0,
    ensures
        variant_in(table, tag_in(table, v)->0) == Some(v),
    decreases table.len(),
{
    let t = tag_in(table, v)->0;
    let rest = table.drop_first();
    lemma_tag_place(table, v);
    if table[0].0 != v {
        assert forall|i: int, j: int|
            0 <= i < rest.len() && 0 <= j < rest.len() && (#[trigger] rest[i]).1 == (
            #[trigger] rest[j]).1 implies rest[i].0 == rest[j].0 by {
            assert(rest[i] == table[i + 1] && rest[j] == table[j + 1]);
        }
        law_enum_round_trip(rest, v);
        let k = choose|k: int| 0 <= k < table.len() && #[trigger] table[k] == (v, t);
        if table[0].1 == t {
            assert(table[0].1 == table[k].1);
        }
    }
}

/// A byte that the table gives a variant stands beside it.
proof fn lemma_tag_place<T>(table: Seq<(T, u8)>, v: T)
    requires
        tag_in(table, v) is Some,
    ensures
        exists|k: int| 0 <= k < table.len() && #[trigger] table[k] == (v, tag_in(table, v)->0),
    decreases table.len(),
{
    if table[0].0 == v {
        assert(table[0] == (v, tag_in(table, v)->0));
    } else {
        let rest = table.drop_first();
        lemma_tag_place(rest, v);
        let k = choose|k: int| 0 <= k < rest.len() && #[trigger] rest[k] == (v, tag_in(rest, v)->0);
        assert(table[k + 1] == rest[k]);
    }
}

/// The first row of a variant gives its byte, and the first row of a byte its
/// variant.
pub proof fn law_first_row_decides<T>(table: Seq<(T, u8)>, i: int)
    requires
        0 <= i < table.len(),
    ensures
        (forall|j: int| 0 <= j < i ==> (#[trigger] table[j]).0 != table[i].0) ==> tag_in(
            table,
            table[i].0,
        ) == Some(table[i].1),
        (forall|j: int| 0 <= j < i ==> (#[trigger] table[j]).1 != table[i].1) ==> variant_in(
            table,
            table[i].1,
        ) == Some(table[i].0),
        tag_in(table, table[i].0) is Some,
        variant_in(table, table[i].1) is Some,
    decreases table.len(),
{
    if i > 0 {
        let rest = table.drop_first();
        law_first_row_decides(rest, i - 1);
        if forall|j: int| 0 <= j < i ==> (#[trigger] table[j]).0 != table[i].0 {
            assert(table[0].0 != table[i].0);
            assert forall|j: int| 0 <= j < i - 1 implies (#[trigger] rest[j]).0 != rest[i - 1].0 by {
                assert(table[j + 1].0 != table[i].0);
            }
        }
        if forall|j: int| 0 <= j < i ==> (#[trigger] table[j]).1 != table[i].1 {
            assert(table[0].1 != table[i].1);
            assert forall|j: int| 0 <= j < i - 1 implies (#[trigger] rest[j]).1 != rest[i - 1].1 by {
                assert(table[j + 1].1 != table[i].1);
            }
        }
    }
}

/// A byte that the table does not hold has no variant, and a variant that it
/// does not hold has no byte.
pub proof fn law_missing_rows<T>(table: Seq<(T, u8)>, v: T, tag: u8)
    ensures
        (forall|j: int| 0 <= j < table.len() ==> (#[trigger] table[j]).1 != tag) ==> variant_in(
            table,
            tag,
        ) is None,
        (forall|j: int| 0 <= j < table.len() ==> (#[trigger] table[j]).0 != v) ==> tag_in(
            table,
            v,
        ) is None,
    decreases table.len(),
{
    if table.len() > 0 {
        let rest = table.drop_first();
        law_missing_rows(rest, v, tag);
        if forall|j: int| 0 <= j < table.len() ==> (#[trigger] table[j]).1 != tag {
            assert(table[0].1 != tag);
            assert forall|j: int| 0 <= j < rest.len() implies (#[trigger] rest[j]).1 != tag by {
                assert(table[j + 1].1 != tag);
            }
        }
        if forall|j: int| 0 <= j < table.len() ==> (#[trigger] table[j]).0 != v {
            assert(table[0].0 != v);
            assert forall|j: int| 0 <= j < rest.len() implies (#[trigger] rest[j]).0 != v by {
                assert(table[j + 1].0 != v);
            }
        }
    }
}

} // verus!
