//! Tools over declarations: a JSON schema of the exported columns, and
//! restoring documents from exported rows.

use vstd::prelude::*;
use vstd::string::StringExecFns;

use crate::cell::{key_from_cells, payload_from_cells, Cell};
use crate::engine::storage::VirtualStorage;
use crate::field::{FieldDesc, FieldType};
use crate::index::Document;
use crate::key::KeyEncode;
use crate::model::document::Collection;
use crate::text::{decimal_string, signed_string};

verus! {

/// The JSON type of a kind of field.
pub open spec fn json_type_text(ty: FieldType) -> Seq<char> {
    match ty {
        FieldType::FixedBytes => "string"@,
        FieldType::Str => "string"@,
        FieldType::Bytes => "string"@,
        FieldType::Quant(_) => "number"@,
        _ => "integer"@,
    }
}

/// The JSON type of a kind of field: numbers are integers or, with decimal
/// places, numbers; text and base64 are strings.
fn json_type(ty: FieldType) -> (r: &'static str)
    ensures
        r@ == json_type_text(ty),
{
    match ty {
        FieldType::FixedBytes => "string",
        FieldType::Str => "string",
        FieldType::Bytes => "string",
        FieldType::Quant(_) => "number",
        _ => "integer",
    }
}

/// The name of a kind of field, with its parameter.
pub open spec fn type_text(ty: FieldType) -> Seq<char> {
    match ty {
        FieldType::U8 => "U8"@,
        FieldType::U16 => "U16"@,
        FieldType::U32 => "U32"@,
        FieldType::U64 => "U64"@,
        FieldType::FixedBytes => "FixedBytes"@,
        FieldType::Str => "Str"@,
        FieldType::Bytes => "Bytes"@,
        FieldType::VarInt => "VarInt"@,
        FieldType::Quant(p) => "Quant("@ + crate::text::decimal(p as nat) + ")"@,
        FieldType::Enum => "Enum"@,
        FieldType::Offset(b) => "Offset("@ + crate::text::signed_decimal(b as int) + ")"@,
    }
}

/// The name of a kind of field, with its parameter.
fn kind_name(ty: FieldType) -> (r: String)
    ensures
        r@ == type_text(ty),
{
    match ty {
        FieldType::U8 => String::from_str("U8"),
        FieldType::U16 => String::from_str("U16"),
        FieldType::U32 => String::from_str("U32"),
        FieldType::U64 => String::from_str("U64"),
        FieldType::FixedBytes => String::from_str("FixedBytes"),
        FieldType::Str => String::from_str("Str"),
        FieldType::Bytes => String::from_str("Bytes"),
        FieldType::VarInt => String::from_str("VarInt"),
        FieldType::Quant(p) => {
            let mut s = String::from_str("Quant(");
            s.append(decimal_string(p as u64).as_str());
            s.append(")");
            s
        },
        FieldType::Enum => String::from_str("Enum"),
        FieldType::Offset(b) => {
            let mut s = String::from_str("Offset(");
            s.append(signed_string(b).as_str());
            s.append(")");
            s
        },
    }
}

/// The property of a field.
pub open spec fn property_text(f: crate::field::FieldView) -> Seq<char> {
    "    \""@ + f.name + "\":{ \"type\": \""@ + json_type_text(f.ty) + "\", \"description\": \""@
        + crate::text::decimal(f.width) + " width, "@ + type_text(f.ty)
        + " (declaration order)\" }"@
}

/// The properties of fields, one per line.
pub open spec fn properties_text(fields: Seq<crate::field::FieldView>) -> Seq<char>
    decreases fields.len(),
{
    if fields.len() == 0 {
        Seq::empty()
    } else if fields.len() == 1 {
        property_text(fields[0])
    } else {
        properties_text(fields.drop_last()) + ",\n"@ + property_text(fields.last())
    }
}

/// The name of a column.
pub open spec fn column_text(f: crate::field::FieldView) -> Seq<char> {
    "    \""@ + f.name + "\""@
}

/// The names of columns, one per line.
pub open spec fn columns_text(fields: Seq<crate::field::FieldView>) -> Seq<char>
    decreases fields.len(),
{
    if fields.len() == 0 {
        Seq::empty()
    } else if fields.len() == 1 {
        column_text(fields[0])
    } else {
        columns_text(fields.drop_last()) + ",\n"@ + column_text(fields.last())
    }
}

/// The JSON schema of the exported columns: a property per field, and the
/// order of the columns, which JSON itself does not keep.
pub open spec fn schema_text(fields: Seq<crate::field::FieldView>) -> Seq<char> {
    "{\n  \"$schema\": \"https://json-schema.org/draft/2020-12/schema\",\n  \"type\": \"object\",\n  \"properties\": {\n"@
        + properties_text(fields) + "\n  }"@ + ",\n  \"x-okm-column-order\": [\n"@ + columns_text(
        fields,
    ) + "\n  ]\n}\n"@
}

/// The property of a field.
fn property(f: &FieldDesc) -> (r: String)
    ensures
        r@ == property_text(f@),
{
    let mut s = String::from_str("    \"");
    s.append(f.name);
    s.append("\":{ \"type\": \"");
    s.append(json_type(f.ty));
    s.append("\", \"description\": \"");
    s.append(decimal_string(f.width as u64).as_str());
    s.append(" width, ");
    s.append(kind_name(f.ty).as_str());
    s.append(" (declaration order)\" }");
    s
}

/// The properties of fields, one per line.
fn properties(fields: &Vec<FieldDesc>) -> (r: String)
    ensures
        r@ == properties_text(crate::field::field_list(fields@)),
{
    let ghost all = crate::field::field_list(fields@);
    let mut s = String::from_str("");
    let mut i: usize = 0;
    proof {
        reveal_strlit("");
        assert(all.take(0) =~= Seq::empty());
        assert(s@ =~= Seq::empty());
    }
    while i < fields.len()
        invariant
            i <= fields@.len() == all.len(),
            all == crate::field::field_list(fields@),
            s@ == properties_text(all.take(i as int)),
        decreases fields@.len() - i,
    {
        let ghost before = s@;
        proof {
            assert(all.take(i + 1).drop_last() =~= all.take(i as int));
            assert(all.take(i + 1).last() == fields@[i as int]@);
        }
        if i > 0 {
            s.append(",\n");
        }
        s.append(property(&fields[i]).as_str());
        proof {
            if i == 0 {
                assert(before =~= Seq::empty());
                assert(s@ =~= property_text(fields@[0]@));
            }
        }
        i = i + 1;
    }
    assert(all.take(i as int) =~= all);
    s
}

/// The names of columns, one per line.
fn column_order(fields: &Vec<FieldDesc>) -> (r: String)
    ensures
        r@ == columns_text(crate::field::field_list(fields@)),
{
    let ghost all = crate::field::field_list(fields@);
    let mut s = String::from_str("");
    let mut i: usize = 0;
    proof {
        reveal_strlit("");
        assert(all.take(0) =~= Seq::empty());
        assert(s@ =~= Seq::empty());
    }
    while i < fields.len()
        invariant
            i <= fields@.len() == all.len(),
            all == crate::field::field_list(fields@),
            s@ == columns_text(all.take(i as int)),
        decreases fields@.len() - i,
    {
        let ghost before = s@;
        proof {
            assert(all.take(i + 1).drop_last() =~= all.take(i as int));
            assert(all.take(i + 1).last() == fields@[i as int]@);
        }
        if i > 0 {
            s.append(",\n");
        }
        s.append("    \"");
        s.append(fields[i].name);
        s.append("\"");
        proof {
            if i == 0 {
                assert(before =~= Seq::empty());
                assert(s@ =~= column_text(fields@[0]@));
            } else {
                assert(s@ =~= before + ",\n"@ + column_text(fields@[i as int]@));
            }
        }
        i = i + 1;
    }
    assert(all.take(i as int) =~= all);
    s
}

/// The columns of a table: those of the key, then those of the payload.
pub fn table_fields<K: KeyEncode, R: Document<Key = K>>() -> (r: Vec<FieldDesc>)
    ensures
        crate::field::field_list(r@) == K::declared() + R::declared(),
{
    let mut out = K::fields();
    let rows = R::fields();
    let ghost start = crate::field::field_list(out@);
    let ghost all = crate::field::field_list(rows@);
    let mut i: usize = 0;
    assert(crate::field::field_list(out@) =~= start + all.take(0));
    while i < rows.len()
        invariant
            i <= rows@.len() == all.len(),
            all == crate::field::field_list(rows@),
            crate::field::field_list(out@) == start + all.take(i as int),
        decreases rows@.len() - i,
    {
        let ghost before = crate::field::field_list(out@);
        out.push(rows[i]);
        proof {
            assert(crate::field::field_list(out@) =~= before.push(all[i as int]));
            assert(start + all.take(i + 1) =~= before.push(all[i as int]));
        }
        i = i + 1;
    }
    assert(all.take(i as int) =~= all);
    out
}

/// The JSON schema of the exported columns of a table.
pub fn json_schema<K: KeyEncode, R: Document<Key = K>>() -> (r: String)
    ensures
        r@ == schema_text(K::declared() + R::declared()),
{
    let fields = table_fields::<K, R>();
    let mut out = String::from_str(
        "{\n  \"$schema\": \"https://json-schema.org/draft/2020-12/schema\",\n  \"type\": \"object\",\n  \"properties\": {\n",
    );
    out.append(properties(&fields).as_str());
    out.append("\n  }");
    out.append(",\n  \"x-okm-column-order\": [\n");
    out.append(column_order(&fields).as_str());
    out.append("\n  ]\n}\n");
    out
}

/// The stored key of a row of cells.
pub open spec fn row_key<K: KeyEncode>(cells: Seq<crate::cell::CellView>) -> Option<Seq<u8>> {
    crate::cell::key_wire(K::declared(), cells)
}

/// The cells of a row behind those of its key.
pub open spec fn payload_cells<K: KeyEncode>(
    cells: Seq<crate::cell::CellView>,
) -> Seq<crate::cell::CellView> {
    cells.skip(K::declared().len() as int)
}

/// The stored payload of a row of cells.
pub open spec fn row_payload<K: KeyEncode, R: Document>(
    cells: Seq<crate::cell::CellView>,
) -> Option<Seq<u8>> {
    match crate::cell::hot_wire(R::declared(), payload_cells::<K>(cells)) {
        Some(hot) => Some(
            crate::payload::payload_bytes(
                R::LAYOUT_VERSION,
                hot,
                crate::cell::cold_wire(R::declared(), payload_cells::<K>(cells)),
            ),
        ),
        None => None,
    }
}

/// A row of cells that can be restored: there is a cell for each column that
/// its field can hold, and the segments of the payload fit their length
/// fields.
pub open spec fn restorable<K: KeyEncode, R: Document>(
    cells: Seq<crate::cell::CellView>,
) -> bool {
    let rest = payload_cells::<K>(cells);
    &&& cells.len() == K::declared().len() + R::declared().len()
    &&& row_key::<K>(cells) is Some
    &&& row_key::<K>(cells)->0.len() == K::KEY_LEN
    &&& crate::cell::hot_wire(R::declared(), rest) is Some
    &&& crate::cell::hot_wire(R::declared(), rest)->0.len() <= u16::MAX
    &&& crate::cell::cold_fits(crate::cell::cold_wire(R::declared(), rest))
    &&& R::readable(row_payload::<K, R>(cells)->0)
    &&& R::storable(R::decoded(row_payload::<K, R>(cells)->0))
}

/// The engine once rows of cells have been restored, each written like any
/// document.
pub open spec fn restored<K: KeyEncode, R: Document>(
    m: crate::engine::storage::Contents,
    rows: Seq<Seq<crate::cell::CellView>>,
) -> crate::engine::storage::Contents
    decreases rows.len(),
{
    if rows.len() == 0 {
        m
    } else {
        let before = restored::<K, R>(m, rows.drop_last());
        let cells = rows.last();
        crate::rows::put_result::<R>(
            before,
            crate::index::header_bytes::<R>(),
            crate::model::document::primary_front::<R>(),
            K::canon(row_key::<K>(cells)->0),
            R::decoded(row_payload::<K, R>(cells)->0),
            true,
        )
    }
}

/// Every document that restoring replaces can be read when its turn comes.
pub open spec fn replaceable<K: KeyEncode, R: Document>(
    m: crate::engine::storage::Contents,
    rows: Seq<Seq<crate::cell::CellView>>,
) -> bool {
    forall|i: int|
        0 <= i < rows.len() ==> #[trigger] crate::rows::readable_at::<R>(
            restored::<K, R>(m, rows.take(i)),
            crate::model::document::primary_front::<R>() + K::canon(row_key::<K>(rows[i])->0),
        )
}

/// The document of an exported row has been handed to whoever listens.
pub open spec fn announced_row<K: KeyEncode, R: Document<Key = K>>(
    epoch: u64,
    cells: Seq<crate::cell::CellView>,
) -> bool {
    R::announced(
        crate::subscribe::Op::Put,
        epoch,
        K::canon(row_key::<K>(cells)->0),
        R::decoded(row_payload::<K, R>(cells)->0),
    )
}

/// Writes exported rows back into a collection, each like any document;
/// tells how many there were.
pub fn import_rows<S: VirtualStorage, K: KeyEncode, R: Document<Key = K>>(
    collection: &mut Collection<S, K, R>,
    rows: &Vec<Vec<Cell>>,
) -> (r: usize)
    requires
        old(collection).wf(),
        old(collection).epoch() + rows@.len() <= u64::MAX,
        forall|i: int|
            0 <= i < rows@.len() ==> restorable::<K, R>(
                #[trigger] crate::cell::cell_table(rows@)[i],
            ),
        replaceable::<K, R>(old(collection).contents(), crate::cell::cell_table(rows@)),
    ensures
        final(collection).wf(),
        final(collection).contents() == restored::<K, R>(
            old(collection).contents(),
            crate::cell::cell_table(rows@),
        ),
        final(collection).epoch() == old(collection).epoch() + rows@.len(),
        forall|i: int|
            0 <= i < rows@.len() ==> announced_row::<K, R>(
                (old(collection).epoch() + 1 + i) as u64,
                #[trigger] crate::cell::cell_table(rows@)[i],
            ),
        r == rows@.len(),
{
    let ghost all = crate::cell::cell_table(rows@);
    let ghost m = collection.contents();
    let ghost e = collection.epoch();
    let key_fields = K::fields();
    let row_fields = R::fields();
    let mut i: usize = 0;
    assert(all.take(0) =~= Seq::empty());
    while i < rows.len()
        invariant
            i <= rows@.len() == all.len(),
            all == crate::cell::cell_table(rows@),
            collection.wf(),
            m == old(collection).contents(),
            e == old(collection).epoch(),
            e + rows@.len() <= u64::MAX,
            collection.epoch() == e + i,
                crate::field::field_list(key_fields@) == K::declared(),
            crate::field::field_list(row_fields@) == R::declared(),
            forall|j: int| 0 <= j < all.len() ==> restorable::<K, R>(#[trigger] all[j]),
            replaceable::<K, R>(m, all),
            collection.contents() == restored::<K, R>(m, all.take(i as int)),
            forall|j: int|
                0 <= j < i ==> announced_row::<K, R>((e + 1 + j) as u64, #[trigger] all[j]),
        decreases rows@.len() - i,
    {
        let ghost cells = all[i as int];
        proof {
            assert(cells == crate::cell::cell_views(rows@[i as int]@));
            assert(restorable::<K, R>(cells));
            assert(crate::field::field_list(key_fields@).len() == key_fields@.len());
            assert(crate::field::field_list(row_fields@).len() == row_fields@.len());
            assert(crate::rows::readable_at::<R>(
                restored::<K, R>(m, all.take(i as int)),
                crate::model::document::primary_front::<R>() + K::canon(
                    row_key::<K>(all[i as int])->0,
                ),
            ));
        }
        let row = rows[i].as_slice();
        let rest = vstd::slice::slice_subrange(row, key_fields.len(), row.len());
        assert(crate::cell::cell_views(rest@) =~= payload_cells::<K>(cells));
        match (
            key_from_cells(&key_fields, row),
            payload_from_cells(R::LAYOUT_VERSION, &row_fields, rest),
        ) {
            (Some(kb), Some(pb)) => {
                let key = K::decode(kb.as_slice());
                let document = R::decode_payload(pb.as_slice());
                collection.put(&key, &document);
            },
            _ => {
                assert(false);
            },
        }
        proof {
            assert(all.take(i + 1).drop_last() =~= all.take(i as int));
            assert(all.take(i + 1).last() == cells);
        }
        i = i + 1;
    }
    assert(all.take(i as int) =~= all);
    i
}

/// The JSON type of a field suits its cells: text, and bytes in base64, are
/// strings, fixed-point numbers are numbers, all others are integers. Whether
/// a column of doubles or of anything else is exported follows the same
/// line.
pub proof fn law_json_type_suits_cells(ty: FieldType, raw: Seq<u8>)
    requires
        crate::cell::cell_of(ty, raw) is Some,
    ensures
        ({
            let c = crate::cell::cell_of(ty, raw)->0;
            &&& json_type_text(ty) == "string"@ <==> c is Str || c is Bytes
            &&& json_type_text(ty) == "number"@ <==> c is Fixed
            &&& json_type_text(ty) == "integer"@ <==> c is UInt || c is Int
            &&& json_type_text(ty) == "number"@ <==> crate::arrow_bridge::type_of(ty)
                == crate::arrow_bridge::ColumnType::Float64
        }),
{
    reveal_strlit("string");
    reveal_strlit("number");
    reveal_strlit("integer");
    assert("string"@[0] == 's');
    assert("number"@[0] == 'n');
    assert("integer"@[0] == 'i');
}

/// The number between the brackets of the name of a kind.
proof fn lemma_bracketed(front: Seq<char>, x: Seq<char>, y: Seq<char>, back: Seq<char>)
    ensures
        front + x + back == front + y + back ==> x == y,
{
    let a = front + x + back;
    let b = front + y + back;
    if a == b {
        let n = front.len() as int;
        assert(a.subrange(n, a.len() - back.len()) =~= x);
        assert(b.subrange(n, b.len() - back.len()) =~= y);
    }
}

/// The names of kinds tell kinds apart, their parameters included.
pub proof fn law_kind_names_apart(a: FieldType, b: FieldType)
    ensures
        type_text(a) == type_text(b) <==> a == b,
{
    reveal_strlit("U8");
    reveal_strlit("U16");
    reveal_strlit("U32");
    reveal_strlit("U64");
    reveal_strlit("FixedBytes");
    reveal_strlit("Str");
    reveal_strlit("Bytes");
    reveal_strlit("VarInt");
    reveal_strlit("Quant(");
    reveal_strlit("Enum");
    reveal_strlit("Offset(");
    reveal_strlit(")");
    let s = type_text(a);
    let t = type_text(b);
    lemma_kind_name(a);
    lemma_kind_name(b);
    if s == t {
        assert(s[0] == t[0] && s.len() == t.len());
        match (a, b) {
            (FieldType::Quant(p), FieldType::Quant(q)) => {
                lemma_bracketed(
                    "Quant("@,
                    crate::text::decimal(p as nat),
                    crate::text::decimal(q as nat),
                    ")"@,
                );
                crate::text::law_decimal_reads(p as nat);
                crate::text::law_decimal_reads(q as nat);
            },
            (FieldType::Offset(p), FieldType::Offset(q)) => {
                lemma_bracketed(
                    "Offset("@,
                    crate::text::signed_decimal(p as int),
                    crate::text::signed_decimal(q as int),
                    ")"@,
                );
                crate::text::law_decimal_apart(p as int, q as int);
            },
            _ => {
                if s.len() > 1 {
                    assert(s[1] == t[1]);
                }
            },
        }
    }
}

/// How the name of a kind begins.
proof fn lemma_kind_name(ty: FieldType)
    ensures
        ({
            let s = type_text(ty);
            &&& s.len() > 1
            &&& ty is U8 ==> s[0] == 'U' && s[1] == '8'
            &&& ty is U16 ==> s[0] == 'U' && s[1] == '1'
            &&& ty is U32 ==> s[0] == 'U' && s[1] == '3'
            &&& ty is U64 ==> s[0] == 'U' && s[1] == '6'
            &&& ty is FixedBytes ==> s[0] == 'F'
            &&& ty is Str ==> s[0] == 'S'
            &&& ty is Bytes ==> s[0] == 'B'
            &&& ty is VarInt ==> s[0] == 'V'
            &&& ty is Quant ==> s[0] == 'Q'
            &&& ty is Enum ==> s[0] == 'E'
            &&& ty is Offset ==> s[0] == 'O'
        }),
{
    reveal_strlit("U8");
    reveal_strlit("U16");
    reveal_strlit("U32");
    reveal_strlit("U64");
    reveal_strlit("FixedBytes");
    reveal_strlit("Str");
    reveal_strlit("Bytes");
    reveal_strlit("VarInt");
    reveal_strlit("Quant(");
    reveal_strlit("Enum");
    reveal_strlit("Offset(");
}

/// The properties of two lists of fields stand one after the other, parted
/// by a comma and a line break, and so do the names of their columns.
pub proof fn law_columns_in_order(
    a: Seq<crate::field::FieldView>,
    b: Seq<crate::field::FieldView>,
)
    requires
        a.len() > 0,
        b.len() > 0,
    ensures
        properties_text(a + b) == properties_text(a) + ",\n"@ + properties_text(b),
        columns_text(a + b) == columns_text(a) + ",\n"@ + columns_text(b),
    decreases b.len(),
{
    let all = a + b;
    assert(all.drop_last() =~= a + b.drop_last());
    assert(all.last() == b.last());
    if b.len() == 1 {
        assert(a + b.drop_last() =~= a);
        assert(b.last() == b[0]);
    } else {
        law_columns_in_order(a, b.drop_last());
        assert(properties_text(all) =~= properties_text(a) + ",\n"@ + properties_text(b));
        assert(columns_text(all) =~= columns_text(a) + ",\n"@ + columns_text(b));
    }
}

/// The property of a field tells its kind: fields of one name and width have
/// the same property only if they are of one kind.
pub proof fn law_property_tells_kind(f: crate::field::FieldView, g: crate::field::FieldView)
    requires
        f.name == g.name,
        f.width == g.width,
    ensures
        property_text(f) == property_text(g) <==> f.ty == g.ty,
{
    if property_text(f) == property_text(g) {
        let start = "    \""@ + f.name + "\":{ \"type\": \""@;
        let n = start.len() as int;
        reveal_strlit("string");
        reveal_strlit("number");
        reveal_strlit("integer");
        assert(property_text(f)[n] == json_type_text(f.ty)[0]);
        assert(property_text(g)[n] == json_type_text(g.ty)[0]);
        assert(json_type_text(f.ty) == json_type_text(g.ty));
        let front = start + json_type_text(f.ty) + "\", \"description\": \""@
            + crate::text::decimal(f.width) + " width, "@;
        lemma_bracketed(front, type_text(f.ty), type_text(g.ty), " (declaration order)\" }"@);
        law_kind_names_apart(f.ty, g.ty);
    }
}

/// Documents of this type embed none.
pub open spec fn embeds_none<R: Document>() -> bool {
    forall|d: R::Model|
        #![trigger R::embeds(d)]
        #![trigger R::embedded(d)]
        R::embeds(d).len() == 0 && R::embedded(d).len() == 0
}

/// The key under which an exported row is restored.
pub open spec fn restored_key<K: KeyEncode>(cells: Seq<crate::cell::CellView>) -> Seq<u8> {
    K::canon(row_key::<K>(cells)->0)
}

/// After rows have been restored, each is stored under its key with the
/// payload that its cells make up, unless a later row has the same key; and
/// what no row names is as it was. This is of documents that embed none.
pub proof fn law_rows_are_restored<K: KeyEncode, R: Document<Key = K>>(
    m: crate::engine::storage::Contents,
    rows: Seq<Seq<crate::cell::CellView>>,
    key: Seq<u8>,
    i: int,
)
    requires
        embeds_none::<R>(),
    ensures
        ({
            let p = crate::model::document::primary_front::<R>();
            let after = restored::<K, R>(m, rows);
            &&& 0 <= i < rows.len() && restored_key::<K>(rows[i]) == key && (forall|j: int|
                i < j < rows.len() ==> restored_key::<K>(#[trigger] rows[j]) != key)
                ==> after.dom().contains(p + key) && after[p + key] == R::payload(
                R::decoded(row_payload::<K, R>(rows[i])->0),
            )
            &&& (forall|j: int| 0 <= j < rows.len() ==> restored_key::<K>(#[trigger] rows[j]) != key)
                ==> crate::engine::storage::same_at(after, m, p + key)
        }),
    decreases rows.len(),
{
    if rows.len() > 0 {
        let init = rows.drop_last();
        let n = rows.len() - 1;
        let cells = rows.last();
        let p = crate::model::document::primary_front::<R>();
        let before = restored::<K, R>(m, init);
        let at = restored_key::<K>(cells);
        let d = R::decoded(row_payload::<K, R>(cells)->0);
        law_rows_are_restored::<K, R>(m, init, key, i);
        let prev = crate::rows::stored::<R>(before, p + at);
        assert(R::embeds(d).len() == 0);
        if prev is Some {
            assert(R::embedded(prev->0).len() == 0);
        }
        crate::model::document::law_put_stores::<R>(before, at, d, key);
        assert(rows[n] == cells);
        if 0 <= i < n && restored_key::<K>(rows[i]) == key && (forall|j: int|
            i < j < rows.len() ==> restored_key::<K>(#[trigger] rows[j]) != key) {
            assert(restored_key::<K>(rows[n]) != key);
            assert(init[i] == rows[i]);
            assert forall|j: int| i < j < init.len() implies restored_key::<K>(
                #[trigger] init[j],
            ) != key by {
                assert(init[j] == rows[j]);
            }
        }
        if forall|j: int| 0 <= j < rows.len() ==> restored_key::<K>(#[trigger] rows[j]) != key {
            assert(restored_key::<K>(rows[n]) != key);
            assert forall|j: int| 0 <= j < init.len() implies restored_key::<K>(
                #[trigger] init[j],
            ) != key by {
                assert(init[j] == rows[j]);
            }
        }
    }
}

/// A row that is restored reads as its cells: those of the key from its key,
/// those behind them from its payload.
pub proof fn law_restored_row_reads_back<K: KeyEncode, R: Document>(
    cells: Seq<crate::cell::CellView>,
    c: int,
)
    requires
        restorable::<K, R>(cells),
        0 <= c < cells.len(),
        forall|i: int|
            0 <= i < K::declared().len() ==> crate::cell::width_fits(#[trigger] K::declared()[i])
                && K::declared()[i].width > 0,
        forall|i: int|
            0 <= i < R::declared().len() ==> crate::cell::width_fits(#[trigger] R::declared()[i]),
    ensures
        crate::cell::row_cell(
            K::declared(),
            R::declared(),
            crate::field::total_width(R::declared()),
            row_key::<K>(cells)->0,
            row_payload::<K, R>(cells)->0,
            c,
        ) == Some(cells[c]),
{
    let n = K::declared().len() as int;
    if c < n {
        crate::cell::law_key_cells_round_trip(K::declared(), cells, c);
    } else {
        let rest = payload_cells::<K>(cells);
        crate::cell::law_payload_cells_round_trip(
            R::LAYOUT_VERSION,
            R::declared(),
            rest,
            c - n,
        );
        assert(rest[c - n] == cells[c]);
    }
}

/// A column is named by its field, between quotes: no two names make the
/// same column.
pub proof fn law_columns_name_fields(f: crate::field::FieldView, g: crate::field::FieldView)
    ensures
        column_text(f).subrange(5, column_text(f).len() - 1) == f.name,
        column_text(f)[4] == '"',
        column_text(f).last() == '"',
        column_text(f) == column_text(g) <==> f.name == g.name,
{
    reveal_strlit("    \"");
    reveal_strlit("\"");
    assert(column_text(f).subrange(5, column_text(f).len() - 1) =~= f.name);
    assert(column_text(g).subrange(5, column_text(g).len() - 1) =~= g.name);
}

/// The schema holds the properties of the fields, and the order of their
/// columns behind them, in a frame that does not change with the fields.
pub proof fn law_schema_holds_fields(fields: Seq<crate::field::FieldView>)
    ensures
        ({
            let s = schema_text(fields);
            let props = properties_text(fields);
            let cols = columns_text(fields);
            let bare = schema_text(Seq::empty());
            &&& s.len() == bare.len() + props.len() + cols.len()
            &&& exists|i: int, j: int|
                0 <= i && i + props.len() <= j && j + cols.len() <= s.len()
                    && #[trigger] s.subrange(i, i + props.len() as int) == props
                    && #[trigger] s.subrange(j, j + cols.len() as int) == cols && s.take(i)
                    == bare.take(i) && s.subrange(i + props.len(), j) == bare.subrange(
                    i,
                    j - props.len(),
                ) && s.skip(j + cols.len()) == bare.skip(j - props.len())
        }),
{
    let front = "{\n  \"$schema\": \"https://json-schema.org/draft/2020-12/schema\",\n  \"type\": \"object\",\n  \"properties\": {\n"@;
    let middle = "\n  }"@ + ",\n  \"x-okm-column-order\": [\n"@;
    let back = "\n  ]\n}\n"@;
    let s = schema_text(fields);
    let props = properties_text(fields);
    let cols = columns_text(fields);
    let bare = schema_text(Seq::empty());
    assert(s =~= front + props + middle + cols + back);
    assert(bare =~= front + middle + back);
    let i = front.len() as int;
    let j = i + props.len() + middle.len();
    assert(s.subrange(i, i + props.len() as int) =~= props);
    assert(s.subrange(j, j + cols.len() as int) =~= cols);
    assert(s.take(i) =~= bare.take(i));
    assert(s.subrange(i + props.len(), j) =~= bare.subrange(i, j - props.len()));
    assert(s.skip(j + cols.len()) =~= bare.skip(j - props.len()));
}

} // verus!
