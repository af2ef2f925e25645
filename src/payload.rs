//! The kind of payload an entry holds, decided once from its path, and the codec
//! of localisation tables: a fixed ten-byte header, then a table of key, text and
//! tooltip flag.

use vstd::prelude::*;

use crate::error::PackError;
use crate::path::path_view;
use crate::rigid::{RigidModel, spec_decode_rigid};
use crate::table::{
    CellView, DecodedTable, FieldType, TableDefinition, decode_table, encode_rows,
    first_bad_row, lemma_table_round_trip, row_ok, rows_view, spec_decode_table, table_bytes,
    types_of,
};

verus! {

/// Which codec reads an entry's bytes.
#[derive(Debug, Clone, Copy, PartialEq, Eq, Structural)]
pub enum PayloadKind {
    /// A table under the `db` folder, read with a definition from the registry.
    Db,
    /// A localisation table, `.loc`.
    Loc,
    /// A 3D model, `.rigid_model_v2`.
    RigidModel,
    /// Plain text, passed through: `.txt`, `.xml`, `.lua`.
    Text,
    /// Anything else, kept as raw bytes.
    Raw,
}

pub open spec fn db_folder() -> Seq<u16> {
    seq![0x64u16, 0x62u16]
}

pub open spec fn loc_ext() -> Seq<u16> {
    seq![0x2eu16, 0x6cu16, 0x6fu16, 0x63u16]
}

pub open spec fn rigid_model_ext() -> Seq<u16> {
    seq![
        0x2eu16,
        0x72u16,
        0x69u16,
        0x67u16,
        0x69u16,
        0x64u16,
        0x5fu16,
        0x6du16,
        0x6fu16,
        0x64u16,
        0x65u16,
        0x6cu16,
        0x5fu16,
        0x76u16,
        0x32u16,
    ]
}

pub open spec fn txt_ext() -> Seq<u16> {
    seq![0x2eu16, 0x74u16, 0x78u16, 0x74u16]
}

pub open spec fn xml_ext() -> Seq<u16> {
    seq![0x2eu16, 0x78u16, 0x6du16, 0x6cu16]
}

pub open spec fn lua_ext() -> Seq<u16> {
    seq![0x2eu16, 0x6cu16, 0x75u16, 0x61u16]
}

pub open spec fn ends_with(s: Seq<u16>, suffix: Seq<u16>) -> bool {
    suffix.len() <= s.len() && s.skip(s.len() - suffix.len()) == suffix
}

/// The kind of payload at `p`: a table under the top-level `db` folder, else by the
/// extension of the file name.
pub open spec fn spec_payload_kind(p: Seq<Seq<u16>>) -> PayloadKind {
    if p.len() == 0 {
        PayloadKind::Raw
    } else if p.len() > 1 && p[0] == db_folder() {
        PayloadKind::Db
    } else if ends_with(p.last(), loc_ext()) {
        PayloadKind::Loc
    } else if ends_with(p.last(), rigid_model_ext()) {
        PayloadKind::RigidModel
    } else if ends_with(p.last(), txt_ext()) || ends_with(p.last(), xml_ext()) || ends_with(
        p.last(),
        lua_ext(),
    ) {
        PayloadKind::Text
    } else {
        PayloadKind::Raw
    }
}

fn ends_with_units(s: &Vec<u16>, suffix: &Vec<u16>) -> (r: bool)
    ensures
        r == ends_with(s@, suffix@),
{
    if suffix.len() > s.len() {
        return false;
    }
    let slen = s.len();
    let off = slen - suffix.len();
    let mut i: usize = 0;
    while i < suffix.len()
        invariant
            slen == s@.len(),
            off + suffix@.len() == slen,
            i <= suffix@.len(),
            forall|k: int| 0 <= k < i ==> s@[off + k] == suffix@[k],
        decreases suffix@.len() - i,
    {
        if s[off + i] != suffix[i] {
            assert(s@.skip(off as int)[i as int] != suffix@[i as int]);
            return false;
        }
        i = i + 1;
    }
    assert(s@.skip(off as int) =~= suffix@);
    true
}

/// The kind of payload an entry at `path` holds.
pub fn payload_kind(path: &Vec<Vec<u16>>) -> (r: PayloadKind)
    ensures
        r == spec_payload_kind(crate::path::path_view(path@)),
{
    let ghost pv = crate::path::path_view(path@);
    let n = path.len();
    if n == 0 {
        return PayloadKind::Raw;
    }
    assert(pv[0] == path@[0]@);
    assert(pv.last() == path@[n - 1]@);
    let db: Vec<u16> = vec![0x64, 0x62];
    if n > 1 && crate::path::units_equal(path[0].as_slice(), db.as_slice()) {
        return PayloadKind::Db;
    }
    let last = &path[n - 1];
    let loc: Vec<u16> = vec![0x2e, 0x6c, 0x6f, 0x63];
    if ends_with_units(last, &loc) {
        return PayloadKind::Loc;
    }
    let rigid: Vec<u16> = vec![
        0x2e,
        0x72,
        0x69,
        0x67,
        0x69,
        0x64,
        0x5f,
        0x6d,
        0x6f,
        0x64,
        0x65,
        0x6c,
        0x5f,
        0x76,
        0x32,
    ];
    if ends_with_units(last, &rigid) {
        return PayloadKind::RigidModel;
    }
    let txt: Vec<u16> = vec![0x2e, 0x74, 0x78, 0x74];
    let xml: Vec<u16> = vec![0x2e, 0x78, 0x6d, 0x6c];
    let lua: Vec<u16> = vec![0x2e, 0x6c, 0x75, 0x61];
    if ends_with_units(last, &txt) || ends_with_units(last, &xml) || ends_with_units(last, &lua) {
        return PayloadKind::Text;
    }
    PayloadKind::Raw
}

/// The header of a localisation table: a byte-order mark, `LOC`, a zero byte, and
/// format version 1.
pub open spec fn loc_header() -> Seq<u8> {
    seq![0xFFu8, 0xFEu8, 0x4Cu8, 0x4Fu8, 0x43u8, 0x00u8, 0x01u8, 0x00u8, 0x00u8, 0x00u8]
}

/// The fields of every localisation table: key, text, tooltip flag.
pub open spec fn loc_types() -> Seq<FieldType> {
    seq![FieldType::Str, FieldType::Str, FieldType::Boolean]
}

/// What decoding a localisation table gives.
pub open spec fn spec_decode_loc(b: Seq<u8>) -> Result<Seq<Seq<CellView>>, PackError> {
    if b.len() < 10 || b.take(10) != loc_header() {
        Err(PackError::MalformedHeader)
    } else {
        spec_decode_table(loc_types(), b.skip(10))
    }
}

/// The bytes a localisation table is written as.
pub open spec fn loc_bytes(rows: Seq<Seq<CellView>>) -> Seq<u8> {
    loc_header() + table_bytes(rows)
}

/// The definition of localisation tables.
pub fn loc_definition() -> (r: TableDefinition)
    ensures
        types_of(r) == loc_types(),
        r.version == 1,
{
    let mut def = TableDefinition::new(String::from_str("loc"), 1);
    def.push_field(String::from_str("key"), FieldType::Str);
    def.push_field(String::from_str("text"), FieldType::Str);
    def.push_field(String::from_str("tooltip"), FieldType::Boolean);
    assert(types_of(def) =~= loc_types());
    def
}

/// Decodes a localisation table; `MalformedHeader` without its header, else as a
/// table of key, text and tooltip flag.
pub fn decode_loc(bytes: &[u8]) -> (r: Result<DecodedTable, PackError>)
    ensures
        match spec_decode_loc(bytes@) {
            Ok(rows) => r is Ok && rows_view(r->Ok_0.rows@) == rows && types_of(
                r->Ok_0.definition,
            ) == loc_types(),
            Err(e) => r == Err::<DecodedTable, PackError>(e),
        },
{
    if bytes.len() < 10 || bytes[0] != 0xFF || bytes[1] != 0xFE || bytes[2] != 0x4C || bytes[3]
        != 0x4F || bytes[4] != 0x43 || bytes[5] != 0x00 || bytes[6] != 0x01 || bytes[7] != 0x00
        || bytes[8] != 0x00 || bytes[9] != 0x00 {
        proof {
            if bytes@.len() >= 10 {
                let h = bytes@.take(10);
                assert(h[0] == bytes@[0] && h[1] == bytes@[1] && h[2] == bytes@[2] && h[3]
                    == bytes@[3] && h[4] == bytes@[4]);
                assert(h[5] == bytes@[5] && h[6] == bytes@[6] && h[7] == bytes@[7] && h[8]
                    == bytes@[8] && h[9] == bytes@[9]);
            }
        }
        return Err(PackError::MalformedHeader);
    }
    assert(bytes@.take(10) =~= loc_header());
    let body = vstd::slice::slice_subrange(bytes, 10, bytes.len());
    assert(body@ =~= bytes@.skip(10));
    let def = loc_definition();
    decode_table(body, &def)
}

/// Encodes the rows of a localisation table after its header; a row that is not a
/// key, a text and a flag is an error at its first bad field.
pub fn encode_loc(table: &DecodedTable) -> (r: Result<Vec<u8>, PackError>)
    requires
        table.rows@.len() <= u32::MAX,
    ensures
        match first_bad_row(loc_types(), rows_view(table.rows@), 0) {
            Some((i, j)) => r == Err::<Vec<u8>, PackError>(
                PackError::RowDecodeError { row: i as usize, field: j as usize },
            ),
            None => r is Ok && r->Ok_0@ == loc_bytes(rows_view(table.rows@)),
        },
{
    let def = loc_definition();
    let body = encode_rows(&def, &table.rows)?;
    let mut out: Vec<u8> = vec![0xFF, 0xFE, 0x4C, 0x4F, 0x43, 0x00, 0x01, 0x00, 0x00, 0x00];
    crate::bytes::write_bytes(&mut out, body.as_slice());
    assert(out@ =~= loc_bytes(rows_view(table.rows@)));
    Ok(out)
}

/// Writing localisation rows that match the fixed fields and reading them back
/// gives the rows again.
pub proof fn lemma_loc_round_trip(rows: Seq<Seq<CellView>>)
    requires
        rows.len() <= u32::MAX,
        forall|i: int| 0 <= i < rows.len() ==> row_ok(loc_types(), #[trigger] rows[i]),
    ensures
        spec_decode_loc(loc_bytes(rows)) == Ok::<Seq<Seq<CellView>>, PackError>(rows),
{
    let b = loc_bytes(rows);
    assert(b.take(10) =~= loc_header());
    assert(b.skip(10) =~= table_bytes(rows));
    lemma_table_round_trip(loc_types(), rows);
}

/// An entry's payload, decoded by the codec its path calls for.
#[derive(Debug)]
pub enum Payload {
    Db(DecodedTable),
    Loc(DecodedTable),
    RigidModel(RigidModel),
    Text(Vec<u8>),
    Raw(Vec<u8>),
}

/// Decodes an entry's bytes with the codec its path calls for: a database table
/// against `schema` (`SchemaUnavailable` without one, and the caller keeps the raw
/// bytes), a localisation table, a rigid model; text and anything else come back as
/// bytes. A failure concerns this entry alone.
pub fn open_payload(path: &Vec<Vec<u16>>, bytes: &[u8], schema: Option<&TableDefinition>) -> (r:
    Result<Payload, PackError>)
    ensures
        match spec_payload_kind(path_view(path@)) {
            PayloadKind::Db => match schema {
                None => r == Err::<Payload, PackError>(PackError::SchemaUnavailable),
                Some(d) => match spec_decode_table(types_of(*d), bytes@) {
                    Ok(rows) => r is Ok && r->Ok_0 is Db && rows_view(r->Ok_0->Db_0.rows@)
                        == rows,
                    Err(e) => r == Err::<Payload, PackError>(e),
                },
            },
            PayloadKind::Loc => match spec_decode_loc(bytes@) {
                Ok(rows) => r is Ok && r->Ok_0 is Loc && rows_view(r->Ok_0->Loc_0.rows@) == rows,
                Err(e) => r == Err::<Payload, PackError>(e),
            },
            PayloadKind::RigidModel => match spec_decode_rigid(bytes@) {
                Ok(m) => r is Ok && r->Ok_0 is RigidModel && r->Ok_0->RigidModel_0@ == m,
                Err(e) => r == Err::<Payload, PackError>(e),
            },
            PayloadKind::Text => r is Ok && r->Ok_0 is Text && r->Ok_0->Text_0@ == bytes@,
            PayloadKind::Raw => r is Ok && r->Ok_0 is Raw && r->Ok_0->Raw_0@ == bytes@,
        },
{
    match payload_kind(path) {
        PayloadKind::Db => match schema {
            None => Err(PackError::SchemaUnavailable),
            Some(d) => match decode_table(bytes, d) {
                Ok(t) => Ok(Payload::Db(t)),
                Err(e) => Err(e),
            },
        },
        PayloadKind::Loc => match decode_loc(bytes) {
            Ok(t) => Ok(Payload::Loc(t)),
            Err(e) => Err(e),
        },
        PayloadKind::RigidModel => match RigidModel::decode(bytes) {
            Ok(m) => Ok(Payload::RigidModel(m)),
            Err(e) => Err(e),
        },
        PayloadKind::Text => Ok(Payload::Text(vstd::slice::slice_to_vec(bytes))),
        PayloadKind::Raw => Ok(Payload::Raw(vstd::slice::slice_to_vec(bytes))),
    }
}

} // verus!
