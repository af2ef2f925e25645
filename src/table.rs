//! Table definitions and the row codec: a 32-bit row count, then each row's cells
//! in the order of the definition's fields.

use vstd::prelude::*;

use crate::bytes::{
    Cursor, bool_byte, string16_bytes, string8_bytes, take_bool, take_string16, take_string8,
    take_u32, u32_bytes, write_bool, write_string16, write_string8, write_u32,
};
use crate::bytes::{
    lemma_string16_round_trip, lemma_string16_split, lemma_string8_round_trip,
    lemma_string8_split, lemma_u32_round_trip, lemma_u32_split,
};
use crate::error::PackError;

verus! {

/// The closed set of field types a table definition may use.
#[derive(Debug, Clone, Copy, PartialEq, Eq, Structural)]
pub enum FieldType {
    /// One byte, 0x00 or 0x01.
    Boolean,
    /// UTF-16 code units after a 16-bit count.
    Str,
    /// Bytes after a 16-bit length.
    StrAscii,
    /// As `Str`; the empty string stands for an absent value.
    OptStr,
    /// As `StrAscii`; the empty string stands for an absent value.
    OptStrAscii,
    /// Four bytes, signed, little-endian.
    Int,
    /// Four bytes of an IEEE-754 single, kept as its bit pattern.
    Float,
}

/// One named, typed column of a table.
#[derive(Debug, Clone)]
pub struct FieldDef {
    pub name: String,
    pub field_type: FieldType,
}

/// The layout of one version of a table.
#[derive(Debug, Clone)]
pub struct TableDefinition {
    pub table_name: String,
    pub version: u32,
    pub fields: Vec<FieldDef>,
}

/// One cell of a decoded table.
#[derive(Debug, Clone, PartialEq)]
pub enum FieldValue {
    Boolean(bool),
    Str(Vec<u16>),
    StrAscii(Vec<u8>),
    OptStr(Vec<u16>),
    OptStrAscii(Vec<u8>),
    Int(i32),
    /// The bit pattern of the float.
    Float(u32),
}

/// The mathematical value of a cell.
pub enum CellView {
    Boolean(bool),
    Str(Seq<u16>),
    StrAscii(Seq<u8>),
    OptStr(Seq<u16>),
    OptStrAscii(Seq<u8>),
    Int(i32),
    Float(u32),
}

impl View for FieldValue {
    type V = CellView;

    open spec fn view(&self) -> CellView {
        match self {
            FieldValue::Boolean(b) => CellView::Boolean(*b),
            FieldValue::Str(u) => CellView::Str(u@),
            FieldValue::StrAscii(b) => CellView::StrAscii(b@),
            FieldValue::OptStr(u) => CellView::OptStr(u@),
            FieldValue::OptStrAscii(b) => CellView::OptStrAscii(b@),
            FieldValue::Int(i) => CellView::Int(*i),
            FieldValue::Float(f) => CellView::Float(*f),
        }
    }
}

/// A table decoded against its definition.
#[derive(Debug, Clone)]
pub struct DecodedTable {
    pub definition: TableDefinition,
    pub rows: Vec<Vec<FieldValue>>,
}

/// The field types of a definition, in order.
pub open spec fn types_of(def: TableDefinition) -> Seq<FieldType> {
    def.fields@.map_values(|f: FieldDef| f.field_type)
}

pub open spec fn row_view(r: Seq<FieldValue>) -> Seq<CellView> {
    r.map_values(|c: FieldValue| c@)
}

pub open spec fn rows_view(rows: Seq<Vec<FieldValue>>) -> Seq<Seq<CellView>> {
    rows.map_values(|r: Vec<FieldValue>| row_view(r@))
}

/// The two's-complement bit pattern of a 32-bit integer.
pub open spec fn i32_bits(i: i32) -> u32 {
    if i >= 0 {
        i as u32
    } else {
        (i + 0x1_0000_0000) as u32
    }
}

/// The 32-bit integer of a two's-complement bit pattern.
pub open spec fn i32_of_bits(v: u32) -> i32 {
    if v < 0x8000_0000 {
        v as i32
    } else {
        (v - 0x1_0000_0000) as i32
    }
}

pub open spec fn cell_type(c: CellView) -> FieldType {
    match c {
        CellView::Boolean(_) => FieldType::Boolean,
        CellView::Str(_) => FieldType::Str,
        CellView::StrAscii(_) => FieldType::StrAscii,
        CellView::OptStr(_) => FieldType::OptStr,
        CellView::OptStrAscii(_) => FieldType::OptStrAscii,
        CellView::Int(_) => FieldType::Int,
        CellView::Float(_) => FieldType::Float,
    }
}

/// A cell holds a value of type `t` that its encoding can frame.
pub open spec fn cell_ok(t: FieldType, c: CellView) -> bool {
    &&& cell_type(c) == t
    &&& match c {
        CellView::Str(u) => u.len() <= u16::MAX,
        CellView::OptStr(u) => u.len() <= u16::MAX,
        CellView::StrAscii(b) => b.len() <= u16::MAX,
        CellView::OptStrAscii(b) => b.len() <= u16::MAX,
        _ => true,
    }
}

/// A row matches the field types: one fitting cell per field.
pub open spec fn row_ok(types: Seq<FieldType>, r: Seq<CellView>) -> bool {
    &&& r.len() == types.len()
    &&& forall|j: int| 0 <= j < r.len() ==> cell_ok(types[j], #[trigger] r[j])
}

pub open spec fn cell_bytes(c: CellView) -> Seq<u8> {
    match c {
        CellView::Boolean(b) => seq![bool_byte(b)],
        CellView::Str(u) => string16_bytes(u),
        CellView::StrAscii(b) => string8_bytes(b),
        CellView::OptStr(u) => string16_bytes(u),
        CellView::OptStrAscii(b) => string8_bytes(b),
        CellView::Int(i) => u32_bytes(i32_bits(i)),
        CellView::Float(f) => u32_bytes(f),
    }
}

pub open spec fn row_bytes(r: Seq<CellView>) -> Seq<u8> {
    r.map_values(|c: CellView| cell_bytes(c)).flatten()
}

pub open spec fn rows_bytes(rows: Seq<Seq<CellView>>) -> Seq<u8> {
    rows.map_values(|r: Seq<CellView>| row_bytes(r)).flatten()
}

/// The encoding of a table: its row count, then its rows.
pub open spec fn table_bytes(rows: Seq<Seq<CellView>>) -> Seq<u8> {
    u32_bytes(rows.len() as u32) + rows_bytes(rows)
}

pub open spec fn take_cell(t: FieldType, s: Seq<u8>) -> Option<(CellView, Seq<u8>)> {
    match t {
        FieldType::Boolean => match take_bool(s) {
            Some((b, r)) => Some((CellView::Boolean(b), r)),
            None => None,
        },
        FieldType::Str => match take_string16(s) {
            Some((u, r)) => Some((CellView::Str(u), r)),
            None => None,
        },
        FieldType::StrAscii => match take_string8(s) {
            Some((b, r)) => Some((CellView::StrAscii(b), r)),
            None => None,
        },
        FieldType::OptStr => match take_string16(s) {
            Some((u, r)) => Some((CellView::OptStr(u), r)),
            None => None,
        },
        FieldType::OptStrAscii => match take_string8(s) {
            Some((b, r)) => Some((CellView::OptStrAscii(b), r)),
            None => None,
        },
        FieldType::Int => match take_u32(s) {
            Some((v, r)) => Some((CellView::Int(i32_of_bits(v)), r)),
            None => None,
        },
        FieldType::Float => match take_u32(s) {
            Some((v, r)) => Some((CellView::Float(v), r)),
            None => None,
        },
    }
}

/// Reads one row; on failure, the index of the field that could not be read.
pub open spec fn take_row(types: Seq<FieldType>, s: Seq<u8>) -> Result<
    (Seq<CellView>, Seq<u8>),
    nat,
>
    decreases types.len(),
{
    if types.len() == 0 {
        Ok((Seq::empty(), s))
    } else {
        match take_cell(types[0], s) {
            None => Err(0),
            Some((c, r)) => match take_row(types.drop_first(), r) {
                Err(j) => Err(j + 1),
                Ok((cs, r2)) => Ok((seq![c] + cs, r2)),
            },
        }
    }
}

/// Reads `n` rows; on failure, the row and field that could not be read.
pub open spec fn take_rows(types: Seq<FieldType>, s: Seq<u8>, n: nat) -> Result<
    (Seq<Seq<CellView>>, Seq<u8>),
    (nat, nat),
>
    decreases n,
{
    if n == 0 {
        Ok((Seq::empty(), s))
    } else {
        match take_row(types, s) {
            Err(j) => Err((0, j)),
            Ok((r, s2)) => match take_rows(types, s2, (n - 1) as nat) {
                Err((i, j)) => Err((i + 1, j)),
                Ok((rs, s3)) => Ok((seq![r] + rs, s3)),
            },
        }
    }
}

/// What decoding `b` against the field types gives: the rows, or the first failure.
/// A buffer without a row count is truncated; bytes left after the last row are
/// reported as a failure of the row past the last one.
pub open spec fn spec_decode_table(types: Seq<FieldType>, b: Seq<u8>) -> Result<
    Seq<Seq<CellView>>,
    PackError,
> {
    match take_u32(b) {
        None => Err(PackError::TruncatedData),
        Some((n, s)) => match take_rows(types, s, n as nat) {
            Err((i, j)) => Err(PackError::RowDecodeError { row: i as usize, field: j as usize }),
            Ok((rows, rest)) => if rest.len() == 0 {
                Ok(rows)
            } else {
                Err(PackError::RowDecodeError { row: n as usize, field: 0 })
            },
        },
    }
}

/// The first field, from `j` on, whose cell does not fit; the shorter length if
/// all of the common ones do.
pub open spec fn first_bad_cell(types: Seq<FieldType>, r: Seq<CellView>, j: int) -> int
    decreases types.len() - j,
{
    if j >= types.len() || j >= r.len() {
        if types.len() <= r.len() {
            types.len() as int
        } else {
            r.len() as int
        }
    } else if !cell_ok(types[j], r[j]) {
        j
    } else {
        first_bad_cell(types, r, j + 1)
    }
}

/// The first row, from `i` on, that does not match the field types, with its first
/// bad field.
pub open spec fn first_bad_row(types: Seq<FieldType>, rows: Seq<Seq<CellView>>, i: int) -> Option<
    (int, int),
>
    decreases rows.len() - i,
{
    if i >= rows.len() || i < 0 {
        None
    } else if !row_ok(types, rows[i]) {
        Some((i, first_bad_cell(types, rows[i], 0)))
    } else {
        first_bad_row(types, rows, i + 1)
    }
}

proof fn lemma_bits_round_trip(i: i32)
    ensures
        i32_of_bits(i32_bits(i)) == i,
{
}

proof fn lemma_cell_round_trip(t: FieldType, c: CellView, rest: Seq<u8>)
    requires
        cell_ok(t, c),
    ensures
        take_cell(t, cell_bytes(c) + rest) == Some((c, rest)),
{
    match c {
        CellView::Boolean(b) => {
            assert((cell_bytes(c) + rest).skip(1) =~= rest);
        },
        CellView::Str(u) => lemma_string16_round_trip(u, rest),
        CellView::OptStr(u) => lemma_string16_round_trip(u, rest),
        CellView::StrAscii(b) => lemma_string8_round_trip(b, rest),
        CellView::OptStrAscii(b) => lemma_string8_round_trip(b, rest),
        CellView::Int(i) => {
            lemma_u32_round_trip(i32_bits(i), rest);
            lemma_bits_round_trip(i);
        },
        CellView::Float(f) => lemma_u32_round_trip(f, rest),
    }
}

proof fn lemma_cell_split(t: FieldType, s: Seq<u8>)
    requires
        take_cell(t, s) is Some,
    ensures
        match take_cell(t, s) {
            Some((c, r)) => cell_ok(t, c) && s == cell_bytes(c) + r,
            None => false,
        },
{
    match t {
        FieldType::Boolean => {
            assert(s =~= seq![s[0]] + s.skip(1));
        },
        FieldType::Str => lemma_string16_split(s),
        FieldType::OptStr => lemma_string16_split(s),
        FieldType::StrAscii => lemma_string8_split(s),
        FieldType::OptStrAscii => lemma_string8_split(s),
        FieldType::Int => {
            lemma_u32_split(s);
            let (v, _) = take_u32(s)->0;
            assert(i32_bits(i32_of_bits(v)) == v);
        },
        FieldType::Float => lemma_u32_split(s),
    }
}

proof fn lemma_row_bytes_unfold(r: Seq<CellView>)
    requires
        r.len() > 0,
    ensures
        row_bytes(r) == cell_bytes(r[0]) + row_bytes(r.drop_first()),
{
    let m = r.map_values(|c: CellView| cell_bytes(c));
    assert(m.drop_first() =~= r.drop_first().map_values(|c: CellView| cell_bytes(c)));
}

proof fn lemma_rows_bytes_unfold(rows: Seq<Seq<CellView>>)
    requires
        rows.len() > 0,
    ensures
        rows_bytes(rows) == row_bytes(rows[0]) + rows_bytes(rows.drop_first()),
{
    let m = rows.map_values(|r: Seq<CellView>| row_bytes(r));
    assert(m.drop_first() =~= rows.drop_first().map_values(|r: Seq<CellView>| row_bytes(r)));
}

proof fn lemma_row_round_trip(types: Seq<FieldType>, r: Seq<CellView>, rest: Seq<u8>)
    requires
        row_ok(types, r),
    ensures
        take_row(types, row_bytes(r) + rest) == Ok::<(Seq<CellView>, Seq<u8>), nat>((r, rest)),
    decreases types.len(),
{
    if types.len() == 0 {
        assert(r =~= Seq::<CellView>::empty());
        assert(row_bytes(r) + rest =~= rest);
    } else {
        lemma_row_bytes_unfold(r);
        let tail = row_bytes(r.drop_first()) + rest;
        assert(row_bytes(r) + rest =~= cell_bytes(r[0]) + tail);
        lemma_cell_round_trip(types[0], r[0], tail);
        assert(row_ok(types.drop_first(), r.drop_first())) by {
            assert forall|j: int| 0 <= j < r.drop_first().len() implies cell_ok(
                types.drop_first()[j],
                #[trigger] r.drop_first()[j],
            ) by {
                assert(cell_ok(types[j + 1], r[j + 1]));
            }
        }
        lemma_row_round_trip(types.drop_first(), r.drop_first(), rest);
        assert(seq![r[0]] + r.drop_first() =~= r);
    }
}

proof fn lemma_row_split(types: Seq<FieldType>, s: Seq<u8>)
    requires
        take_row(types, s) is Ok,
    ensures
        match take_row(types, s) {
            Ok((r, rest)) => row_ok(types, r) && s == row_bytes(r) + rest,
            Err(_) => false,
        },
    decreases types.len(),
{
    if types.len() == 0 {
        assert(s =~= row_bytes(Seq::<CellView>::empty()) + s);
    } else {
        lemma_cell_split(types[0], s);
        let (c, r1) = take_cell(types[0], s)->0;
        lemma_row_split(types.drop_first(), r1);
        let (cs, rest) = take_row(types.drop_first(), r1)->Ok_0;
        let r = seq![c] + cs;
        assert(r.drop_first() =~= cs);
        lemma_row_bytes_unfold(r);
        assert(s =~= row_bytes(r) + rest);
        assert forall|j: int| 0 <= j < r.len() implies cell_ok(types[j], #[trigger] r[j]) by {
            if j > 0 {
                assert(r[j] == cs[j - 1]);
                assert(types.drop_first()[j - 1] == types[j]);
            }
        }
    }
}

proof fn lemma_rows_round_trip(types: Seq<FieldType>, rows: Seq<Seq<CellView>>, rest: Seq<u8>)
    requires
        forall|i: int| 0 <= i < rows.len() ==> row_ok(types, #[trigger] rows[i]),
    ensures
        take_rows(types, rows_bytes(rows) + rest, rows.len()) == Ok::<
            (Seq<Seq<CellView>>, Seq<u8>),
            (nat, nat),
        >((rows, rest)),
    decreases rows.len(),
{
    if rows.len() == 0 {
        assert(rows =~= Seq::<Seq<CellView>>::empty());
        assert(rows_bytes(rows) + rest =~= rest);
    } else {
        lemma_rows_bytes_unfold(rows);
        let tail = rows_bytes(rows.drop_first()) + rest;
        assert(rows_bytes(rows) + rest =~= row_bytes(rows[0]) + tail);
        lemma_row_round_trip(types, rows[0], tail);
        lemma_rows_round_trip(types, rows.drop_first(), rest);
        assert(seq![rows[0]] + rows.drop_first() =~= rows);
    }
}

proof fn lemma_rows_split(types: Seq<FieldType>, s: Seq<u8>, n: nat)
    requires
        take_rows(types, s, n) is Ok,
    ensures
        match take_rows(types, s, n) {
            Ok((rows, rest)) => rows.len() == n && (forall|i: int|
                0 <= i < rows.len() ==> row_ok(types, #[trigger] rows[i])) && s == rows_bytes(
                rows,
            ) + rest,
            Err(_) => false,
        },
    decreases n,
{
    if n == 0 {
        assert(s =~= rows_bytes(Seq::<Seq<CellView>>::empty()) + s);
    } else {
        lemma_row_split(types, s);
        let (r, s2) = take_row(types, s)->Ok_0;
        lemma_rows_split(types, s2, (n - 1) as nat);
        let (rs, rest) = take_rows(types, s2, (n - 1) as nat)->Ok_0;
        let rows = seq![r] + rs;
        assert(rows.drop_first() =~= rs);
        lemma_rows_bytes_unfold(rows);
        assert(s =~= rows_bytes(rows) + rest);
        assert forall|i: int| 0 <= i < rows.len() implies row_ok(types, #[trigger] rows[i]) by {
            if i > 0 {
                assert(rows[i] == rs[i - 1]);
            }
        }
    }
}

/// Encoding a table whose rows match the field types, then decoding the bytes
/// against the same types, gives the rows back.
pub proof fn lemma_table_round_trip(types: Seq<FieldType>, rows: Seq<Seq<CellView>>)
    requires
        rows.len() <= u32::MAX,
        forall|i: int| 0 <= i < rows.len() ==> row_ok(types, #[trigger] rows[i]),
    ensures
        spec_decode_table(types, table_bytes(rows)) == Ok::<Seq<Seq<CellView>>, PackError>(rows),
{
    lemma_u32_round_trip(rows.len() as u32, rows_bytes(rows));
    lemma_rows_round_trip(types, rows, Seq::empty());
    assert(rows_bytes(rows) + Seq::<u8>::empty() =~= rows_bytes(rows));
}

/// A successful decode reads every byte: encoding the rows it gives reproduces
/// the input exactly, and every row matches the field types.
pub proof fn lemma_table_decode_exact(types: Seq<FieldType>, b: Seq<u8>)
    requires
        spec_decode_table(types, b) is Ok,
    ensures
        match spec_decode_table(types, b) {
            Ok(rows) => table_bytes(rows) == b && rows.len() <= u32::MAX && forall|i: int|
                0 <= i < rows.len() ==> row_ok(types, #[trigger] rows[i]),
            Err(_) => false,
        },
{
    lemma_u32_split(b);
    let (n, s) = take_u32(b)->0;
    lemma_rows_split(types, s, n as nat);
    let (rows, rest) = take_rows(types, s, n as nat)->Ok_0;
    assert(rest =~= Seq::<u8>::empty());
    assert(s =~= rows_bytes(rows));
}

fn i32_to_bits(i: i32) -> (r: u32)
    ensures
        r == i32_bits(i),
{
    if i >= 0 {
        i as u32
    } else {
        ((i + 2147483647 + 1) as u32) + 2147483648
    }
}

fn bits_to_i32(v: u32) -> (r: i32)
    ensures
        r == i32_of_bits(v),
{
    if v < 2147483648 {
        v as i32
    } else {
        ((v - 2147483648) as i32) - 2147483647 - 1
    }
}

fn read_cell(cur: &mut Cursor, t: FieldType) -> (r: Option<FieldValue>)
    requires
        old(cur).wf(),
    ensures
        final(cur).wf(),
        final(cur).bytes@ == old(cur).bytes@,
        match take_cell(t, old(cur).rest()) {
            Some((c, rest)) => r is Some && r->0@ == c && final(cur).rest() == rest,
            None => r is None,
        },
{
    match t {
        FieldType::Boolean => match cur.read_bool() {
            Ok(b) => Some(FieldValue::Boolean(b)),
            Err(_) => None,
        },
        FieldType::Str => match cur.read_string16() {
            Ok(u) => Some(FieldValue::Str(u)),
            Err(_) => None,
        },
        FieldType::StrAscii => match cur.read_string8() {
            Ok(b) => Some(FieldValue::StrAscii(b)),
            Err(_) => None,
        },
        FieldType::OptStr => match cur.read_string16() {
            Ok(u) => Some(FieldValue::OptStr(u)),
            Err(_) => None,
        },
        FieldType::OptStrAscii => match cur.read_string8() {
            Ok(b) => Some(FieldValue::OptStrAscii(b)),
            Err(_) => None,
        },
        FieldType::Int => match cur.read_u32() {
            Ok(v) => Some(FieldValue::Int(bits_to_i32(v))),
            Err(_) => None,
        },
        FieldType::Float => match cur.read_u32() {
            Ok(v) => Some(FieldValue::Float(v)),
            Err(_) => None,
        },
    }
}

/// Reads one row of `def`'s fields; on failure, the index of the failing field.
fn read_row(cur: &mut Cursor, def: &TableDefinition) -> (r: Result<Vec<FieldValue>, usize>)
    requires
        old(cur).wf(),
    ensures
        final(cur).wf(),
        final(cur).bytes@ == old(cur).bytes@,
        match take_row(types_of(*def), old(cur).rest()) {
            Ok((cells, rest)) => r is Ok && row_view(r->Ok_0@) == cells && final(cur).rest()
                == rest,
            Err(j) => r is Err && r->Err_0 == j,
        },
{
    let ghost types = types_of(*def);
    let ghost whole = take_row(types, old(cur).rest());
    let n = def.fields.len();
    let mut row: Vec<FieldValue> = Vec::new();
    let mut j: usize = 0;
    assert(types.skip(0) =~= types);
    assert(row_view(row@) =~= Seq::<CellView>::empty());
    assert forall|cs: Seq<CellView>| #![auto] Seq::<CellView>::empty() + cs =~= cs by {}
    while j < n
        invariant
            n == def.fields@.len() == types.len(),
            types == types_of(*def),
            j <= n,
            cur.wf(),
            cur.bytes@ == old(cur).bytes@,
            row@.len() == j,
            whole == take_row(types, old(cur).rest()),
            whole == match take_row(types.skip(j as int), cur.rest()) {
                Ok((cs, rest)) => Ok((row_view(row@) + cs, rest)),
                Err(k) => Err::<(Seq<CellView>, Seq<u8>), nat>((k + j) as nat),
            },
        decreases n - j,
    {
        let ghost before = cur.rest();
        assert(types.skip(j as int)[0] == types[j as int]);
        assert(types.skip(j as int).drop_first() =~= types.skip(j + 1));
        match read_cell(cur, def.fields[j].field_type) {
            Some(c) => {
                proof {
                    assert(row_view(row@.push(c)) =~= row_view(row@).push(c@));
                    assert forall|cs: Seq<CellView>|
                        #![auto]
                        row_view(row@) + (seq![c@] + cs) =~= row_view(row@).push(c@) + cs by {}
                }
                row.push(c);
            },
            None => {
                assert(take_row(types.skip(j as int), before) == Err::<
                    (Seq<CellView>, Seq<u8>),
                    nat,
                >(0));
                return Err(j);
            },
        }
        j = j + 1;
    }
    proof {
        assert(types.skip(n as int).len() == 0);
        assert(row_view(row@) + Seq::<CellView>::empty() =~= row_view(row@));
    }
    Ok(row)
}

/// Decodes a table's bytes against its definition: a 32-bit row count, then the rows.
/// No partial table comes out: the first cell that cannot be read is reported.
pub fn decode_table(bytes: &[u8], definition: &TableDefinition) -> (r: Result<
    DecodedTable,
    PackError,
>)
    ensures
        match spec_decode_table(types_of(*definition), bytes@) {
            Ok(rows) => r is Ok && rows_view(r->Ok_0.rows@) == rows && r->Ok_0.definition@
                == definition@ && types_of(r->Ok_0.definition) == types_of(*definition),
            Err(e) => r == Err::<DecodedTable, PackError>(e),
        },
{
    let ghost types = types_of(*definition);
    let mut cur = Cursor::new(bytes);
    let count = match cur.read_u32() {
        Ok(n) => n,
        Err(_) => {
            return Err(PackError::TruncatedData);
        },
    };
    let ghost s0 = cur.rest();
    let ghost whole = take_rows(types, s0, count as nat);
    let mut rows: Vec<Vec<FieldValue>> = Vec::new();
    let mut i: u32 = 0;
    while i < count
        invariant
            types == types_of(*definition),
            i <= count,
            cur.wf(),
            cur.bytes@ == bytes@,
            rows@.len() == i,
            whole == take_rows(types, s0, count as nat),
            take_u32(bytes@) == Some((count, s0)),
            whole == match take_rows(types, cur.rest(), (count - i) as nat) {
                Ok((rs, rest)) => Ok((rows_view(rows@) + rs, rest)),
                Err((a, b)) => Err::<(Seq<Seq<CellView>>, Seq<u8>), (nat, nat)>(((a + i) as nat, b)),
            },
        decreases count - i,
    {
        let ghost before = cur.rest();
        match read_row(&mut cur, definition) {
            Ok(row) => {
                proof {
                    assert(rows_view(rows@.push(row)) =~= rows_view(rows@).push(row_view(row@)));
                    assert forall|rs: Seq<Seq<CellView>>|
                        #![auto]
                        rows_view(rows@) + (seq![row_view(row@)] + rs) =~= rows_view(rows@).push(
                            row_view(row@),
                        ) + rs by {}
                }
                rows.push(row);
            },
            Err(j) => {
                assert(take_rows(types, before, (count - i) as nat) == Err::<
                    (Seq<Seq<CellView>>, Seq<u8>),
                    (nat, nat),
                >((0, j as nat)));
                return Err(PackError::RowDecodeError { row: i as usize, field: j });
            },
        }
        i = i + 1;
    }
    proof {
        assert(rows_view(rows@) + Seq::<Seq<CellView>>::empty() =~= rows_view(rows@));
    }
    if cur.remaining() != 0 {
        return Err(PackError::RowDecodeError { row: count as usize, field: 0 });
    }
    Ok(DecodedTable { definition: definition.copied(), rows })
}

fn write_cell(out: &mut Vec<u8>, c: &FieldValue)
    requires
        cell_ok(cell_type(c@), c@),
    ensures
        final(out)@ == old(out)@ + cell_bytes(c@),
{
    match c {
        FieldValue::Boolean(b) => {
            write_bool(out, *b);
            assert(final(out)@ =~= old(out)@ + cell_bytes(c@));
        },
        FieldValue::Str(u) => write_string16(out, u.as_slice()),
        FieldValue::StrAscii(b) => write_string8(out, b.as_slice()),
        FieldValue::OptStr(u) => write_string16(out, u.as_slice()),
        FieldValue::OptStrAscii(b) => write_string8(out, b.as_slice()),
        FieldValue::Int(i) => write_u32(out, i32_to_bits(*i)),
        FieldValue::Float(f) => write_u32(out, *f),
    }
}

fn field_type_of(c: &FieldValue) -> (t: FieldType)
    ensures
        t == cell_type(c@),
{
    match c {
        FieldValue::Boolean(_) => FieldType::Boolean,
        FieldValue::Str(_) => FieldType::Str,
        FieldValue::StrAscii(_) => FieldType::StrAscii,
        FieldValue::OptStr(_) => FieldType::OptStr,
        FieldValue::OptStrAscii(_) => FieldType::OptStrAscii,
        FieldValue::Int(_) => FieldType::Int,
        FieldValue::Float(_) => FieldType::Float,
    }
}

/// Whether a cell holds a value of type `t` that its encoding can frame.
pub fn cell_fits(t: FieldType, c: &FieldValue) -> (r: bool)
    ensures
        r == cell_ok(t, c@),
{
    if field_type_of(c) != t {
        return false;
    }
    match c {
        FieldValue::Str(u) => u.len() <= 65535,
        FieldValue::OptStr(u) => u.len() <= 65535,
        FieldValue::StrAscii(b) => b.len() <= 65535,
        FieldValue::OptStrAscii(b) => b.len() <= 65535,
        _ => true,
    }
}

/// The first field of `row` that does not match `def`, or `None` when the row matches.
fn check_row(def: &TableDefinition, row: &Vec<FieldValue>) -> (r: Option<usize>)
    ensures
        row_ok(types_of(*def), row_view(row@)) ==> r is None,
        !row_ok(types_of(*def), row_view(row@)) ==> r == Some(
            first_bad_cell(types_of(*def), row_view(row@), 0) as usize,
        ),
{
    let ghost types = types_of(*def);
    let ghost cells = row_view(row@);
    let n = def.fields.len();
    let m = row.len();
    let mut j: usize = 0;
    while j < n && j < m
        invariant
            n == types.len(),
            m == cells.len(),
            types == types_of(*def),
            cells == row_view(row@),
            j <= n,
            j <= m,
            forall|k: int| 0 <= k < j ==> cell_ok(types[k], #[trigger] cells[k]),
            first_bad_cell(types, cells, 0) == first_bad_cell(types, cells, j as int),
        decreases n - j,
    {
        if !cell_fits(def.fields[j].field_type, &row[j]) {
            return Some(j);
        }
        j = j + 1;
    }
    if n == m {
        None
    } else {
        Some(j)
    }
}

/// Encodes a table: its row count, then each row's cells in field order. A row that
/// no longer matches the definition is an error, reported at its first bad field.
pub fn encode_table(table: &DecodedTable) -> (r: Result<Vec<u8>, PackError>)
    requires
        table.rows@.len() <= u32::MAX,
    ensures
        match first_bad_row(types_of(table.definition), rows_view(table.rows@), 0) {
            Some((i, j)) => r == Err::<Vec<u8>, PackError>(
                PackError::RowDecodeError { row: i as usize, field: j as usize },
            ),
            None => r is Ok && r->Ok_0@ == table_bytes(rows_view(table.rows@)),
        },
{
    encode_rows(&table.definition, &table.rows)
}

/// Encodes rows against the field types of `def`.
pub fn encode_rows(def: &TableDefinition, table_rows: &Vec<Vec<FieldValue>>) -> (r: Result<
    Vec<u8>,
    PackError,
>)
    requires
        table_rows@.len() <= u32::MAX,
    ensures
        match first_bad_row(types_of(*def), rows_view(table_rows@), 0) {
            Some((i, j)) => r == Err::<Vec<u8>, PackError>(
                PackError::RowDecodeError { row: i as usize, field: j as usize },
            ),
            None => r is Ok && r->Ok_0@ == table_bytes(rows_view(table_rows@)),
        },
{
    let ghost types = types_of(*def);
    let ghost rows = rows_view(table_rows@);
    let n = table_rows.len();
    let mut i: usize = 0;
    while i < n
        invariant
            n == rows.len(),
            rows == rows_view(table_rows@),
            types == types_of(*def),
            i <= n,
            forall|k: int| 0 <= k < i ==> row_ok(types, #[trigger] rows[k]),
            first_bad_row(types, rows, 0) == first_bad_row(types, rows, i as int),
        decreases n - i,
    {
        match check_row(def, &table_rows[i]) {
            Some(j) => {
                return Err(PackError::RowDecodeError { row: i, field: j });
            },
            None => {},
        }
        i = i + 1;
    }
    let mut out: Vec<u8> = Vec::new();
    write_u32(&mut out, n as u32);
    let ghost head = out@;
    let mut i: usize = 0;
    while i < n
        invariant
            n == rows.len(),
            rows == rows_view(table_rows@),
            types == types_of(*def),
            i <= n,
            forall|k: int| 0 <= k < n ==> row_ok(types, #[trigger] rows[k]),
            out@ == head + rows_bytes(rows.take(i as int)),
        decreases n - i,
    {
        let row = &table_rows[i];
        let ghost cells = rows[i as int];
        let ghost before = out@;
        let m = row.len();
        let mut j: usize = 0;
        while j < m
            invariant
                m == cells.len(),
                cells == row_view(row@),
                row_ok(types, cells),
                j <= m,
                out@ == before + row_bytes(cells.take(j as int)),
            decreases m - j,
        {
            assert(cell_ok(types[j as int], cells[j as int]));
            write_cell(&mut out, &row[j]);
            proof {
                let f = |c: CellView| cell_bytes(c);
                assert(cells.take(j + 1).map_values(f) =~= cells.take(j as int).map_values(f).push(
                    cell_bytes(cells[j as int]),
                ));
                cells.take(j as int).map_values(f).lemma_flatten_push(cell_bytes(cells[j as int]));
            }
            j = j + 1;
        }
        proof {
            assert(cells.take(m as int) =~= cells);
            let g = |r: Seq<CellView>| row_bytes(r);
            assert(rows.take(i + 1).map_values(g) =~= rows.take(i as int).map_values(g).push(
                row_bytes(cells),
            ));
            rows.take(i as int).map_values(g).lemma_flatten_push(row_bytes(cells));
        }
        i = i + 1;
    }
    assert(rows.take(n as int) =~= rows);
    Ok(out)
}

/// The mathematical value of a definition: its name, version, and fields.
pub struct DefinitionView {
    pub table_name: Seq<char>,
    pub version: u32,
    pub fields: Seq<(Seq<char>, FieldType)>,
}

impl View for TableDefinition {
    type V = DefinitionView;

    open spec fn view(&self) -> DefinitionView {
        DefinitionView {
            table_name: self.table_name@,
            version: self.version,
            fields: self.fields@.map_values(|f: FieldDef| (f.name@, f.field_type)),
        }
    }
}

impl TableDefinition {
    /// A definition with no fields yet.
    pub fn new(table_name: String, version: u32) -> (r: Self)
        ensures
            r.table_name@ == table_name@,
            r.version == version,
            r.fields@.len() == 0,
    {
        TableDefinition { table_name, version, fields: Vec::new() }
    }

    /// Appends a field at the end of the layout.
    pub fn push_field(&mut self, name: String, field_type: FieldType)
        ensures
            final(self).table_name == old(self).table_name,
            final(self).version == old(self).version,
            final(self).fields@ == old(self).fields@.push(FieldDef { name, field_type }),
    {
        self.fields.push(FieldDef { name, field_type });
    }

    /// A copy with the same name, version and fields.
    pub fn copied(&self) -> (r: Self)
        ensures
            r@ == self@,
            types_of(r) == types_of(*self),
    {
        let mut fields: Vec<FieldDef> = Vec::new();
        let mut i: usize = 0;
        while i < self.fields.len()
            invariant
                i <= self.fields@.len(),
                fields@.len() == i,
                forall|k: int|
                    0 <= k < i ==> (#[trigger] fields@[k]).name@ == self.fields@[k].name@
                        && fields@[k].field_type == self.fields@[k].field_type,
            decreases self.fields@.len() - i,
        {
            let f = &self.fields[i];
            fields.push(FieldDef { name: f.name.clone(), field_type: f.field_type });
            i = i + 1;
        }
        let r = TableDefinition { table_name: self.table_name.clone(), version: self.version, fields };
        assert(r@.fields =~= self@.fields);
        assert(types_of(r) =~= types_of(*self));
        r
    }
}

} // verus!
