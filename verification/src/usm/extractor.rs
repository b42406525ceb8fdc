//! USM demultiplexing: the @UTF tables of the header, the header and
//! metadata sections, and the video and audio chunks with their masks.
//!
//! Offsets follow the container's own arithmetic: a signed 64-bit value cast
//! to an unsigned position wraps, a 32-bit size less 24 wraps, and a chunk's
//! payload length (block size less header and footer sizes) wraps in `usize`.

use crate::reader::{
    all_ascii, ascii_text, be16, be32, io_text, be64, can_read, cstring_end, lossy_string, signed16, signed32, signed8, utf8_lossy,
    IoError, Reader, SeekFrom,
};
use vstd::prelude::*;
use crate::decimal::{decimal_nat, push_decimal_nat};
use vstd::slice::slice_to_vec;

verus! {

broadcast use crate::reader::Reader::lemma_pos_range;

// ---------------------------------------------------------------------------
// Errors and values
// ---------------------------------------------------------------------------

/// Errors of USM extraction.
#[derive(Debug, Clone, PartialEq, Eq)]
pub enum UsmError {
    Io(IoError),
    InvalidCridSignature,
    InvalidUtfSignature,
    ExpectedSignature(String),
    ExpectedMarker(String),
    UnknownColumnType(u8),
}

/// A USM error as a mathematical value.
pub enum UsmErrorView {
    Io(IoError),
    InvalidCridSignature,
    InvalidUtfSignature,
    ExpectedSignature(Seq<char>),
    ExpectedMarker(Seq<char>),
    UnknownColumnType(u8),
}

impl View for UsmError {
    type V = UsmErrorView;

    open spec fn view(&self) -> UsmErrorView {
        match self {
            UsmError::Io(e) => UsmErrorView::Io(*e),
            UsmError::InvalidCridSignature => UsmErrorView::InvalidCridSignature,
            UsmError::InvalidUtfSignature => UsmErrorView::InvalidUtfSignature,
            UsmError::ExpectedSignature(s) => UsmErrorView::ExpectedSignature(s@),
            UsmError::ExpectedMarker(s) => UsmErrorView::ExpectedMarker(s@),
            UsmError::UnknownColumnType(t) => UsmErrorView::UnknownColumnType(*t),
        }
    }
}

/// The text of a USM error.
pub open spec fn usm_error_text(e: UsmError) -> Seq<char> {
    match e {
        UsmError::Io(e) => "IO error: "@ + io_text(e),
        UsmError::InvalidCridSignature => "invalid CRID signature"@,
        UsmError::InvalidUtfSignature => "invalid UTF signature"@,
        UsmError::ExpectedSignature(s) => "expected "@ + s@ + " signature"@,
        UsmError::ExpectedMarker(s) => "expected "@ + s@,
        UsmError::UnknownColumnType(t) => "unknown column type: "@ + decimal_nat(t as nat),
    }
}

impl UsmError {
    /// Human-readable message.
    pub fn message(&self) -> (r: String)
        ensures
            r@ == usm_error_text(*self),
    {
        match self {
            UsmError::Io(e) => e.message(),
            UsmError::InvalidCridSignature => String::from_str("invalid CRID signature"),
            UsmError::InvalidUtfSignature => String::from_str("invalid UTF signature"),
            UsmError::ExpectedSignature(s) => {
                let mut m = String::from_str("expected ");
                m.append(s.as_str());
                m.append(" signature");
                m
            },
            UsmError::ExpectedMarker(s) => {
                let mut m = String::from_str("expected ");
                m.append(s.as_str());
                m
            },
            UsmError::UnknownColumnType(t) => {
                let mut m = String::from_str("unknown column type: ");
                push_decimal_nat(&mut m, *t as u32);
                m
            },
        }
    }
}

/// The end of the data was reached.
pub open spec fn eof() -> UsmErrorView {
    UsmErrorView::Io(IoError::UnexpectedEof)
}

/// A cell of a @UTF table as read from a USM. A float cell holds the
/// IEEE-754 bit pattern of its value; a string cell holds raw bytes.
#[derive(Debug, Clone)]
pub enum UtfValue {
    Byte(u8),
    SByte(i8),
    UShort(u16),
    Short(i16),
    UInt(u32),
    Int(i32),
    ULong(u64),
    Float(u32),
    String(Vec<u8>),
    Data(Vec<u8>),
}

/// A cell as a mathematical value.
pub enum UtfValueView {
    Byte(u8),
    SByte(i8),
    UShort(u16),
    Short(i16),
    UInt(u32),
    Int(i32),
    ULong(u64),
    Float(u32),
    String(Seq<u8>),
    Data(Seq<u8>),
}

impl View for UtfValue {
    type V = UtfValueView;

    open spec fn view(&self) -> UtfValueView {
        match self {
            UtfValue::Byte(x) => UtfValueView::Byte(*x),
            UtfValue::SByte(x) => UtfValueView::SByte(*x),
            UtfValue::UShort(x) => UtfValueView::UShort(*x),
            UtfValue::Short(x) => UtfValueView::Short(*x),
            UtfValue::UInt(x) => UtfValueView::UInt(*x),
            UtfValue::Int(x) => UtfValueView::Int(*x),
            UtfValue::ULong(x) => UtfValueView::ULong(*x),
            UtfValue::Float(x) => UtfValueView::Float(*x),
            UtfValue::String(b) => UtfValueView::String(b@),
            UtfValue::Data(b) => UtfValueView::Data(b@),
        }
    }
}

/// A table row: (field name, value) entries in field order; a later entry
/// for a name overrides an earlier one.
pub type UtfRow = Vec<(String, UtfValue)>;

/// A table: its rows.
pub type UtfTable = Vec<UtfRow>;

/// A row as mathematical values.
pub open spec fn row_view(row: Seq<(String, UtfValue)>) -> Seq<(Seq<char>, UtfValueView)> {
    row.map_values(|e: (String, UtfValue)| (e.0@, e.1@))
}

/// A table as mathematical values.
pub open spec fn table_view(t: Seq<UtfRow>) -> Seq<Seq<(Seq<char>, UtfValueView)>> {
    t.map_values(|r: UtfRow| row_view(r@))
}

/// The value a row holds under `name`: the last entry with it.
pub open spec fn row_get(row: Seq<(Seq<char>, UtfValueView)>, name: Seq<char>) -> Option<
    UtfValueView,
>
    decreases row.len(),
{
    if row.len() == 0 {
        None
    } else if row.last().0 == name {
        Some(row.last().1)
    } else {
        row_get(row.drop_last(), name)
    }
}

// ---------------------------------------------------------------------------
// Reading cells
// ---------------------------------------------------------------------------

/// A signed 64-bit offset taken as an unsigned position.
pub open spec fn wrap64(x: int) -> int {
    if x < 0 {
        x + 0x1_0000_0000_0000_0000
    } else {
        x
    }
}

/// The bytes at `[p, p + n)`, when they are there.
pub open spec fn bytes_at(d: Seq<u8>, p: int, n: int) -> Result<Seq<u8>, UsmErrorView> {
    if n == 0 {
        Ok(Seq::empty())
    } else if p + n <= d.len() {
        Ok(d.subrange(p, p + n))
    } else {
        Err(eof())
    }
}

/// A zero-terminated byte string at `p`, without its terminator.
pub open spec fn cstring_at(d: Seq<u8>, p: int) -> Result<Seq<u8>, UsmErrorView> {
    match cstring_end(d, p) {
        Some(e) => Ok(d.subrange(p, e)),
        None => Err(eof()),
    }
}

/// A blob cell at `p`: its offset in the data pool (which starts at
/// `dof - 24`) and its size; the position moves past the pair.
pub open spec fn data_cell_at(d: Seq<u8>, p: int, dof: int) -> Result<(UtfValueView, int), UsmErrorView> {
    if !can_read(d.len() as int, p, 8) {
        Err(eof())
    } else {
        match bytes_at(d, wrap64(dof + be32(d.skip(p)) - 24), be32(d.skip(p + 4))) {
            Ok(b) => Ok((UtfValueView::Data(b), p + 8)),
            Err(e) => Err(e),
        }
    }
}

/// A string cell at `p`: its offset in the string pool (which starts at
/// `sto - 24`); the position moves past the offset.
pub open spec fn string_cell_at(d: Seq<u8>, p: int, sto: int) -> Result<(UtfValueView, int), UsmErrorView> {
    if !can_read(d.len() as int, p, 4) {
        Err(eof())
    } else {
        match cstring_at(d, wrap64(sto + be32(d.skip(p)) - 24)) {
            Ok(b) => Ok((UtfValueView::String(b), p + 4)),
            Err(e) => Err(e),
        }
    }
}

/// Width of a fixed-size cell type; 0 for other types.
pub open spec fn scalar_width(t: u8) -> int {
    if t == 0x08 || t == 0x05 || t == 0x04 {
        4
    } else if t == 0x06 {
        8
    } else if t == 0x03 || t == 0x02 {
        2
    } else if t == 0x01 || t == 0x00 {
        1
    } else {
        0
    }
}

/// The value of a fixed-size cell of type `t` whose bytes start `b`.
pub open spec fn scalar_value(b: Seq<u8>, t: u8) -> UtfValueView {
    if t == 0x08 {
        UtfValueView::Float(be32(b) as u32)
    } else if t == 0x06 {
        UtfValueView::ULong(be64(b) as u64)
    } else if t == 0x05 {
        UtfValueView::Int(signed32(be32(b)) as i32)
    } else if t == 0x04 {
        UtfValueView::UInt(be32(b) as u32)
    } else if t == 0x03 {
        UtfValueView::Short(signed16(be16(b)) as i16)
    } else if t == 0x02 {
        UtfValueView::UShort(be16(b) as u16)
    } else if t == 0x01 {
        UtfValueView::SByte(signed8(b[0] as int) as i8)
    } else {
        UtfValueView::Byte(b[0])
    }
}

/// The cell of type `t` at `p`, with the position after it. Strings and
/// blobs are stored as offsets into the string and data pools, which start
/// at `sto - 24` and `dof - 24`; other types are stored in place,
/// big-endian.
#[verifier::opaque]
pub open spec fn cell_at(d: Seq<u8>, p: int, t: u8, sto: int, dof: int) -> Result<
    (UtfValueView, int),
    UsmErrorView,
> {
    if t == 0x0B {
        data_cell_at(d, p, dof)
    } else if t == 0x0A {
        string_cell_at(d, p, sto)
    } else if scalar_width(t) > 0 {
        if can_read(d.len() as int, p, scalar_width(t)) {
            Ok((scalar_value(d.skip(p), t), p + scalar_width(t)))
        } else {
            Err(eof())
        }
    } else {
        Err(UsmErrorView::UnknownColumnType(t))
    }
}

/// Map an I/O error into a USM error.
fn io<T>(r: Result<T, IoError>) -> (o: Result<T, UsmError>)
    ensures
        match r {
            Ok(v) => o matches Ok(w) && w == v,
            Err(e) => o matches Err(f) && f@ == UsmErrorView::Io(e),
        },
{
    match r {
        Ok(v) => Ok(v),
        Err(e) => Err(UsmError::Io(e)),
    }
}

/// Read a zero-terminated byte string; the terminator is consumed.
fn read_cstring(reader: &mut Reader) -> (r: Result<Vec<u8>, IoError>)
    ensures
        final(reader).data() == old(reader).data(),
        match cstring_end(old(reader).data(), old(reader).pos()) {
            Some(e) => r matches Ok(v) && v@ == old(reader).data().subrange(old(reader).pos(), e)
                && final(reader).pos() == e + 1,
            None => r == Err::<Vec<u8>, IoError>(IoError::UnexpectedEof),
        },
{
    reader.read_cstring_bytes()
}

/// A signed offset taken as an unsigned 64-bit position, as `as u64` does.
fn to_position(x: i64) -> (r: u64)
    requires
        x > i64::MIN,
    ensures
        r == wrap64(x as int),
{
    if x >= 0 {
        x as u64
    } else {
        u64::MAX - ((-x) as u64) + 1
    }
}

/// Read a blob cell: fetch the blob from the data pool and come back.
fn read_data_cell(reader: &mut Reader, data_offset: i64) -> (r: Result<UtfValue, UsmError>)
    requires
        0 <= data_offset <= u32::MAX,
    ensures
        final(reader).data() == old(reader).data(),
        match data_cell_at(old(reader).data(), old(reader).pos(), data_offset as int) {
            Ok((v, p)) => r matches Ok(w) && w@ == v && final(reader).pos() == p,
            Err(e) => r matches Err(f) && f@ == e,
        },
{
    let ghost d = reader.data();
    let offset = io(reader.read_u32())?;
    let size = io(reader.read_u32())?;
    let current_pos = io(reader.stream_position())?;
    let target: i64 = data_offset + offset as i64 - 24;
    io(reader.seek(SeekFrom::Start(to_position(target))))?;
    let data = io(reader.read_bytes(size as usize))?;
    io(reader.seek(SeekFrom::Start(current_pos)))?;
    proof {
        let t = wrap64(data_offset + offset - 24);
        if size == 0 {
            assert(data@ =~= Seq::<u8>::empty());
        } else {
            assert(data@ =~= d.subrange(t, t + size));
        }
    }
    Ok(UtfValue::Data(data))
}

/// Read a string cell: fetch the string from the string pool and come
/// back.
fn read_string_cell(reader: &mut Reader, string_table_offset: i64) -> (r: Result<UtfValue, UsmError>)
    requires
        0 <= string_table_offset <= u32::MAX,
    ensures
        final(reader).data() == old(reader).data(),
        match string_cell_at(old(reader).data(), old(reader).pos(), string_table_offset as int) {
            Ok((v, p)) => r matches Ok(w) && w@ == v && final(reader).pos() == p,
            Err(e) => r matches Err(f) && f@ == e,
        },
{
    let offset = io(reader.read_u32())?;
    let current_pos = io(reader.stream_position())?;
    let target: i64 = string_table_offset + offset as i64 - 24;
    io(reader.seek(SeekFrom::Start(to_position(target))))?;
    let s = io(read_cstring(reader))?;
    io(reader.seek(SeekFrom::Start(current_pos)))?;
    Ok(UtfValue::String(s))
}

/// Read a fixed-size cell.
fn read_scalar_cell(reader: &mut Reader, column_type: u8) -> (r: Result<UtfValue, UsmError>)
    requires
        scalar_width(column_type) > 0,
    ensures
        final(reader).data() == old(reader).data(),
        if can_read(old(reader).data().len() as int, old(reader).pos(), scalar_width(column_type)) {
            r matches Ok(w) && w@ == scalar_value(old(reader).data().skip(old(reader).pos()), column_type)
                && final(reader).pos() == old(reader).pos() + scalar_width(column_type)
        } else {
            r matches Err(f) && f@ == eof()
        },
{
    if column_type == 0x08 {
        Ok(UtfValue::Float(io(reader.read_u32())?))
    } else if column_type == 0x06 {
        Ok(UtfValue::ULong(io(reader.read_u64())?))
    } else if column_type == 0x05 {
        Ok(UtfValue::Int(io(reader.read_i32())?))
    } else if column_type == 0x04 {
        Ok(UtfValue::UInt(io(reader.read_u32())?))
    } else if column_type == 0x03 {
        Ok(UtfValue::Short(io(reader.read_i16())?))
    } else if column_type == 0x02 {
        Ok(UtfValue::UShort(io(reader.read_u16())?))
    } else if column_type == 0x01 {
        let ghost d = reader.data();
        let ghost p = reader.pos();
        let v = io(reader.read_i8())?;
        proof {
            assert(d.skip(p)[0] == d[p]);
        }
        Ok(UtfValue::SByte(v))
    } else {
        let ghost d = reader.data();
        let ghost p = reader.pos();
        let v = io(reader.read_u8())?;
        proof {
            assert(d.skip(p)[0] == d[p]);
        }
        Ok(UtfValue::Byte(v))
    }
}

/// Read the cell of type `column_type` at the reader's position; strings
/// and blobs are fetched from the pools and the position returns after the
/// reference.
fn read_column_data(reader: &mut Reader, column_type: u8, string_table_offset: i64, data_offset: i64) -> (r: Result<UtfValue, UsmError>)
    requires
        0 <= string_table_offset <= u32::MAX,
        0 <= data_offset <= u32::MAX,
    ensures
        final(reader).data() == old(reader).data(),
        match cell_at(old(reader).data(), old(reader).pos(), column_type, string_table_offset as int, data_offset as int) {
            Ok((v, p)) => r matches Ok(w) && w@ == v && final(reader).pos() == p,
            Err(e) => r matches Err(f) && f@ == e,
        },
{
    reveal(cell_at);
    if column_type == 0x0B {
        read_data_cell(reader, data_offset)
    } else if column_type == 0x0A {
        read_string_cell(reader, string_table_offset)
    } else if column_type == 0x08 || column_type == 0x06 || column_type == 0x05 || column_type == 0x04
        || column_type == 0x03 || column_type == 0x02 || column_type == 0x01 || column_type == 0x00 {
        read_scalar_cell(reader, column_type)
    } else {
        Err(UsmError::UnknownColumnType(column_type))
    }
}

impl UtfValue {
    /// A copy of the value.
    pub fn copy_value(&self) -> (r: UtfValue)
        ensures
            r@ == self@,
    {
        match self {
            UtfValue::Byte(x) => UtfValue::Byte(*x),
            UtfValue::SByte(x) => UtfValue::SByte(*x),
            UtfValue::UShort(x) => UtfValue::UShort(*x),
            UtfValue::Short(x) => UtfValue::Short(*x),
            UtfValue::UInt(x) => UtfValue::UInt(*x),
            UtfValue::Int(x) => UtfValue::Int(*x),
            UtfValue::ULong(x) => UtfValue::ULong(*x),
            UtfValue::Float(x) => UtfValue::Float(*x),
            UtfValue::String(b) => {
                let c = b.clone();
                proof {
                    assert(c@ =~= b@);
                }
                UtfValue::String(c)
            },
            UtfValue::Data(b) => {
                let c = b.clone();
                proof {
                    assert(c@ =~= b@);
                }
                UtfValue::Data(c)
            },
        }
    }
}

// ---------------------------------------------------------------------------
// Tables
// ---------------------------------------------------------------------------

/// A schema field: its name, cell type, and value when it is constant.
pub struct FieldView {
    pub name: Seq<char>,
    pub column_type: u8,
    pub constant: Option<UtfValueView>,
}

/// A field is constant when its storage bits are 0x30 or 0x70.
pub open spec fn is_constant_storage(field_type: u8) -> bool {
    (field_type & 0xF0) == 0x30 || (field_type & 0xF0) == 0x70
}

/// The head of the field at `q`: its type byte, and its name (lossy UTF-8)
/// from the string pool at the name offset that follows.
pub open spec fn field_head_at(td: Seq<u8>, q: int, sto: int) -> Result<(u8, Seq<char>), UsmErrorView> {
    if !can_read(td.len() as int, q, 5) {
        Err(eof())
    } else {
        match cstring_at(td, wrap64(sto + be32(td.skip(q + 1)) - 24)) {
            Err(e) => Err(e),
            Ok(nb) => Ok((td[q], utf8_lossy(nb))),
        }
    }
}

/// The field at `q`: its head, then the value that follows when it is
/// constant.
#[verifier::opaque]
pub open spec fn field_at(td: Seq<u8>, q: int, sto: int, dof: int) -> Result<(FieldView, int), UsmErrorView> {
    match field_head_at(td, q, sto) {
        Err(e) => Err(e),
        Ok((ft, name)) => if is_constant_storage(ft) {
            match cell_at(td, q + 5, ft & 0x0F, sto, dof) {
                Err(e) => Err(e),
                Ok((v, q2)) => Ok((FieldView { name, column_type: ft & 0x0F, constant: Some(v) }, q2)),
            }
        } else {
            Ok((FieldView { name, column_type: ft & 0x0F, constant: None }, q + 5))
        },
    }
}

/// The first `n` fields from `p`, with the position after them.
pub open spec fn fields_at(td: Seq<u8>, p: int, n: int, sto: int, dof: int) -> Result<
    (Seq<FieldView>, int),
    UsmErrorView,
>
    decreases n,
{
    if n <= 0 {
        Ok((Seq::empty(), p))
    } else {
        match fields_at(td, p, n - 1, sto, dof) {
            Err(e) => Err(e),
            Ok((fs, q)) => match field_at(td, q, sto, dof) {
                Err(e) => Err(e),
                Ok((f, q2)) => Ok((fs.push(f), q2)),
            },
        }
    }
}

/// A row from `p` over the first `k` fields: a constant field gives its
/// value, another reads a cell.
pub open spec fn row_at(
    td: Seq<u8>,
    p: int,
    fs: Seq<FieldView>,
    k: int,
    sto: int,
    dof: int,
) -> Result<(Seq<(Seq<char>, UtfValueView)>, int), UsmErrorView>
    decreases k,
{
    if k <= 0 {
        Ok((Seq::empty(), p))
    } else {
        match row_at(td, p, fs, k - 1, sto, dof) {
            Err(e) => Err(e),
            Ok((row, q)) => match fs[k - 1].constant {
                Some(v) => Ok((row.push((fs[k - 1].name, v)), q)),
                None => match cell_at(td, q, fs[k - 1].column_type, sto, dof) {
                    Err(e) => Err(e),
                    Ok((v, q2)) => Ok((row.push((fs[k - 1].name, v)), q2)),
                },
            },
        }
    }
}

/// The first `n` rows from `p`.
pub open spec fn rows_at(
    td: Seq<u8>,
    p: int,
    n: int,
    fs: Seq<FieldView>,
    sto: int,
    dof: int,
) -> Result<(Seq<Seq<(Seq<char>, UtfValueView)>>, int), UsmErrorView>
    decreases n,
{
    if n <= 0 {
        Ok((Seq::empty(), p))
    } else {
        match rows_at(td, p, n - 1, fs, sto, dof) {
            Err(e) => Err(e),
            Ok((rows, q)) => match row_at(td, q, fs, fs.len() as int, sto, dof) {
                Err(e) => Err(e),
                Ok((row, q2)) => Ok((rows.push(row), q2)),
            },
        }
    }
}

/// The bytes of "@UTF".
pub open spec fn utf_magic() -> Seq<u8> {
    seq![0x40u8, 0x55, 0x54, 0x46]
}

/// Length of a table's body: its size less 24, in 32-bit arithmetic.
pub open spec fn body_len(table_size: int) -> int {
    if table_size >= 24 {
        table_size - 24
    } else {
        table_size - 24 + 0x1_0000_0000
    }
}

/// The rows of a table body: the schema of `nf` fields from its start, then
/// `nr` rows from the rows offset less 24.
#[verifier::opaque]
pub open spec fn table_body(td: Seq<u8>, ro: int, nf: int, nr: int, sto: int, dof: int) -> Result<
    Seq<Seq<(Seq<char>, UtfValueView)>>,
    UsmErrorView,
> {
    match fields_at(td, 0, nf, sto, dof) {
        Err(e) => Err(e),
        Ok((fs, _)) => match rows_at(td, wrap64(ro - 24), nr, fs, sto, dof) {
            Err(e) => Err(e),
            Ok((rows, _)) => Ok(rows),
        },
    }
}

/// The @UTF table at `p` and the position after it. After the magic come
/// the table size, version, rows offset, string pool offset, data pool
/// offset, name offset, field count, row size and row count; the body
/// (size less 24 bytes) holds the schema and the rows.
pub open spec fn utf_table_at(d: Seq<u8>, p: int) -> Result<
    (Seq<Seq<(Seq<char>, UtfValueView)>>, int),
    UsmErrorView,
> {
    let len = d.len() as int;
    if !can_read(len, p, 4) {
        Err(eof())
    } else if d.subrange(p, p + 4) != utf_magic() {
        Err(UsmErrorView::InvalidUtfSignature)
    } else if !can_read(len, p, 32) {
        Err(eof())
    } else {
        let tlen = body_len(be32(d.skip(p + 4)));
        match bytes_at(d, p + 32, tlen) {
            Err(e) => Err(e),
            Ok(td) => match table_body(
                td,
                be16(d.skip(p + 10)),
                be16(d.skip(p + 24)),
                be32(d.skip(p + 28)),
                be32(d.skip(p + 12)),
                be32(d.skip(p + 16)),
            ) {
                Err(e) => Err(e),
                Ok(rows) => Ok((rows, p + 32 + tlen)),
            },
        }
    }
}

/// Once reading the first fields fails, reading more fails the same way.
proof fn lemma_fields_err(td: Seq<u8>, p: int, i: int, n: int, sto: int, dof: int)
    requires
        0 <= i <= n,
        fields_at(td, p, i, sto, dof) is Err,
    ensures
        fields_at(td, p, n, sto, dof) == fields_at(td, p, i, sto, dof),
    decreases n - i,
{
    if i < n {
        lemma_fields_err(td, p, i, n - 1, sto, dof);
    }
}

/// Once reading the first cells of a row fails, reading more fails the
/// same way.
proof fn lemma_row_err(td: Seq<u8>, p: int, fs: Seq<FieldView>, i: int, n: int, sto: int, dof: int)
    requires
        0 <= i <= n,
        row_at(td, p, fs, i, sto, dof) is Err,
    ensures
        row_at(td, p, fs, n, sto, dof) == row_at(td, p, fs, i, sto, dof),
    decreases n - i,
{
    if i < n {
        lemma_row_err(td, p, fs, i, n - 1, sto, dof);
    }
}

/// Once reading the first rows fails, reading more fails the same way.
proof fn lemma_rows_err(td: Seq<u8>, p: int, fs: Seq<FieldView>, i: int, n: int, sto: int, dof: int)
    requires
        0 <= i <= n,
        rows_at(td, p, i, fs, sto, dof) is Err,
    ensures
        rows_at(td, p, n, fs, sto, dof) == rows_at(td, p, i, fs, sto, dof),
    decreases n - i,
{
    if i < n {
        lemma_rows_err(td, p, fs, i, n - 1, sto, dof);
    }
}

/// A schema field.
struct FieldInfo {
    name: String,
    column_type: u8,
    constant: Option<UtfValue>,
}

impl View for FieldInfo {
    type V = FieldView;

    closed spec fn view(&self) -> FieldView {
        FieldView {
            name: self.name@,
            column_type: self.column_type,
            constant: match self.constant {
                Some(v) => Some(v@),
                None => None,
            },
        }
    }
}

/// Read the head of a schema field: its type byte and its name.
fn read_field_head(reader: &mut Reader, string_table_offset: i64) -> (r: Result<(u8, String), UsmError>)
    requires
        0 <= string_table_offset <= u32::MAX,
    ensures
        final(reader).data() == old(reader).data(),
        match field_head_at(old(reader).data(), old(reader).pos(), string_table_offset as int) {
            Ok((ft, name)) => r matches Ok((t, n)) && t == ft && n@ == name && final(reader).pos()
                == old(reader).pos() + 5,
            Err(e) => r matches Err(g) && g@ == e,
        },
{
    let ghost d = reader.data();
    let ghost q = reader.pos();
    let field_type = io(reader.read_u8())?;
    let name_offset = io(reader.read_u32())?;
    let current_pos = io(reader.stream_position())?;
    io(reader.seek(SeekFrom::Start(to_position(string_table_offset + name_offset as i64 - 24))))?;
    let name_bytes = io(read_cstring(reader))?;
    let name = lossy_string(name_bytes.as_slice());
    io(reader.seek(SeekFrom::Start(current_pos)))?;
    proof {
        assert(d.skip(q)[0] == d[q]);
        assert(d.skip(q + 1) =~= d.skip(q).skip(1));
    }
    Ok((field_type, name))
}

/// Read one schema field.
fn read_field(reader: &mut Reader, string_table_offset: i64, data_offset: i64) -> (r: Result<FieldInfo, UsmError>)
    requires
        0 <= string_table_offset <= u32::MAX,
        0 <= data_offset <= u32::MAX,
    ensures
        final(reader).data() == old(reader).data(),
        match field_at(old(reader).data(), old(reader).pos(), string_table_offset as int, data_offset as int) {
            Ok((f, q)) => r matches Ok(g) && g@ == f && final(reader).pos() == q,
            Err(e) => r matches Err(g) && g@ == e,
        },
{
    reveal(field_at);
    let (field_type, name) = read_field_head(reader, string_table_offset)?;
    let type_key = field_type & 0x0F;
    if (field_type & 0xF0) == 0x30 || (field_type & 0xF0) == 0x70 {
        let v = read_column_data(reader, type_key, string_table_offset, data_offset)?;
        Ok(FieldInfo { name, column_type: type_key, constant: Some(v) })
    } else {
        Ok(FieldInfo { name, column_type: type_key, constant: None })
    }
}

/// The fields as mathematical values.
spec fn fields_view(fs: Seq<FieldInfo>) -> Seq<FieldView> {
    fs.map_values(|f: FieldInfo| f@)
}

/// Read `n` schema fields.
fn read_fields(reader: &mut Reader, n: u16, sto: i64, dof: i64) -> (r: Result<Vec<FieldInfo>, UsmError>)
    requires
        0 <= sto <= u32::MAX,
        0 <= dof <= u32::MAX,
    ensures
        final(reader).data() == old(reader).data(),
        match fields_at(old(reader).data(), old(reader).pos(), n as int, sto as int, dof as int) {
            Ok((fs, q)) => r matches Ok(v) && fields_view(v@) == fs && final(reader).pos() == q,
            Err(e) => r matches Err(g) && g@ == e,
        },
{
    let ghost d = reader.data();
    let ghost p = reader.pos();
    let mut fields: Vec<FieldInfo> = Vec::new();
    let mut i: u16 = 0;
    proof {
        assert(fields_view(fields@) =~= Seq::<FieldView>::empty());
    }
    while i < n
        invariant
            reader.data() == d,
            old(reader).data() == d,
            old(reader).pos() == p,
            0 <= sto <= u32::MAX,
            0 <= dof <= u32::MAX,
            i <= n,
            fields_at(d, p, i as int, sto as int, dof as int) == Ok::<(Seq<FieldView>, int), UsmErrorView>(
                (fields_view(fields@), reader.pos()),
            ),
        decreases n - i,
    {
        let ghost before = fields@;
        let f = match read_field(reader, sto, dof) {
            Ok(f) => f,
            Err(e) => {
                proof {
                    lemma_fields_err(d, p, i + 1, n as int, sto as int, dof as int);
                }
                return Err(e);
            },
        };
        fields.push(f);
        i = i + 1;
        proof {
            assert(fields_view(fields@) =~= fields_view(before).push(f@));
        }
    }
    Ok(fields)
}

/// Read one row over the fields.
fn read_row(reader: &mut Reader, fields: &Vec<FieldInfo>, sto: i64, dof: i64) -> (r: Result<UtfRow, UsmError>)
    requires
        0 <= sto <= u32::MAX,
        0 <= dof <= u32::MAX,
    ensures
        final(reader).data() == old(reader).data(),
        match row_at(old(reader).data(), old(reader).pos(), fields_view(fields@), fields@.len() as int, sto as int, dof as int) {
            Ok((row, q)) => r matches Ok(v) && row_view(v@) == row && final(reader).pos() == q,
            Err(e) => r matches Err(g) && g@ == e,
        },
{
    let ghost d = reader.data();
    let ghost p = reader.pos();
    let ghost fs = fields_view(fields@);
    let mut row: UtfRow = Vec::new();
    let mut k: usize = 0;
    proof {
        assert(row_view(row@) =~= Seq::<(Seq<char>, UtfValueView)>::empty());
    }
    while k < fields.len()
        invariant
            reader.data() == d,
            old(reader).data() == d,
            old(reader).pos() == p,
            fs == fields_view(fields@),
            0 <= sto <= u32::MAX,
            0 <= dof <= u32::MAX,
            k <= fields@.len(),
            row_at(d, p, fs, k as int, sto as int, dof as int) == Ok::<
                (Seq<(Seq<char>, UtfValueView)>, int),
                UsmErrorView,
            >((row_view(row@), reader.pos())),
        decreases fields@.len() - k,
    {
        let ghost before = row@;
        let field = &fields[k];
        proof {
            assert(fs[k as int] == field@);
        }
        let v = match &field.constant {
            Some(c) => c.copy_value(),
            None => match read_column_data(reader, field.column_type, sto, dof) {
                Ok(v) => v,
                Err(e) => {
                    proof {
                        lemma_row_err(d, p, fs, k + 1, fs.len() as int, sto as int, dof as int);
                    }
                    return Err(e);
                },
            },
        };
        row.push((field.name.clone(), v));
        k = k + 1;
        proof {
            assert(row_view(row@) =~= row_view(before).push((field.name@, v@)));
        }
    }
    Ok(row)
}

/// Read `n` rows over the fields.
fn read_rows(reader: &mut Reader, n: u32, fields: &Vec<FieldInfo>, sto: i64, dof: i64) -> (r: Result<UtfTable, UsmError>)
    requires
        0 <= sto <= u32::MAX,
        0 <= dof <= u32::MAX,
    ensures
        final(reader).data() == old(reader).data(),
        match rows_at(old(reader).data(), old(reader).pos(), n as int, fields_view(fields@), sto as int, dof as int) {
            Ok((rows, q)) => r matches Ok(v) && table_view(v@) == rows && final(reader).pos() == q,
            Err(e) => r matches Err(g) && g@ == e,
        },
{
    let ghost d = reader.data();
    let ghost p = reader.pos();
    let ghost fs = fields_view(fields@);
    let mut rows: UtfTable = Vec::new();
    let mut i: u32 = 0;
    proof {
        assert(table_view(rows@) =~= Seq::<Seq<(Seq<char>, UtfValueView)>>::empty());
    }
    while i < n
        invariant
            reader.data() == d,
            old(reader).data() == d,
            old(reader).pos() == p,
            fs == fields_view(fields@),
            0 <= sto <= u32::MAX,
            0 <= dof <= u32::MAX,
            i <= n,
            rows_at(d, p, i as int, fs, sto as int, dof as int) == Ok::<
                (Seq<Seq<(Seq<char>, UtfValueView)>>, int),
                UsmErrorView,
            >((table_view(rows@), reader.pos())),
        decreases n - i,
    {
        let ghost before = rows@;
        let row = match read_row(reader, fields, sto, dof) {
            Ok(row) => row,
            Err(e) => {
                proof {
                    lemma_rows_err(d, p, fs, i + 1, n as int, sto as int, dof as int);
                }
                return Err(e);
            },
        };
        rows.push(row);
        i = i + 1;
        proof {
            assert(table_view(rows@) =~= table_view(before).push(row_view(row@)));
        }
    }
    Ok(rows)
}

/// Read the schema and rows of a table body.
fn read_table_body(table_data: Vec<u8>, row_offset: u16, nf: u16, nr: u32, sto: u32, dof: u32) -> (r: Result<UtfTable, UsmError>)
    ensures
        match table_body(table_data@, row_offset as int, nf as int, nr as int, sto as int, dof as int) {
            Ok(rows) => r matches Ok(t) && table_view(t@) == rows,
            Err(e) => r matches Err(g) && g@ == e,
        },
{
    reveal(table_body);
    let mut utf_reader = Reader::new(table_data);
    let fields = read_fields(&mut utf_reader, nf, sto as i64, dof as i64)?;
    io(utf_reader.seek(SeekFrom::Start(to_position(row_offset as i64 - 24))))?;
    read_rows(&mut utf_reader, nr, &fields, sto as i64, dof as i64)
}

/// Read the @UTF table at the reader's position.
pub(crate) fn get_utf_table(reader: &mut Reader) -> (r: Result<UtfTable, UsmError>)
    ensures
        final(reader).data() == old(reader).data(),
        match utf_table_at(old(reader).data(), old(reader).pos()) {
            Ok((rows, q)) => r matches Ok(t) && table_view(t@) == rows && final(reader).pos() == q,
            Err(e) => r matches Err(g) && g@ == e,
        },
{
    let ghost d = reader.data();
    let ghost p = reader.pos();
    let sig = io(reader.read_bytes(4))?;
    proof {
        assert(sig@ =~= d.subrange(p, p + 4));
    }
    if !(sig[0] == 0x40 && sig[1] == 0x55 && sig[2] == 0x54 && sig[3] == 0x46) {
        proof {
            assert(d.subrange(p, p + 4) != utf_magic()) by {
                if d.subrange(p, p + 4) == utf_magic() {
                    assert(sig@[0] == 0x40 && sig@[1] == 0x55 && sig@[2] == 0x54 && sig@[3] == 0x46);
                }
            }
        }
        return Err(UsmError::InvalidUtfSignature);
    }
    proof {
        assert(d.subrange(p, p + 4) =~= utf_magic());
    }
    let table_size = io(reader.read_u32())?;
    let _version = io(reader.read_u16())?;
    let row_offset = io(reader.read_u16())?;
    let string_table_offset = io(reader.read_u32())?;
    let data_offset = io(reader.read_u32())?;
    let _table_name_offset = io(reader.read_u32())?;
    let number_of_fields = io(reader.read_u16())?;
    let _row_size = io(reader.read_u16())?;
    let number_of_rows = io(reader.read_u32())?;
    let body: u32 = if table_size >= 24 { table_size - 24 } else { table_size + (u32::MAX - 23) };
    let table_data = io(reader.read_bytes(body as usize))?;
    proof {
        if body == 0 {
            assert(table_data@ =~= Seq::<u8>::empty());
        } else {
            assert(table_data@ =~= d.subrange(p + 32, p + 32 + body));
        }
    }
    read_table_body(table_data, row_offset, number_of_fields, number_of_rows, string_table_offset, data_offset)
}

// ---------------------------------------------------------------------------
// Masks
// ---------------------------------------------------------------------------

/// Sum of two bytes, cut to 8 bits.
#[verifier::opaque]
pub open spec fn add8(a: int, b: int) -> u8 {
    ((a + b) % 256) as u8
}

/// Difference of two bytes, cut to 8 bits.
#[verifier::opaque]
pub open spec fn sub8(a: int, b: int) -> u8 {
    ((a + 256 - b) % 256) as u8
}

fn wadd(a: u8, b: u8) -> (r: u8)
    ensures
        r == add8(a as int, b as int),
{
    reveal(add8);
    ((a as u16 + b as u16) % 256) as u8
}

fn wsub(a: u8, b: u8) -> (r: u8)
    ensures
        r == sub8(a as int, b as int),
{
    reveal(sub8);
    ((a as u16 + 256 - b as u16) % 256) as u8
}

/// The 32-byte table a key derives.
pub open spec fn mask_table(key: u64) -> Seq<u8> {
    let t00 = (key & 0xFF) as u8;
    let t01 = ((key >> 8) & 0xFF) as u8;
    let t02 = ((key >> 16) & 0xFF) as u8;
    let t03 = sub8((((key >> 24) & 0xFF) as u8) as int, 0x34);
    let t04 = add8((((key >> 32) & 0xF) as u8) as int, 0xF9);
    let t05 = ((key >> 40) & 0xFF) as u8 ^ 0x13;
    let t06 = add8((((key >> 48) & 0xFF) as u8) as int, 0x61);
    let t07 = t00 ^ 0xFF;
    let t08 = add8(t02 as int, t01 as int);
    let t09 = sub8(t01 as int, t07 as int);
    let t0a = t02 ^ 0xFF;
    let t0b = t01 ^ 0xFF;
    let t0c = add8(t0b as int, t09 as int);
    let t0d = sub8(t08 as int, t03 as int);
    let t0e = t0d ^ 0xFF;
    let t0f = sub8(t0a as int, t0b as int);
    let t10 = sub8(t08 as int, t0f as int);
    let t11 = t10 ^ t07;
    let t12 = t0f ^ 0xFF;
    let t13 = t03 ^ 0x10;
    let t14 = sub8(t04 as int, 0x32);
    let t15 = add8(t05 as int, 0xED);
    let t16 = t06 ^ 0xF3;
    let t17 = sub8(t13 as int, t0f as int);
    let t18 = add8(t15 as int, t07 as int);
    let t19 = sub8(0x21, t13 as int);
    let t1a = t14 ^ t17;
    let t1b = add8(t16 as int, t16 as int);
    let t1c = add8(t17 as int, 0x44);
    let t1d = add8(t03 as int, t04 as int);
    let t1e = sub8(t05 as int, t16 as int);
    let t1f = t1d ^ t13;
    seq![
        t00, t01, t02, t03, t04, t05, t06, t07, t08, t09, t0a, t0b, t0c, t0d, t0e, t0f,
        t10, t11, t12, t13, t14, t15, t16, t17, t18, t19, t1a, t1b, t1c, t1d, t1e, t1f,
    ]
}

/// The audio mask: the table's bytes inverted at even places, "URUC" in
/// turn at odd places.
pub open spec fn audio_mask(key: u64) -> Seq<u8> {
    let uruc = seq![0x55u8, 0x52, 0x55, 0x43];
    Seq::new(32, |i: int| if i % 2 == 1 { uruc[(i / 2) % 4] } else { mask_table(key)[i] ^ 0xFF })
}

/// The table bytes inverted.
pub open spec fn inverted(t: Seq<u8>) -> Seq<u8> {
    Seq::new(t.len(), |i: int| t[i] ^ 0xFF)
}

/// The table a key derives.
#[verifier::rlimit(100)]
fn key_table(key: u64) -> (t: Vec<u8>)
    ensures
        t@ == mask_table(key),
{
    let t00 = (key & 0xFF) as u8;
    let t01 = ((key >> 8) & 0xFF) as u8;
    let t02 = ((key >> 16) & 0xFF) as u8;
    let t03 = wsub(((key >> 24) & 0xFF) as u8, 0x34);
    let t04 = wadd(((key >> 32) & 0xF) as u8, 0xF9);
    let t05 = ((key >> 40) & 0xFF) as u8 ^ 0x13;
    let t06 = wadd(((key >> 48) & 0xFF) as u8, 0x61);
    let t07 = t00 ^ 0xFF;
    let t08 = wadd(t02, t01);
    let t09 = wsub(t01, t07);
    let t0a = t02 ^ 0xFF;
    let t0b = t01 ^ 0xFF;
    let t0c = wadd(t0b, t09);
    let t0d = wsub(t08, t03);
    let t0e = t0d ^ 0xFF;
    let t0f = wsub(t0a, t0b);
    let t10 = wsub(t08, t0f);
    let t11 = t10 ^ t07;
    let t12 = t0f ^ 0xFF;
    let t13 = t03 ^ 0x10;
    let t14 = wsub(t04, 0x32);
    let t15 = wadd(t05, 0xED);
    let t16 = t06 ^ 0xF3;
    let t17 = wsub(t13, t0f);
    let t18 = wadd(t15, t07);
    let t19 = wsub(0x21, t13);
    let t1a = t14 ^ t17;
    let t1b = wadd(t16, t16);
    let t1c = wadd(t17, 0x44);
    let t1d = wadd(t03, t04);
    let t1e = wsub(t05, t16);
    let t1f = t1d ^ t13;
    let mut t: Vec<u8> = Vec::new();
    t.push(t00);
    t.push(t01);
    t.push(t02);
    t.push(t03);
    t.push(t04);
    t.push(t05);
    t.push(t06);
    t.push(t07);
    t.push(t08);
    t.push(t09);
    t.push(t0a);
    t.push(t0b);
    t.push(t0c);
    t.push(t0d);
    t.push(t0e);
    t.push(t0f);
    t.push(t10);
    t.push(t11);
    t.push(t12);
    t.push(t13);
    t.push(t14);
    t.push(t15);
    t.push(t16);
    t.push(t17);
    t.push(t18);
    t.push(t19);
    t.push(t1a);
    t.push(t1b);
    t.push(t1c);
    t.push(t1d);
    t.push(t1e);
    t.push(t1f);
    proof {
        assert(t@ =~= mask_table(key));
    }
    t
}

/// Derive the video masks (the table and its inverse) and the audio mask
/// from a key.
fn get_mask(key: u64) -> (r: (Vec<Vec<u8>>, Vec<u8>))
    ensures
        r.0@.len() == 2,
        r.0@[0]@ == mask_table(key),
        r.0@[1]@ == inverted(mask_table(key)),
        r.1@ == audio_mask(key),
{
    let t = key_table(key);
    let uruc: [u8; 4] = [0x55, 0x52, 0x55, 0x43];
    let mut vmask1: Vec<u8> = Vec::new();
    let mut vmask2: Vec<u8> = Vec::new();
    let mut amask: Vec<u8> = Vec::new();
    let mut i: usize = 0;
    while i < 0x20
        invariant
            i <= 0x20,
            t@ == mask_table(key),
            t@.len() == 0x20,
            uruc@ == seq![0x55u8, 0x52, 0x55, 0x43],
            vmask1@ == t@.take(i as int),
            vmask2@ == inverted(t@).take(i as int),
            amask@ == audio_mask(key).take(i as int),
        decreases 0x20 - i,
    {
        let ti = t[i];
        vmask1.push(ti);
        vmask2.push(ti ^ 0xFF);
        if i % 2 != 0 {
            amask.push(uruc[(i / 2) % 4]);
        } else {
            amask.push(ti ^ 0xFF);
        }
        i = i + 1;
        proof {
            assert(vmask1@ =~= t@.take(i as int));
            assert(vmask2@ =~= inverted(t@).take(i as int));
            assert(amask@ =~= audio_mask(key).take(i as int));
        }
    }
    proof {
        assert(vmask1@ =~= mask_table(key));
        assert(vmask2@ =~= inverted(mask_table(key)));
        assert(amask@ =~= audio_mask(key));
    }
    let mut v: Vec<Vec<u8>> = Vec::new();
    v.push(vmask1);
    v.push(vmask2);
    (v, amask)
}

/// Audio data unmasked: every byte past the first 0x140 is XORed with the
/// mask, which repeats every 32 bytes.
pub open spec fn masked_audio(c: Seq<u8>, amask: Seq<u8>) -> Seq<u8> {
    Seq::new(c.len(), |p: int| if p >= 0x140 { c[p] ^ amask[(p - 0x140) % 32] } else { c[p] })
}

/// Unmask audio data.
fn mask_audio(content: &[u8], amask: &[u8]) -> (r: Vec<u8>)
    requires
        amask@.len() >= 32,
    ensures
        r@ == masked_audio(content@, amask@),
{
    let mut result: Vec<u8> = Vec::new();
    let mut p: usize = 0;
    while p < content.len()
        invariant
            p <= content@.len(),
            amask@.len() >= 32,
            result@ == masked_audio(content@, amask@).take(p as int),
        decreases content@.len() - p,
    {
        if p >= 0x140 {
            result.push(content[p] ^ amask[(p - 0x140) % 32]);
        } else {
            result.push(content[p]);
        }
        p = p + 1;
        proof {
            assert(result@ =~= masked_audio(content@, amask@).take(p as int));
        }
    }
    proof {
        assert(result@ =~= masked_audio(content@, amask@));
    }
    result
}

/// Unmasking audio twice with the same mask gives the data back.
pub proof fn law_mask_audio_involution(c: Seq<u8>, amask: Seq<u8>)
    requires
        amask.len() >= 32,
    ensures
        masked_audio(masked_audio(c, amask), amask) == c,
{
    assert forall|p: int| 0 <= p < c.len() implies #[trigger] masked_audio(masked_audio(c, amask), amask)[p] == c[p] by {
        if p >= 0x140 {
            let x = c[p];
            let m = amask[(p - 0x140) % 32];
            assert((x ^ m) ^ m == x) by (bit_vector);
        }
    }
    assert(masked_audio(masked_audio(c, amask), amask) =~= c);
}

/// The second-pass video mask before body byte `i` (from 0x100): it starts
/// as the inverted table; after each byte, the entry it used becomes the
/// unmasked byte XOR the inverted table's entry.
pub open spec fn video_mask2(c: Seq<u8>, v1: Seq<u8>, i: int) -> Seq<u8>
    decreases i,
{
    if i <= 0x100 {
        v1
    } else {
        let m = video_mask2(c, v1, i - 1);
        let j = (i - 1) % 32;
        m.update(j, (c[0x40 + i - 1] ^ m[j]) ^ v1[j])
    }
}

/// Body byte `i` (from 0x100) unmasked.
pub open spec fn video_tail(c: Seq<u8>, v1: Seq<u8>, i: int) -> u8 {
    c[0x40 + i] ^ video_mask2(c, v1, i)[i % 32]
}

/// The first-pass video mask before body byte `i` (below 0x100): it starts
/// as the table; before each byte, the entry it uses is XORed with the
/// unmasked byte 0x100 places further.
pub open spec fn video_mask1(c: Seq<u8>, v0: Seq<u8>, v1: Seq<u8>, i: int) -> Seq<u8>
    decreases i,
{
    if i <= 0 {
        v0
    } else {
        let m = video_mask1(c, v0, v1, i - 1);
        let j = (i - 1) % 32;
        m.update(j, m[j] ^ video_tail(c, v1, 0x100 + i - 1))
    }
}

/// Video data unmasked. The body starts at 0x40; when it holds at least
/// 0x200 bytes, its bytes from 0x100 on are unmasked first, each mask entry
/// chained to the byte it last unmasked, then its first 0x100 bytes with a
/// mask fed by the bytes 0x100 further on. Shorter data is left as it is.
pub open spec fn masked_video(c: Seq<u8>, v0: Seq<u8>, v1: Seq<u8>) -> Seq<u8> {
    if c.len() < 0x240 {
        c
    } else {
        Seq::new(
            c.len(),
            |p: int|
                if p < 0x40 {
                    c[p]
                } else if p < 0x140 {
                    c[p] ^ video_mask1(c, v0, v1, p - 0x40 + 1)[(p - 0x40) % 32]
                } else {
                    video_tail(c, v1, p - 0x40)
                },
        )
    }
}

/// Unmask video data with the table and its inverse.
fn mask_video(content: &[u8], vmask: &Vec<Vec<u8>>) -> (r: Vec<u8>)
    requires
        vmask@.len() >= 2,
        vmask@[0]@.len() == vmask@[1]@.len(),
        vmask@[1]@.len() >= 32,
    ensures
        r@ == masked_video(content@, vmask@[0]@, vmask@[1]@),
{
    let ghost c = content@;
    let ghost v0 = vmask@[0]@;
    let ghost v1 = vmask@[1]@;
    let len = content.len();
    let mut result: Vec<u8> = Vec::new();
    result.extend_from_slice(content);
    proof {
        assert(result@ =~= c);
    }
    if len < 0x240 {
        return result;
    }
    let size = len - 0x40;
    let base: usize = 0x40;
    let mut mask = vmask[1].clone();
    proof {
        assert(mask@ =~= v1);
    }
    let mut i: usize = 0x100;
    while i < size
        invariant
            c == content@,
            len == c.len(),
            size == len - 0x40,
            base == 0x40,
            vmask@.len() >= 2,
            v1 == vmask@[1]@,
            v1.len() >= 32,
            0x100 <= i <= size,
            result@.len() == len,
            mask@.len() == v1.len(),
            mask@ == video_mask2(c, v1, i as int),
            forall|p: int|
                0 <= p < len ==> #[trigger] result@[p] == if 0x140 <= p < 0x40 + i {
                    video_tail(c, v1, p - 0x40)
                } else {
                    c[p]
                },
        decreases size - i,
    {
        let j = i % 32;
        let b = result[base + i] ^ mask[j];
        result.set(base + i, b);
        let nm = b ^ vmask[1][j];
        mask.set(j, nm);
        proof {
            assert(video_mask2(c, v1, i + 1) == video_mask2(c, v1, i as int).update(j as int, nm));
            assert(mask@ =~= video_mask2(c, v1, i + 1));
        }
        i = i + 1;
    }
    let mut mask = vmask[0].clone();
    proof {
        assert(mask@ =~= v0);
    }
    let mut i: usize = 0;
    while i < 0x100
        invariant
            c == content@,
            len == c.len(),
            len >= 0x240,
            base == 0x40,
            vmask@.len() >= 2,
            v0 == vmask@[0]@,
            v1 == vmask@[1]@,
            v0.len() == v1.len(),
            v1.len() >= 32,
            i <= 0x100,
            result@.len() == len,
            mask@.len() == v0.len(),
            mask@ == video_mask1(c, v0, v1, i as int),
            forall|p: int|
                0 <= p < len ==> #[trigger] result@[p] == if p < 0x40 {
                    c[p]
                } else if p < 0x40 + i {
                    c[p] ^ video_mask1(c, v0, v1, p - 0x40 + 1)[(p - 0x40) % 32]
                } else if p < 0x140 {
                    c[p]
                } else {
                    video_tail(c, v1, p - 0x40)
                },
        decreases 0x100 - i,
    {
        let j = i % 32;
        let m = mask[j] ^ result[0x100 + base + i];
        mask.set(j, m);
        proof {
            assert(result@[0x140 + i] == video_tail(c, v1, 0x100 + i));
            assert(video_mask1(c, v0, v1, i + 1) == video_mask1(c, v0, v1, i as int).update(j as int, m));
            assert(mask@ =~= video_mask1(c, v0, v1, i + 1));
        }
        let b = result[base + i] ^ m;
        result.set(base + i, b);
        i = i + 1;
    }
    proof {
        assert(result@ =~= masked_video(c, v0, v1));
    }
    result
}

// ---------------------------------------------------------------------------
// Names
// ---------------------------------------------------------------------------

/// Name for the text `encoding_rs` decodes from Shift-JIS bytes.
pub uninterp spec fn shift_jis_text(b: Seq<u8>) -> Seq<char>;

/// `encoding_rs::SHIFT_JIS.decode`, keeping the text. The result is a
/// function of the bytes, named `shift_jis_text` (a leading byte order mark
/// switches the decoder, malformed sequences become U+FFFD); the source
/// hands ASCII bytes back as they are, which the second clause states.
#[verifier::external_body]
pub(crate) fn decode_shift_jis(data: &[u8]) -> (r: String)
    ensures
        r@ == shift_jis_text(data@),
        all_ascii(data@) ==> r@ == ascii_text(data@),
{
    let (decoded, _, _) = encoding_rs::SHIFT_JIS.decode(data);
    decoded.into_owned()
}

/// The name under which the entry table records the file name.
pub open spec fn filename_key() -> Seq<char> {
    seq!['f', 'i', 'l', 'e', 'n', 'a', 'm', 'e']
}

/// The file name the entry table records in its last row (a string or a
/// blob under "filename"), or the fallback.
pub open spec fn filename_of(t: Seq<Seq<(Seq<char>, UtfValueView)>>, fallback: Seq<u8>) -> Seq<u8> {
    if t.len() > 0 {
        match row_get(t.last(), filename_key()) {
            Some(UtfValueView::String(f)) => f,
            Some(UtfValueView::Data(f)) => f,
            _ => fallback,
        }
    } else {
        fallback
    }
}

/// Index of the entry a row holds under `name`: the last one with it.
pub(crate) fn row_find(row: &UtfRow, name: &String) -> (r: Option<usize>)
    ensures
        match r {
            Some(i) => i < row@.len() && row_get(row_view(row@), name@) == Some(row@[i as int].1@),
            None => row_get(row_view(row@), name@) is None,
        },
{
    let ghost rv = row_view(row@);
    let mut i: usize = row.len();
    assert(rv.take(i as int) =~= rv);
    while i > 0
        invariant
            i <= row@.len(),
            rv == row_view(row@),
            row_get(rv, name@) == row_get(rv.take(i as int), name@),
        decreases i,
    {
        proof {
            assert(rv.take(i as int).drop_last() =~= rv.take(i - 1));
            assert(rv[i - 1] == (row@[i - 1].0@, row@[i - 1].1@));
        }
        if row[i - 1].0 == *name {
            return Some(i - 1);
        }
        i = i - 1;
    }
    None
}

/// The file name of the entry table, or the fallback.
fn extract_filename(entry_table: &UtfTable, fallback_name: &[u8]) -> (r: Vec<u8>)
    ensures
        r@ == filename_of(table_view(entry_table@), fallback_name@),
{
    let ghost t = table_view(entry_table@);
    let fallback = slice_to_vec(fallback_name);
    if entry_table.len() == 0 {
        return fallback;
    }
    let row = &entry_table[entry_table.len() - 1];
    let key: String = "filename".to_owned();
    proof {
        reveal_strlit("filename");
        assert(key@ =~= filename_key());
        assert(t.last() == row_view(row@));
    }
    match row_find(row, &key) {
        Some(i) => match &row[i].1 {
            UtfValue::String(f) => {
                let c = f.clone();
                proof {
                    assert(c@ =~= f@);
                }
                c
            },
            UtfValue::Data(f) => {
                let c = f.clone();
                proof {
                    assert(c@ =~= f@);
                }
                c
            },
            _ => fallback,
        },
        None => fallback,
    }
}

// ---------------------------------------------------------------------------
// Header and metadata
// ---------------------------------------------------------------------------

/// "CRID"
pub open spec fn crid_sig() -> Seq<u8> {
    seq![0x43u8, 0x52, 0x49, 0x44]
}

/// "@SFV"
pub open spec fn sfv_sig() -> Seq<u8> {
    seq![0x40u8, 0x53, 0x46, 0x56]
}

/// "@SFA"
pub open spec fn sfa_sig() -> Seq<u8> {
    seq![0x40u8, 0x53, 0x46, 0x41]
}

/// "#HEADER END"
pub open spec fn header_end_marker() -> Seq<u8> {
    seq![0x23u8, 0x48, 0x45, 0x41, 0x44, 0x45, 0x52, 0x20, 0x45, 0x4E, 0x44]
}

/// "#METADATA END"
pub open spec fn metadata_end_marker() -> Seq<u8> {
    seq![0x23u8, 0x4D, 0x45, 0x54, 0x41, 0x44, 0x41, 0x54, 0x41, 0x20, 0x45, 0x4E, 0x44]
}

/// "#CONTENTS END"
pub open spec fn contents_end_marker() -> Seq<u8> {
    seq![0x23u8, 0x43, 0x4F, 0x4E, 0x54, 0x45, 0x4E, 0x54, 0x53, 0x20, 0x45, 0x4E, 0x44]
}

/// The four bytes at `o` are `sig`; a mismatch names the expected one.
pub open spec fn check_sig_at(d: Seq<u8>, o: int, sig: Seq<u8>, name: Seq<char>) -> Result<(), UsmErrorView> {
    if !can_read(d.len() as int, o, 4) {
        Err(eof())
    } else if d.subrange(o, o + 4) != sig {
        Err(UsmErrorView::ExpectedSignature(name))
    } else {
        Ok(())
    }
}

/// A block at `o` holding a table at `o + 0x20`: the offset of the next
/// block (after the 8-byte head and the block size).
pub open spec fn table_block_at(d: Seq<u8>, o: int) -> Result<int, UsmErrorView> {
    if !can_read(d.len() as int, o + 4, 4) {
        Err(eof())
    } else {
        match utf_table_at(d, o + 0x20) {
            Err(e) => Err(e),
            Ok(_) => Ok(o + 8 + be32(d.skip(o + 4))),
        }
    }
}

/// A block at `o` holding "#HEADER END" at `o + 0x20`: the offset of the
/// next block.
pub open spec fn header_end_block_at(d: Seq<u8>, o: int) -> Result<int, UsmErrorView> {
    if !can_read(d.len() as int, o + 4, 4) {
        Err(eof())
    } else {
        match bytes_at(d, o + 0x20, 11) {
            Err(e) => Err(e),
            Ok(m) => if m != header_end_marker() {
                Err(UsmErrorView::ExpectedMarker("#HEADER END"@))
            } else {
                Ok(o + 8 + be32(d.skip(o + 4)))
            },
        }
    }
}

/// The end of the header blocks, after the block whose signature `sig` was
/// read at `o`: a video block marking the header's end, then an audio one
/// when there is audio.
pub open spec fn header_end_at(d: Seq<u8>, o: int, sig: Seq<u8>, has_audio: bool) -> Result<(bool, int), UsmErrorView> {
    if sig != sfv_sig() {
        Err(UsmErrorView::ExpectedSignature("@SFV"@))
    } else {
        match header_end_block_at(d, o) {
            Err(e) => Err(e),
            Ok(o1) => if has_audio {
                match check_sig_at(d, o1, sfa_sig(), "@SFA"@) {
                    Err(e) => Err(e),
                    Ok(_) => match header_end_block_at(d, o1) {
                        Err(e) => Err(e),
                        Ok(o2) => Ok((true, o2)),
                    },
                }
            } else {
                Ok((false, o1))
            },
        }
    }
}

/// The header blocks from `o`: a video block with a table, an audio block
/// with a table when there is audio, then the blocks marking the header's
/// end. Gives whether there is audio and where the header ends.
pub open spec fn header_chunks_at(d: Seq<u8>, o: int) -> Result<(bool, int), UsmErrorView> {
    match check_sig_at(d, o, sfv_sig(), "@SFV"@) {
        Err(e) => Err(e),
        Ok(_) => match table_block_at(d, o) {
            Err(e) => Err(e),
            Ok(o1) => match bytes_at(d, o1, 4) {
                Err(e) => Err(e),
                Ok(sig1) => if sig1 == sfa_sig() {
                    match table_block_at(d, o1) {
                        Err(e) => Err(e),
                        Ok(o2) => match bytes_at(d, o2, 4) {
                            Err(e) => Err(e),
                            Ok(sig2) => header_end_at(d, o2, sig2, true),
                        },
                    }
                } else {
                    header_end_at(d, o1, sig1, false)
                },
            },
        },
    }
}

/// `x` rounded up to a multiple of four.
pub open spec fn align4(x: int) -> int {
    if x % 4 == 0 {
        x
    } else {
        x + 4 - x % 4
    }
}

/// The metadata section from `o`: a video block with a table, then a video
/// block marking its end; gives where the contents start (the marker's
/// end rounded up to four bytes, then 16 more).
pub open spec fn metadata_end_at(d: Seq<u8>, o: int) -> Result<int, UsmErrorView> {
    match check_sig_at(d, o, sfv_sig(), "@SFV"@) {
        Err(e) => Err(e),
        Ok(_) => match table_block_at(d, o) {
            Err(e) => Err(e),
            Ok(o1) => match check_sig_at(d, o1, sfv_sig(), "@SFV"@) {
                Err(e) => Err(e),
                Ok(_) => match bytes_at(d, o1 + 32, 13) {
                    Err(e) => Err(e),
                    Ok(m) => if m != metadata_end_marker() {
                        Err(UsmErrorView::ExpectedMarker("#METADATA END"@))
                    } else {
                        Ok(align4(o1 + 45) + 16)
                    },
                },
            },
        },
    }
}

/// The USM header: "CRID" and its block size, the entry table at 0x20 (its
/// last row names the file), then the header blocks and the metadata
/// section. Gives the file name, whether there is audio, and where the
/// contents start.
pub open spec fn usm_header_at(d: Seq<u8>, fallback: Seq<u8>) -> Result<(Seq<u8>, bool, int), UsmErrorView> {
    match bytes_at(d, 0, 4) {
        Err(e) => Err(e),
        Ok(sig) => if sig != crid_sig() {
            Err(UsmErrorView::InvalidCridSignature)
        } else if !can_read(d.len() as int, 4, 4) {
            Err(eof())
        } else {
            match utf_table_at(d, 0x20) {
                Err(e) => Err(e),
                Ok((t, _)) => match header_chunks_at(d, 8 + be32(d.skip(4))) {
                    Err(e) => Err(e),
                    Ok((has_audio, o)) => match metadata_end_at(d, o) {
                        Err(e) => Err(e),
                        Ok(pos) => Ok((filename_of(t, fallback), has_audio, pos)),
                    },
                },
            }
        },
    }
}

/// Byte slices equal.
fn same_bytes(a: &[u8], b: &[u8]) -> (r: bool)
    ensures
        r == (a@ == b@),
{
    if a.len() != b.len() {
        return false;
    }
    let mut i: usize = 0;
    while i < a.len()
        invariant
            a@.len() == b@.len(),
            i <= a@.len(),
            forall|j: int| 0 <= j < i ==> a@[j] == b@[j],
        decreases a@.len() - i,
    {
        if a[i] != b[i] {
            return false;
        }
        i = i + 1;
    }
    proof {
        assert(a@ =~= b@);
    }
    true
}

/// Seek to `offset` and check the signature there.
fn seek_and_check_signature(reader: &mut Reader, offset: i64, sig: &[u8], expected: &str) -> (r: Result<(), UsmError>)
    requires
        offset >= 0,
    ensures
        final(reader).data() == old(reader).data(),
        match check_sig_at(old(reader).data(), offset as int, sig@, expected@) {
            Ok(_) => r is Ok && final(reader).pos() == offset + 4,
            Err(e) => r matches Err(g) && g@ == e,
        },
{
    let ghost d = reader.data();
    io(reader.seek(SeekFrom::Start(offset as u64)))?;
    let s = io(reader.read_bytes(4))?;
    proof {
        assert(s@ =~= d.subrange(offset as int, offset + 4));
    }
    if !same_bytes(s.as_slice(), sig) {
        return Err(UsmError::ExpectedSignature(expected.to_owned()));
    }
    Ok(())
}

/// After a block's signature: read its size and the table at
/// `offset + 0x20`; gives the next block's offset.
fn read_table_block(reader: &mut Reader, offset: i64) -> (r: Result<i64, UsmError>)
    requires
        0 <= offset <= 0x4000_0000_0000,
        old(reader).pos() == offset + 4,
    ensures
        final(reader).data() == old(reader).data(),
        match table_block_at(old(reader).data(), offset as int) {
            Ok(o1) => r matches Ok(v) && v == o1 && o1 < offset + 0x2_0000_0000,
            Err(e) => r matches Err(g) && g@ == e,
        },
{
    let block_size = io(reader.read_u32())?;
    io(reader.seek(SeekFrom::Start((offset + 0x20) as u64)))?;
    let _ = get_utf_table(reader)?;
    Ok(offset + 8 + block_size as i64)
}

/// After a block's signature: read its size and the "#HEADER END" marker
/// at `offset + 0x20`; gives the next block's offset.
fn read_header_end_block(reader: &mut Reader, offset: i64) -> (r: Result<i64, UsmError>)
    requires
        0 <= offset <= 0x4000_0000_0000,
        old(reader).pos() == offset + 4,
    ensures
        final(reader).data() == old(reader).data(),
        match header_end_block_at(old(reader).data(), offset as int) {
            Ok(o1) => r matches Ok(v) && v == o1 && o1 < offset + 0x2_0000_0000,
            Err(e) => r matches Err(g) && g@ == e,
        },
{
    let ghost d = reader.data();
    let block_size = io(reader.read_u32())?;
    io(reader.seek(SeekFrom::Start((offset + 0x20) as u64)))?;
    let marker = io(reader.read_bytes(11))?;
    let expected: [u8; 11] = [0x23, 0x48, 0x45, 0x41, 0x44, 0x45, 0x52, 0x20, 0x45, 0x4E, 0x44];
    proof {
        assert(expected@ =~= header_end_marker());
        assert(marker@ =~= d.subrange(offset + 0x20, offset + 0x20 + 11));
    }
    if !same_bytes(marker.as_slice(), &expected) {
        return Err(UsmError::ExpectedMarker("#HEADER END".to_owned()));
    }
    Ok(offset + 8 + block_size as i64)
}

/// The end of the header blocks, after the block whose signature `sig`
/// was read at `offset`.
fn read_header_end(reader: &mut Reader, offset: i64, sig: &Vec<u8>, has_audio: bool) -> (r: Result<(bool, i64), UsmError>)
    requires
        0 <= offset <= 0x2000_0000_0000,
        old(reader).pos() == offset + 4,
    ensures
        final(reader).data() == old(reader).data(),
        match header_end_at(old(reader).data(), offset as int, sig@, has_audio) {
            Ok((a, o)) => r matches Ok((b, v)) && b == a && v == o && o < offset + 0x4_0000_0000,
            Err(e) => r matches Err(g) && g@ == e,
        },
{
    let sfv: [u8; 4] = [0x40, 0x53, 0x46, 0x56];
    let sfa: [u8; 4] = [0x40, 0x53, 0x46, 0x41];
    proof {
        assert(sfv@ =~= sfv_sig());
        assert(sfa@ =~= sfa_sig());
    }
    if !same_bytes(sig.as_slice(), &sfv) {
        return Err(UsmError::ExpectedSignature("@SFV".to_owned()));
    }
    let o1 = read_header_end_block(reader, offset)?;
    if has_audio {
        seek_and_check_signature(reader, o1, &sfa, "@SFA")?;
        let o2 = read_header_end_block(reader, o1)?;
        Ok((true, o2))
    } else {
        Ok((false, o1))
    }
}

/// Read the header blocks from `offset`; gives whether there is audio and
/// where the header ends.
fn parse_usm_header_chunks(reader: &mut Reader, offset: i64) -> (r: Result<(bool, i64), UsmError>)
    requires
        0 <= offset <= 0x1000_0000_0000,
    ensures
        final(reader).data() == old(reader).data(),
        match header_chunks_at(old(reader).data(), offset as int) {
            Ok((a, o)) => r matches Ok((b, v)) && b == a && v == o && o < offset + 0x10_0000_0000,
            Err(e) => r matches Err(g) && g@ == e,
        },
{
    let ghost d = reader.data();
    let sfv: [u8; 4] = [0x40, 0x53, 0x46, 0x56];
    let sfa: [u8; 4] = [0x40, 0x53, 0x46, 0x41];
    proof {
        assert(sfv@ =~= sfv_sig());
        assert(sfa@ =~= sfa_sig());
    }
    seek_and_check_signature(reader, offset, &sfv, "@SFV")?;
    let o1 = read_table_block(reader, offset)?;
    io(reader.seek(SeekFrom::Start(o1 as u64)))?;
    let next_sig = io(reader.read_bytes(4))?;
    proof {
        assert(next_sig@ =~= d.subrange(o1 as int, o1 + 4));
    }
    if same_bytes(next_sig.as_slice(), &sfa) {
        let o2 = read_table_block(reader, o1)?;
        io(reader.seek(SeekFrom::Start(o2 as u64)))?;
        let sig2 = io(reader.read_bytes(4))?;
        proof {
            assert(sig2@ =~= d.subrange(o2 as int, o2 + 4));
        }
        read_header_end(reader, o2, &sig2, true)
    } else {
        read_header_end(reader, o1, &next_sig, false)
    }
}

/// Move the position up to a multiple of `alignment`; gives the new
/// position.
fn align_stream(reader: &mut Reader, alignment: u64) -> (r: Result<u64, IoError>)
    requires
        1 <= alignment <= i64::MAX,
    ensures
        final(reader).data() == old(reader).data(),
        old(reader).pos() % alignment as int == 0 ==> r == Ok::<u64, IoError>(old(reader).pos() as u64)
            && final(reader).pos() == old(reader).pos(),
        old(reader).pos() % alignment as int != 0 && old(reader).pos() + alignment - old(reader).pos()
            % alignment as int <= u64::MAX ==> {
            let p = old(reader).pos() + alignment - old(reader).pos() % alignment as int;
            r == Ok::<u64, IoError>(p as u64) && final(reader).pos() == p
        },
{
    let pos = reader.stream_position()?;
    let remainder = pos % alignment;
    if remainder != 0 {
        reader.seek(SeekFrom::Current((alignment - remainder) as i64))
    } else {
        Ok(pos)
    }
}

/// Read the metadata section from `offset`; the position ends where the
/// contents start.
fn skip_metadata_section(reader: &mut Reader, offset: i64) -> (r: Result<(), UsmError>)
    requires
        0 <= offset <= 0x2000_0000_0000,
    ensures
        final(reader).data() == old(reader).data(),
        match metadata_end_at(old(reader).data(), offset as int) {
            Ok(p) => r is Ok && final(reader).pos() == p,
            Err(e) => r matches Err(g) && g@ == e,
        },
{
    let ghost d = reader.data();
    let sfv: [u8; 4] = [0x40, 0x53, 0x46, 0x56];
    let expected: [u8; 13] = [0x23, 0x4D, 0x45, 0x54, 0x41, 0x44, 0x41, 0x54, 0x41, 0x20, 0x45, 0x4E, 0x44];
    proof {
        assert(sfv@ =~= sfv_sig());
        assert(expected@ =~= metadata_end_marker());
    }
    seek_and_check_signature(reader, offset, &sfv, "@SFV")?;
    let o1 = read_table_block(reader, offset)?;
    seek_and_check_signature(reader, o1, &sfv, "@SFV")?;
    io(reader.seek(SeekFrom::Current(28)))?;
    let marker = io(reader.read_bytes(13))?;
    proof {
        assert(marker@ =~= d.subrange(o1 + 32, o1 + 45));
    }
    if !same_bytes(marker.as_slice(), &expected) {
        return Err(UsmError::ExpectedMarker("#METADATA END".to_owned()));
    }
    io(align_stream(reader, 4))?;
    io(reader.seek(SeekFrom::Current(16)))?;
    Ok(())
}

/// Read a USM's header from its start: the stored file name, decoded from
/// Shift-JIS, and whether the stream has audio; the reader is left where the
/// chunk stream starts.
pub fn read_usm_header(reader: &mut Reader, fallback_name: &[u8]) -> (r: Result<(String, bool), UsmError>)
    requires
        old(reader).pos() == 0,
    ensures
        final(reader).data() == old(reader).data(),
        match usm_header_at(old(reader).data(), fallback_name@) {
            Ok((f, a, p)) => r matches Ok((name, b)) && name@ == shift_jis_text(f) && b == a
                && final(reader).pos() == p && (all_ascii(f) ==> name@ == ascii_text(f)),
            Err(e) => r matches Err(g) && g@ == e,
        },
{
    let (filename, has_audio) = parse_usm_header(reader, fallback_name)?;
    Ok((decode_shift_jis(filename.as_slice()), has_audio))
}

/// Read the USM header from the start: the file name from the entry table
/// (or the fallback), and whether there is audio; the position ends where
/// the contents start.
pub fn parse_usm_header(reader: &mut Reader, fallback_name: &[u8]) -> (r: Result<(Vec<u8>, bool), UsmError>)
    requires
        old(reader).pos() == 0,
    ensures
        final(reader).data() == old(reader).data(),
        match usm_header_at(old(reader).data(), fallback_name@) {
            Ok((f, a, p)) => r matches Ok((g, b)) && g@ == f && b == a && final(reader).pos() == p,
            Err(e) => r matches Err(g) && g@ == e,
        },
{
    let ghost d = reader.data();
    let sig = io(reader.read_bytes(4))?;
    let crid: [u8; 4] = [0x43, 0x52, 0x49, 0x44];
    proof {
        assert(crid@ =~= crid_sig());
        assert(sig@ =~= d.subrange(0, 4));
    }
    if !same_bytes(sig.as_slice(), &crid) {
        return Err(UsmError::InvalidCridSignature);
    }
    let block_size = io(reader.read_u32())?;
    io(reader.seek(SeekFrom::Start(0x20)))?;
    let entry_table = get_utf_table(reader)?;
    let filename = extract_filename(&entry_table, fallback_name);
    let offset: i64 = 8 + block_size as i64;
    let (has_audio, offset) = parse_usm_header_chunks(reader, offset)?;
    skip_metadata_section(reader, offset)?;
    Ok((filename, has_audio))
}

// ---------------------------------------------------------------------------
// Contents
// ---------------------------------------------------------------------------

/// Bytes left from `p`; none past the end.
pub open spec fn left(d: Seq<u8>, p: int) -> int {
    if 0 <= p <= d.len() {
        d.len() - p
    } else {
        0
    }
}

/// `a - b` in machine words, wrapping.
pub open spec fn usize_sub(a: int, b: int) -> int {
    if a >= b {
        a - b
    } else {
        a - b + usize::MAX + 1
    }
}

/// The video masks a key gives: the table and its inverse.
pub open spec fn video_masks(key: Option<u64>) -> Option<(Seq<u8>, Seq<u8>)> {
    match key {
        Some(k) => Some((mask_table(k), inverted(mask_table(k)))),
        None => None,
    }
}

/// The audio mask a key gives.
pub open spec fn audio_masks(key: Option<u64>) -> Option<Seq<u8>> {
    match key {
        Some(k) => Some(audio_mask(k)),
        None => None,
    }
}

/// A video payload as written out: unmasked when its data type is 0 and
/// there is a key.
pub open spec fn video_payload(c: Seq<u8>, plain: bool, vm: Option<(Seq<u8>, Seq<u8>)>) -> Seq<u8> {
    match vm {
        Some(m) => if plain {
            masked_video(c, m.0, m.1)
        } else {
            c
        },
        None => c,
    }
}

/// An audio payload as written out: unmasked when its data type is 0 and
/// there is a key.
pub open spec fn audio_payload(c: Seq<u8>, plain: bool, am: Option<Seq<u8>>) -> Seq<u8> {
    match am {
        Some(m) => if plain {
            masked_audio(c, m)
        } else {
            c
        },
        None => c,
    }
}

/// The chunks from `p` on, appended to the video and audio written so far;
/// the third part is the error that stopped the walk, if any. Each chunk
/// has a signature, a block size, header and footer sizes and a data type;
/// its payload (block size less header and footer sizes) is read 32 bytes
/// into it. Video chunks go to the video, audio chunks to the audio when it
/// is kept, others are skipped; the walk stops at "#CONTENTS END" or where
/// no further signature can be read.
pub open spec fn chunks_at(
    d: Seq<u8>,
    p: int,
    vm: Option<(Seq<u8>, Seq<u8>)>,
    am: Option<Seq<u8>>,
    with_audio: bool,
    video: Seq<u8>,
    audio: Seq<u8>,
) -> (Seq<u8>, Seq<u8>, Option<UsmErrorView>)
    decreases left(d, p),
{
    let len = d.len() as int;
    if p < 0 || p + 4 > len {
        (video, audio, None)
    } else if p + 45 > len {
        (video, audio, Some(eof()))
    } else if d.subrange(p + 32, p + 45) == contents_end_marker() {
        (video, audio, None)
    } else {
        let sig = d.subrange(p, p + 4);
        let n = usize_sub(usize_sub(be32(d.skip(p + 4)), be16(d.skip(p + 8))), be16(d.skip(p + 10)));
        let plain = (d[p + 15] & 3) == 0;
        let next = p + 8 + be32(d.skip(p + 4));
        if sig == sfv_sig() {
            match bytes_at(d, p + 32, n) {
                Err(e) => (video, audio, Some(e)),
                Ok(c) => chunks_at(d, next, vm, am, with_audio, video + video_payload(c, plain, vm), audio),
            }
        } else if sig == sfa_sig() && with_audio {
            match bytes_at(d, p + 32, n) {
                Err(e) => (video, audio, Some(e)),
                Ok(c) => chunks_at(d, next, vm, am, with_audio, video, audio + audio_payload(c, plain, am)),
            }
        } else {
            chunks_at(d, next, vm, am, with_audio, video, audio)
        }
    }
}

/// `a - b` in machine words, wrapping.
fn usize_sub_wrapping(a: usize, b: usize) -> (r: usize)
    ensures
        r == usize_sub(a as int, b as int),
{
    if a >= b {
        a - b
    } else {
        usize::MAX - (b - a) + 1
    }
}

/// Walk the chunks from the reader's position: the video, the audio when
/// `with_audio`, unmasked with the key's masks; and the error that stopped
/// the walk, if any (what was gathered before it is kept).
#[verifier::spinoff_prover]
pub fn extract_usm_chunks(reader: &mut Reader, key: Option<u64>, with_audio: bool) -> (r: (
    Vec<u8>,
    Vec<u8>,
    Result<(), UsmError>,
))
    requires
        old(reader).data().len() <= isize::MAX,
    ensures
        final(reader).data() == old(reader).data(),
        ({
            let (v, a, e) = chunks_at(
                old(reader).data(),
                old(reader).pos(),
                video_masks(key),
                audio_masks(key),
                with_audio,
                Seq::empty(),
                Seq::empty(),
            );
            &&& r.0@ == v
            &&& r.1@ == a
            &&& match e {
                Some(err) => r.2 matches Err(g) && g@ == err,
                None => r.2 is Ok,
            }
        }),
{
    let ghost d = reader.data();
    let ghost vm = video_masks(key);
    let ghost am = audio_masks(key);
    let ghost total = chunks_at(d, reader.pos(), vm, am, with_audio, Seq::empty(), Seq::empty());
    let (vmask, amask): (Option<Vec<Vec<u8>>>, Option<Vec<u8>>) = match key {
        Some(k) => {
            let (v, a) = get_mask(k);
            (Some(v), Some(a))
        },
        None => (None, None),
    };
    let sfv: [u8; 4] = [0x40, 0x53, 0x46, 0x56];
    let sfa: [u8; 4] = [0x40, 0x53, 0x46, 0x41];
    let contents_end: [u8; 13] = [0x23, 0x43, 0x4F, 0x4E, 0x54, 0x45, 0x4E, 0x54, 0x53, 0x20, 0x45, 0x4E, 0x44];
    proof {
        assert(sfv@ =~= sfv_sig());
        assert(sfa@ =~= sfa_sig());
        assert(contents_end@ =~= contents_end_marker());
    }
    let mut video: Vec<u8> = Vec::new();
    let mut audio: Vec<u8> = Vec::new();
    proof {
        assert(video@ =~= Seq::<u8>::empty());
        assert(audio@ =~= Seq::<u8>::empty());
    }
    loop
        invariant_except_break
            chunks_at(d, reader.pos(), vm, am, with_audio, video@, audio@) == total,
        invariant
            reader.data() == d,
            old(reader).data() == d,
            total == chunks_at(d, old(reader).pos(), vm, am, with_audio, Seq::empty(), Seq::empty()),
            d.len() <= isize::MAX,
            sfv@ == sfv_sig(),
            sfa@ == sfa_sig(),
            contents_end@ == contents_end_marker(),
            vm == video_masks(key),
            am == audio_masks(key),
            match vmask {
                Some(v) => vm matches Some(m) && v@.len() == 2 && v@[0]@ == m.0 && v@[1]@ == m.1
                    && m.0.len() == 32 && m.1.len() == 32,
                None => vm is None,
            },
            match amask {
                Some(a) => am matches Some(m) && a@ == m && m.len() == 32,
                None => am is None,
            },
        ensures
            total == (video@, audio@, None::<UsmErrorView>),
        decreases left(d, reader.pos()),
    {
        let ghost p = reader.pos();
        let ghost v0 = video@;
        let ghost a0 = audio@;
        let sig = match reader.read_bytes(4) {
            Ok(s) => s,
            Err(_) => {
                break;
            },
        };
        proof {
            assert(sig@ =~= d.subrange(p, p + 4));
        }
        let block_size = match io(reader.read_u32()) {
            Ok(b) => b,
            Err(e) => {
                return (video, audio, Err(e));
            },
        };
        let current_pos = match io(reader.stream_position()) {
            Ok(c) => c,
            Err(e) => {
                return (video, audio, Err(e));
            },
        };
        let next_offset: u64 = current_pos + block_size as u64;
        let header_size = match io(reader.read_u16()) {
            Ok(b) => b,
            Err(e) => {
                return (video, audio, Err(e));
            },
        };
        let footer_size = match io(reader.read_u16()) {
            Ok(b) => b,
            Err(e) => {
                return (video, audio, Err(e));
            },
        };
        match io(reader.read_bytes(3)) {
            Ok(_) => {},
            Err(e) => {
                return (video, audio, Err(e));
            },
        }
        let data_type_byte = match io(reader.read_u8()) {
            Ok(b) => b,
            Err(e) => {
                return (video, audio, Err(e));
            },
        };
        let data_type = data_type_byte & 0b11;
        match io(reader.seek(SeekFrom::Current(16))) {
            Ok(_) => {},
            Err(e) => {
                return (video, audio, Err(e));
            },
        }
        let end = match io(reader.read_bytes(13)) {
            Ok(b) => b,
            Err(e) => {
                return (video, audio, Err(e));
            },
        };
        proof {
            assert(end@ =~= d.subrange(p + 32, p + 45));
        }
        if same_bytes(end.as_slice(), &contents_end) {
            break;
        }
        match io(reader.seek(SeekFrom::Current(-13))) {
            Ok(_) => {},
            Err(e) => {
                return (video, audio, Err(e));
            },
        }
        let read_data_len = usize_sub_wrapping(
            usize_sub_wrapping(block_size as usize, header_size as usize),
            footer_size as usize,
        );
        if same_bytes(sig.as_slice(), &sfv) {
            let content = match io(reader.read_bytes(read_data_len)) {
                Ok(c) => c,
                Err(e) => {
                    return (video, audio, Err(e));
                },
            };
            proof {
                if read_data_len == 0 {
                    assert(content@ =~= Seq::<u8>::empty());
                } else {
                    assert(content@ =~= d.subrange(p + 32, p + 32 + read_data_len));
                }
            }
            let ghost raw = content@;
            let content = if data_type == 0 {
                match &vmask {
                    Some(vm_exec) => mask_video(content.as_slice(), vm_exec),
                    None => content,
                }
            } else {
                content
            };
            video.extend_from_slice(content.as_slice());
            proof {
                assert(content@ == video_payload(raw, data_type == 0, vm));
                assert(video@ =~= v0 + video_payload(raw, data_type == 0, vm));
            }
        } else if same_bytes(sig.as_slice(), &sfa) && with_audio {
            let content = match io(reader.read_bytes(read_data_len)) {
                Ok(c) => c,
                Err(e) => {
                    return (video, audio, Err(e));
                },
            };
            proof {
                if read_data_len == 0 {
                    assert(content@ =~= Seq::<u8>::empty());
                } else {
                    assert(content@ =~= d.subrange(p + 32, p + 32 + read_data_len));
                }
            }
            let ghost raw = content@;
            let content = if data_type == 0 {
                match &amask {
                    Some(a) => mask_audio(content.as_slice(), a.as_slice()),
                    None => content,
                }
            } else {
                content
            };
            audio.extend_from_slice(content.as_slice());
            proof {
                assert(content@ == audio_payload(raw, data_type == 0, am));
                assert(audio@ =~= a0 + audio_payload(raw, data_type == 0, am));
            }
        }
        proof {
            assert(p + 45 <= d.len());
            assert(d.subrange(p + 32, p + 45) != contents_end_marker());
            assert(block_size == be32(d.skip(p + 4)));
            assert(header_size == be16(d.skip(p + 8)));
            assert(footer_size == be16(d.skip(p + 10)));
            assert(data_type_byte == d[p + 15]);
            assert(next_offset == p + 8 + be32(d.skip(p + 4)));
            assert(chunks_at(d, p, vm, am, with_audio, v0, a0) == chunks_at(
                d,
                next_offset as int,
                vm,
                am,
                with_audio,
                video@,
                audio@,
            ));
        }
        match io(reader.seek(SeekFrom::Start(next_offset))) {
            Ok(_) => {},
            Err(e) => {
                return (video, audio, Err(e));
            },
        }
    }
    (video, audio, Ok(()))
}

/// The streams of a USM: the file name it records (decoded from Shift-JIS),
/// the video, and the audio when it has audio and audio is asked for.
pub struct UsmStreams {
    pub filename: String,
    pub video: Vec<u8>,
    pub audio: Option<Vec<u8>>,
}

/// Demultiplex a USM held in memory: read its header, then walk its
/// chunks, unmasking them with the key's masks when a key is given.
pub fn extract_usm(usm: Vec<u8>, fallback_name: &[u8], key: Option<u64>, export_audio: bool) -> (r: Result<UsmStreams, UsmError>)
    requires
        usm@.len() <= isize::MAX,
    ensures
        match usm_header_at(usm@, fallback_name@) {
            Err(e) => r matches Err(g) && g@ == e,
            Ok((f, has_audio, p)) => {
                let (v, a, e) = chunks_at(
                    usm@,
                    p,
                    video_masks(key),
                    audio_masks(key),
                    has_audio && export_audio,
                    Seq::empty(),
                    Seq::empty(),
                );
                match e {
                    Some(err) => r matches Err(g) && g@ == err,
                    None => r matches Ok(s) && s.filename@ == shift_jis_text(f) && (all_ascii(f)
                        ==> s.filename@ == ascii_text(f)) && s.video@ == v && (
                    if has_audio && export_audio {
                        s.audio matches Some(x) && x@ == a
                    } else {
                        s.audio is None
                    }),
                }
            },
        },
{
    let mut reader = Reader::new(usm);
    let (filename, has_audio) = parse_usm_header(&mut reader, fallback_name)?;
    let decoded = decode_shift_jis(filename.as_slice());
    let with_audio = has_audio && export_audio;
    let (video, audio, status) = extract_usm_chunks(&mut reader, key, with_audio);
    match status {
        Ok(()) => Ok(
            UsmStreams {
                filename: decoded,
                video,
                audio: if with_audio {
                    Some(audio)
                } else {
                    None
                },
            },
        ),
        Err(e) => Err(e),
    }
}

// ---------------------------------------------------------------------------
// What a key makes of the masks
// ---------------------------------------------------------------------------

/// The 32-byte mask table of a key, byte by byte: bytes 0 to 2 are the key's
/// bytes 0 to 2; byte 3 is key byte 3 less 0x34; byte 4 is the low nibble of
/// key byte 4 plus 0xF9; byte 5 is key byte 5 xor 0x13; byte 6 is key byte 6
/// plus 0x61; and each later byte is made from earlier ones (sums and
/// differences modulo 256, complements 0xFF - x, xors).
#[verifier::rlimit(60)]
pub proof fn law_mask_table_from_key(key: u64)
    ensures
        ({
            let t = mask_table(key);
            &&& t.len() == 32
            &&& t[0] == key % 0x100
            &&& t[1] == key / 0x100 % 0x100
            &&& t[2] == key / 0x1_0000 % 0x100
            &&& t[3] == (key / 0x100_0000 % 0x100 + 0x100 - 0x34) % 0x100
            &&& t[4] == (key / 0x1_0000_0000 % 0x10 + 0xF9) % 0x100
            &&& t[5] == ((key / 0x100_0000_0000 % 0x100) as u8 ^ 0x13)
            &&& t[6] == (key / 0x1_0000_0000_0000 % 0x100 + 0x61) % 0x100
            &&& t[7] == 0xFF - t[0]
            &&& t[8] == (t[2] + t[1]) % 0x100
            &&& t[9] == (t[1] + 0x100 - t[7]) % 0x100
            &&& t[10] == 0xFF - t[2]
            &&& t[11] == 0xFF - t[1]
            &&& t[12] == (t[11] + t[9]) % 0x100
            &&& t[13] == (t[8] + 0x100 - t[3]) % 0x100
            &&& t[14] == 0xFF - t[13]
            &&& t[15] == (t[10] + 0x100 - t[11]) % 0x100
            &&& t[16] == (t[8] + 0x100 - t[15]) % 0x100
            &&& t[17] == t[16] ^ t[7]
            &&& t[18] == 0xFF - t[15]
            &&& t[19] == t[3] ^ 0x10
            &&& t[20] == (t[4] + 0x100 - 0x32) % 0x100
            &&& t[21] == (t[5] + 0xED) % 0x100
            &&& t[22] == t[6] ^ 0xF3
            &&& t[23] == (t[19] + 0x100 - t[15]) % 0x100
            &&& t[24] == (t[21] + t[7]) % 0x100
            &&& t[25] == (0x21 + 0x100 - t[19]) % 0x100
            &&& t[26] == t[20] ^ t[23]
            &&& t[27] == (t[22] + t[22]) % 0x100
            &&& t[28] == (t[23] + 0x44) % 0x100
            &&& t[29] == (t[3] + t[4]) % 0x100
            &&& t[30] == (t[5] + 0x100 - t[22]) % 0x100
            &&& t[31] == t[29] ^ t[19]
        }),
{
    reveal(add8);
    reveal(sub8);
    let t = mask_table(key);
    lemma_key_fields(key);
    lemma_xor_ff(t[0]);
    lemma_xor_ff(t[1]);
    lemma_xor_ff(t[2]);
    lemma_xor_ff(t[13]);
    lemma_xor_ff(t[15]);
}

/// The key's fields that the mask table takes, as quotients and remainders.
proof fn lemma_key_fields(key: u64)
    ensures
        (key & 0xFF) as u8 == key % 0x100,
        ((key >> 8) & 0xFF) as u8 == key / 0x100 % 0x100,
        ((key >> 16) & 0xFF) as u8 == key / 0x1_0000 % 0x100,
        ((key >> 24) & 0xFF) as u8 == key / 0x100_0000 % 0x100,
        ((key >> 32) & 0xF) as u8 == key / 0x1_0000_0000 % 0x10,
        ((key >> 40) & 0xFF) as u8 == key / 0x100_0000_0000 % 0x100,
        ((key >> 48) & 0xFF) as u8 == key / 0x1_0000_0000_0000 % 0x100,
{
    assert((key & 0xFF) as u8 == key % 0x100 && ((key >> 8) & 0xFF) as u8 == key / 0x100 % 0x100
        && ((key >> 16) & 0xFF) as u8 == key / 0x1_0000 % 0x100 && ((key >> 24) & 0xFF) as u8
        == key / 0x100_0000 % 0x100 && ((key >> 32) & 0xF) as u8 == key / 0x1_0000_0000 % 0x10
        && ((key >> 40) & 0xFF) as u8 == key / 0x100_0000_0000 % 0x100 && ((key >> 48) & 0xFF) as u8
        == key / 0x1_0000_0000_0000 % 0x100) by (bit_vector);
}

/// Xor with 0xFF is the complement.
pub proof fn lemma_xor_ff(x: u8)
    ensures
        x ^ 0xFF == 0xFF - x,
{
    assert(x ^ 0xFF == 0xFF - x) by (bit_vector);
}

/// Audio unmasked with a key's mask: the first 0x140 bytes pass unchanged;
/// from 0x140 on, each byte is xored, at even distances from 0x140, with
/// the complement of the key's mask table byte at that distance modulo 32
/// (at distance 0, the complement of the key's lowest byte), and at odd
/// distances with "URUC" in turn.
pub proof fn law_audio_unmask_with_key(key: u64, c: Seq<u8>, p: int)
    requires
        0 <= p < c.len(),
    ensures
        masked_audio(c, audio_mask(key)).len() == c.len(),
        p < 0x140 ==> masked_audio(c, audio_mask(key))[p] == c[p],
        p >= 0x140 && (p - 0x140) % 2 == 0 ==> masked_audio(c, audio_mask(key))[p] == c[p] ^ ((
        0xFF - mask_table(key)[(p - 0x140) % 32]) as u8),
        p >= 0x140 && (p - 0x140) % 32 == 0 ==> masked_audio(c, audio_mask(key))[p] == c[p] ^ ((
        0xFF - key % 0x100) as u8),
        p >= 0x140 && (p - 0x140) % 8 == 1 ==> masked_audio(c, audio_mask(key))[p] == c[p] ^ 0x55,
        p >= 0x140 && (p - 0x140) % 8 == 3 ==> masked_audio(c, audio_mask(key))[p] == c[p] ^ 0x52,
        p >= 0x140 && (p - 0x140) % 8 == 5 ==> masked_audio(c, audio_mask(key))[p] == c[p] ^ 0x55,
        p >= 0x140 && (p - 0x140) % 8 == 7 ==> masked_audio(c, audio_mask(key))[p] == c[p] ^ 0x43,
{
    lemma_mask_table_first(key);
    let m = audio_mask(key);
    let t = mask_table(key);
    if p >= 0x140 {
        let d = p - 0x140;
        let j = d % 32;
        assert(0 <= j < 32 && j % 2 == d % 2 && (j / 2) % 4 == (d % 8) / 2) by (nonlinear_arith)
            requires
                d >= 0,
                j == d % 32,
        ;
        assert(masked_audio(c, m)[p] == c[p] ^ m[j]);
        if d % 2 == 0 {
            let x: u8 = t[j];
            lemma_xor_ff(x);
            assert(m[j] == x ^ 0xFF);
        } else {
            assert(m[j] == seq![0x55u8, 0x52, 0x55, 0x43][(j / 2) % 4]);
        }
        if d % 32 == 0 {
            assert(j == 0);
        }
    }
}

proof fn lemma_mask_table_first(key: u64)
    ensures
        mask_table(key).len() == 32,
        mask_table(key)[0] == key % 0x100,
{
    lemma_key_fields(key);
}

/// The two video masks of a key: its mask table, and that table's
/// complement byte by byte (0xFF - x), both 32 bytes long.
pub proof fn law_video_masks_from_key(key: u64)
    ensures
        video_masks(Some(key)) matches Some((m0, m1)) && m0 == mask_table(key) && m0.len() == 32
            && m1.len() == 32 && forall|i: int| 0 <= i < 32 ==> #[trigger] m1[i] == 0xFF - m0[i],
{
    lemma_mask_table_first(key);
    let t = mask_table(key);
    assert forall|i: int| 0 <= i < 32 implies #[trigger] inverted(t)[i] == 0xFF - t[i] by {
        lemma_xor_ff(t[i]);
    }
}

proof fn lemma_mask1_len(c: Seq<u8>, v0: Seq<u8>, v1: Seq<u8>, i: int)
    requires
        v0.len() == 32,
    ensures
        video_mask1(c, v0, v1, i).len() == v0.len(),
    decreases i,
{
    if i > 0 {
        lemma_mask1_len(c, v0, v1, i - 1);
    }
}

proof fn lemma_mask2_len(c: Seq<u8>, v1: Seq<u8>, i: int)
    requires
        v1.len() == 32,
    ensures
        video_mask2(c, v1, i).len() == v1.len(),
    decreases i,
{
    if i > 0x100 {
        lemma_mask2_len(c, v1, i - 1);
    }
}

/// Steps `a` to `b` of the first pass leave entry `j` alone when none of
/// them falls on it.
proof fn lemma_mask1_keep(c: Seq<u8>, v0: Seq<u8>, v1: Seq<u8>, a: int, b: int, j: int)
    requires
        0 <= a <= b,
        0 <= j < 32,
        v0.len() == 32,
        b - a <= (j - a) % 32,
    ensures
        video_mask1(c, v0, v1, b)[j] == video_mask1(c, v0, v1, a)[j],
    decreases b,
{
    if b > a {
        lemma_mask1_keep(c, v0, v1, a, b - 1, j);
        lemma_mask1_len(c, v0, v1, b - 1);
        assert((b - 1) % 32 != j) by (nonlinear_arith)
            requires
                0 <= a <= b - 1,
                b - a <= (j - a) % 32,
                0 <= j < 32,
        ;
    }
}

/// Steps `a` to `b` of the second pass leave entry `j` alone when none of
/// them falls on it.
proof fn lemma_mask2_keep(c: Seq<u8>, v1: Seq<u8>, a: int, b: int, j: int)
    requires
        0x100 <= a <= b,
        0 <= j < 32,
        v1.len() == 32,
        b - a <= (j - a) % 32,
    ensures
        video_mask2(c, v1, b)[j] == video_mask2(c, v1, a)[j],
    decreases b,
{
    if b > a {
        lemma_mask2_keep(c, v1, a, b - 1, j);
        lemma_mask2_len(c, v1, b - 1);
        assert((b - 1) % 32 != j) by (nonlinear_arith)
            requires
                0 <= a <= b - 1,
                b - a <= (j - a) % 32,
                0 <= j < 32,
        ;
    }
}

/// Xoring the same byte in twice cancels.
proof fn lemma_xor_cancel(x: u8, m: u8)
    ensures
        (x ^ m) ^ x == m,
{
    assert((x ^ m) ^ x == m) by (bit_vector);
}

/// Video unmasked with masks `v0` and `v1` (32 bytes each), byte by byte:
/// data shorter than 0x240 bytes, and the first 0x40 bytes, pass unchanged;
/// each byte from 0x140 on is xored with `v1`'s entry at its distance from
/// 0x140 modulo 32, and, from 0x160 on, also with the unmasked byte 32
/// before it; each byte from 0x40 to 0x140 is xored with the unmasked byte
/// 0x100 after it and with `v0`'s entry at its distance from 0x40 modulo 32
/// (below 0x60) or, from 0x60 on, with what the byte 32 before it was xored
/// with.
pub proof fn law_video_unmask(c: Seq<u8>, v0: Seq<u8>, v1: Seq<u8>, p: int)
    requires
        v0.len() == 32,
        v1.len() == 32,
        0 <= p < c.len(),
    ensures
        ({
            let o = masked_video(c, v0, v1);
            &&& o.len() == c.len()
            &&& c.len() < 0x240 || p < 0x40 ==> o[p] == c[p]
            &&& c.len() >= 0x240 && 0x140 <= p < 0x160 ==> o[p] == c[p] ^ v1[(p - 0x140) % 32]
            &&& c.len() >= 0x240 && 0x160 <= p ==> o[p] == c[p] ^ (o[p - 32] ^ v1[(p - 0x140)
                % 32])
            &&& c.len() >= 0x240 && 0x40 <= p < 0x60 ==> o[p] == c[p] ^ (v0[(p - 0x40) % 32]
                ^ o[p + 0x100])
            &&& c.len() >= 0x240 && 0x60 <= p < 0x140 ==> o[p] == c[p] ^ ((o[p - 32] ^ c[p - 32])
                ^ o[p + 0x100])
        }),
{
    if c.len() >= 0x240 && p >= 0x140 {
        lemma_second_pass(c, v0, v1, p);
    }
    if c.len() >= 0x240 && 0x40 <= p < 0x140 {
        lemma_first_pass(c, v0, v1, p);
    }
}

proof fn lemma_mod_facts(i: int)
    requires
        i >= 32,
    ensures
        (i - 32) % 32 == i % 32,
        31 <= (i % 32 - (i - 31)) % 32,
{
    assert((i - 32) % 32 == i % 32 && (i % 32 - (i - 31)) % 32 == 31) by (nonlinear_arith)
        requires
            i >= 32,
    ;
}

#[verifier::rlimit(30)]
proof fn lemma_second_pass(c: Seq<u8>, v0: Seq<u8>, v1: Seq<u8>, p: int)
    requires
        v0.len() == 32,
        v1.len() == 32,
        0x140 <= p < c.len(),
        c.len() >= 0x240,
    ensures
        p < 0x160 ==> masked_video(c, v0, v1)[p] == c[p] ^ v1[(p - 0x140) % 32],
        0x160 <= p ==> masked_video(c, v0, v1)[p] == c[p] ^ (masked_video(c, v0, v1)[p - 32]
            ^ v1[(p - 0x140) % 32]),
{
    let o = masked_video(c, v0, v1);
    let i = p - 0x40;
    let j = i % 32;
    assert(j == (p - 0x140) % 32) by (nonlinear_arith)
        requires
            i == p - 0x40,
            j == i % 32,
    ;
    assert(o[p] == video_tail(c, v1, i));
    lemma_mask2_len(c, v1, i);
    if i < 0x120 {
        assert(j == i - 0x100 && (j - 0x100) % 32 == j) by (nonlinear_arith)
            requires
                0x100 <= i < 0x120,
                j == i % 32,
        ;
        lemma_mask2_keep(c, v1, 0x100, i, j);
    } else {
        lemma_mod_facts(i);
        lemma_mask2_len(c, v1, i - 32);
        assert(video_mask2(c, v1, i - 31)[j] == video_tail(c, v1, i - 32) ^ v1[j]);
        lemma_mask2_keep(c, v1, i - 31, i, j);
        assert(o[p - 32] == video_tail(c, v1, i - 32));
    }
}

#[verifier::rlimit(30)]
proof fn lemma_first_pass(c: Seq<u8>, v0: Seq<u8>, v1: Seq<u8>, p: int)
    requires
        v0.len() == 32,
        v1.len() == 32,
        0x40 <= p < 0x140,
        c.len() >= 0x240,
    ensures
        p < 0x60 ==> masked_video(c, v0, v1)[p] == c[p] ^ (v0[(p - 0x40) % 32] ^ masked_video(
            c,
            v0,
            v1,
        )[p + 0x100]),
        0x60 <= p ==> masked_video(c, v0, v1)[p] == c[p] ^ ((masked_video(c, v0, v1)[p - 32]
            ^ c[p - 32]) ^ masked_video(c, v0, v1)[p + 0x100]),
{
    let o = masked_video(c, v0, v1);
    let i = p - 0x40;
    let j = i % 32;
    lemma_mask1_len(c, v0, v1, i);
    assert(o[p] == c[p] ^ video_mask1(c, v0, v1, i + 1)[j]);
    assert(video_mask1(c, v0, v1, i + 1)[j] == video_mask1(c, v0, v1, i)[j] ^ video_tail(
        c,
        v1,
        0x100 + i,
    ));
    assert(o[p + 0x100] == video_tail(c, v1, 0x100 + i));
    if i < 32 {
        assert(j == i);
        lemma_mask1_keep(c, v0, v1, 0, i, j);
    } else {
        lemma_mod_facts(i);
        lemma_mask1_keep(c, v0, v1, i - 31, i, j);
        let m: u8 = video_mask1(c, v0, v1, i - 31)[j];
        assert(o[p - 32] == c[p - 32] ^ video_mask1(c, v0, v1, (p - 32) - 0x40 + 1)[(
        (p - 32) - 0x40) % 32]);
        assert(o[p - 32] == c[p - 32] ^ m);
        lemma_xor_cancel(c[p - 32], m);
    }
}

} // verus!
