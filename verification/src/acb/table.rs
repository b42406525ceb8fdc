//! Building @UTF tables: columns, rows, and the byte image of a table.
//!
//! A table image is a 32-byte header, the schema (one entry per column,
//! with the value of each constant column), the rows (the per-row columns
//! of each row), the string pool and the data pool. Strings and blobs are
//! referred to by their offsets in the pools.

use crate::acb::builder::{
    two16, two32, write_i16_be, write_i32_be, write_u16_be, write_u32_be, write_u64_be, zeros,
};
use crate::acb::consts::{
    COLUMN_FLAG_DEFAULT, COLUMN_FLAG_NAME, COLUMN_FLAG_ROW, COLUMN_TYPE_1BYTE, COLUMN_TYPE_1BYTE2,
    COLUMN_TYPE_2BYTE, COLUMN_TYPE_2BYTE2, COLUMN_TYPE_4BYTE, COLUMN_TYPE_4BYTE2,
    COLUMN_TYPE_8BYTE, COLUMN_TYPE_DATA, COLUMN_TYPE_FLOAT, COLUMN_TYPE_STRING,
};
use crate::acb::strings::{
    add_string, ascii_faithful, extends, lemma_add_extends, lemma_extends_keeps, lemma_extends_refl,
    lemma_add_string_holds, lemma_extends_trans, pool_image, string_offset, trunc32, DataTable,
    StringTable,
};
use crate::acb::utf::{Value, ValueView};
use crate::reader::{be16_bytes, be32_bytes, be64_bytes};
use vstd::prelude::*;

verus! {

/// Column type of a value.
pub open spec fn value_type(v: ValueView) -> u8 {
    match v {
        ValueView::U8(_) => COLUMN_TYPE_1BYTE,
        ValueView::I8(_) => COLUMN_TYPE_1BYTE2,
        ValueView::U16(_) => COLUMN_TYPE_2BYTE,
        ValueView::I16(_) => COLUMN_TYPE_2BYTE2,
        ValueView::U32(_) => COLUMN_TYPE_4BYTE,
        ValueView::I32(_) => COLUMN_TYPE_4BYTE2,
        ValueView::U64(_) => COLUMN_TYPE_8BYTE,
        ValueView::F32(_) => COLUMN_TYPE_FLOAT,
        ValueView::Str(_) => COLUMN_TYPE_STRING,
        ValueView::Data(_) => COLUMN_TYPE_DATA,
    }
}

/// Bytes a cell of a column type takes; 0 for an unknown type.
pub open spec fn value_size(typ: u8) -> int {
    if typ == COLUMN_TYPE_1BYTE || typ == COLUMN_TYPE_1BYTE2 {
        1
    } else if typ == COLUMN_TYPE_2BYTE || typ == COLUMN_TYPE_2BYTE2 {
        2
    } else if typ == COLUMN_TYPE_4BYTE || typ == COLUMN_TYPE_4BYTE2 || typ == COLUMN_TYPE_FLOAT
        || typ == COLUMN_TYPE_STRING {
        4
    } else if typ == COLUMN_TYPE_8BYTE || typ == COLUMN_TYPE_DATA {
        8
    } else {
        0
    }
}

/// Column definition of a table under construction.
#[derive(Debug, Clone)]
pub struct ColumnDef {
    pub name: String,
    pub typ: u8,
    pub flag: u8,
    pub constant_value: Option<Value>,
}

/// What a column definition holds, as mathematical values.
pub struct ColumnView {
    pub name: Seq<char>,
    pub typ: u8,
    pub flag: u8,
    pub constant: Option<ValueView>,
}

impl View for ColumnDef {
    type V = ColumnView;

    open spec fn view(&self) -> ColumnView {
        ColumnView {
            name: self.name@,
            typ: self.typ,
            flag: self.flag,
            constant: match self.constant_value {
                Some(v) => Some(v@),
                None => None,
            },
        }
    }
}

impl ColumnDef {
    /// A column with one value for all rows, typed after the value.
    pub fn constant(name: &str, value: Value) -> (r: Self)
        ensures
            r.name@ == name@,
            r.typ == value_type(value@),
            r.flag == COLUMN_FLAG_NAME | COLUMN_FLAG_DEFAULT,
            r.constant_value == Some(value),
    {
        let typ = match &value {
            Value::U8(_) => COLUMN_TYPE_1BYTE,
            Value::I8(_) => COLUMN_TYPE_1BYTE2,
            Value::U16(_) => COLUMN_TYPE_2BYTE,
            Value::I16(_) => COLUMN_TYPE_2BYTE2,
            Value::U32(_) => COLUMN_TYPE_4BYTE,
            Value::I32(_) => COLUMN_TYPE_4BYTE2,
            Value::U64(_) => COLUMN_TYPE_8BYTE,
            Value::F32(_) => COLUMN_TYPE_FLOAT,
            Value::String(_) => COLUMN_TYPE_STRING,
            Value::Data(_) => COLUMN_TYPE_DATA,
        };
        ColumnDef {
            name: name.to_owned(),
            typ,
            flag: COLUMN_FLAG_NAME | COLUMN_FLAG_DEFAULT,
            constant_value: Some(value),
        }
    }

    /// A column with a value in each row.
    pub fn per_row(name: &str, typ: u8) -> (r: Self)
        ensures
            r.name@ == name@,
            r.typ == typ,
            r.flag == COLUMN_FLAG_NAME | COLUMN_FLAG_ROW,
            r.constant_value is None,
    {
        ColumnDef { name: name.to_owned(), typ, flag: COLUMN_FLAG_NAME | COLUMN_FLAG_ROW, constant_value: None }
    }
}

/// The value a row holds under `name`; a later entry overrides an earlier
/// one.
pub open spec fn row_value(row: Seq<(Seq<char>, ValueView)>, name: Seq<char>) -> Option<ValueView>
    decreases row.len(),
{
    if row.len() == 0 {
        None
    } else if row.last().0 == name {
        Some(row.last().1)
    } else {
        row_value(row.drop_last(), name)
    }
}

// ---------------------------------------------------------------------------
// The pools of a table
// ---------------------------------------------------------------------------

/// Strings after the table name and the first `k` columns: each column's
/// name, then its constant string if it has one.
pub open spec fn schema_strings(name: Seq<char>, cols: Seq<ColumnView>, k: int) -> Seq<Seq<char>>
    decreases k,
{
    if k <= 0 {
        add_string(Seq::empty(), name)
    } else {
        let ss = add_string(schema_strings(name, cols, k - 1), cols[k - 1].name);
        match cols[k - 1].constant {
            Some(ValueView::Str(s)) => add_string(ss, s),
            _ => ss,
        }
    }
}

/// Strings after the string cells of the first `k` per-row columns of a row.
pub open spec fn row_strings(
    cols: Seq<ColumnView>,
    row: Seq<(Seq<char>, ValueView)>,
    k: int,
    ss: Seq<Seq<char>>,
) -> Seq<Seq<char>>
    decreases k,
{
    if k <= 0 {
        ss
    } else {
        let s1 = row_strings(cols, row, k - 1, ss);
        if cols[k - 1].constant is None {
            match row_value(row, cols[k - 1].name) {
                Some(ValueView::Str(s)) => add_string(s1, s),
                _ => s1,
            }
        } else {
            s1
        }
    }
}

/// Strings after the schema and the first `r` rows.
pub open spec fn table_strings(
    name: Seq<char>,
    cols: Seq<ColumnView>,
    rows: Seq<Seq<(Seq<char>, ValueView)>>,
    r: int,
) -> Seq<Seq<char>>
    decreases r,
{
    if r <= 0 {
        schema_strings(name, cols, cols.len() as int)
    } else {
        row_strings(cols, rows[r - 1], cols.len() as int, table_strings(name, cols, rows, r - 1))
    }
}

/// Blobs of the constant data columns among the first `k`.
pub open spec fn schema_data(cols: Seq<ColumnView>, k: int) -> Seq<u8>
    decreases k,
{
    if k <= 0 {
        Seq::empty()
    } else {
        schema_data(cols, k - 1) + match cols[k - 1].constant {
            Some(ValueView::Data(d)) => d,
            _ => Seq::empty(),
        }
    }
}

/// Blobs of the data cells of the first `k` per-row columns of a row.
pub open spec fn row_data(cols: Seq<ColumnView>, row: Seq<(Seq<char>, ValueView)>, k: int) -> Seq<u8>
    decreases k,
{
    if k <= 0 {
        Seq::empty()
    } else {
        row_data(cols, row, k - 1) + if cols[k - 1].constant is None {
            match row_value(row, cols[k - 1].name) {
                Some(ValueView::Data(d)) => d,
                _ => Seq::empty(),
            }
        } else {
            Seq::empty()
        }
    }
}

/// Blobs of the schema and of the first `r` rows.
pub open spec fn table_data(cols: Seq<ColumnView>, rows: Seq<Seq<(Seq<char>, ValueView)>>, r: int) -> Seq<
    u8,
>
    decreases r,
{
    if r <= 0 {
        schema_data(cols, cols.len() as int)
    } else {
        table_data(cols, rows, r - 1) + row_data(cols, rows[r - 1], cols.len() as int)
    }
}

/// Pool references of constant column `k`: (offset, 0) for a string,
/// (offset, size) for a blob.
pub open spec fn col_pair(cols: Seq<ColumnView>, k: int, ss: Seq<Seq<char>>) -> Option<(u32, u32)> {
    match cols[k].constant {
        Some(ValueView::Str(s)) => Some((string_offset(ss, s) as u32, 0u32)),
        Some(ValueView::Data(d)) => Some(
            (trunc32(schema_data(cols, k).len() as int) as u32, trunc32(d.len() as int) as u32),
        ),
        _ => None,
    }
}

/// Pool references of the cell of `row` under per-row column `k`, when the
/// row's blobs start at `base` in the data pool.
pub open spec fn row_cell_pair(
    cols: Seq<ColumnView>,
    row: Seq<(Seq<char>, ValueView)>,
    k: int,
    ss: Seq<Seq<char>>,
    base: int,
) -> Option<(u32, u32)> {
    if cols[k].constant is None {
        match row_value(row, cols[k].name) {
            Some(ValueView::Str(s)) => Some((string_offset(ss, s) as u32, 0u32)),
            Some(ValueView::Data(d)) => Some(
                (
                    trunc32(base + row_data(cols, row, k).len()) as u32,
                    trunc32(d.len() as int) as u32,
                ),
            ),
            _ => None,
        }
    } else {
        None
    }
}

/// Pool references of the cell of row `r` under per-row column `k`.
pub open spec fn cell_pair(
    cols: Seq<ColumnView>,
    rows: Seq<Seq<(Seq<char>, ValueView)>>,
    r: int,
    k: int,
    ss: Seq<Seq<char>>,
) -> Option<(u32, u32)> {
    row_cell_pair(cols, rows[r], k, ss, table_data(cols, rows, r).len() as int)
}

/// Pool references of all columns of row `r`.
pub open spec fn row_pairs(
    cols: Seq<ColumnView>,
    rows: Seq<Seq<(Seq<char>, ValueView)>>,
    r: int,
    ss: Seq<Seq<char>>,
) -> Seq<Option<(u32, u32)>> {
    Seq::new(cols.len(), |k: int| cell_pair(cols, rows, r, k, ss))
}

/// The references recorded last under `name` among the first `k` per-row
/// columns, as a map from names keeps them.
pub open spec fn named_pair(
    cols: Seq<ColumnView>,
    pairs: Seq<Option<(u32, u32)>>,
    name: Seq<char>,
    k: int,
) -> Option<(u32, u32)>
    decreases k,
{
    if k <= 0 {
        None
    } else if cols[k - 1].constant is None && cols[k - 1].name == name && pairs[k
        - 1] is Some {
        pairs[k - 1]
    } else {
        named_pair(cols, pairs, name, k - 1)
    }
}

// ---------------------------------------------------------------------------
// The image of a table
// ---------------------------------------------------------------------------

/// Bytes of a value that is not a string or a blob, big-endian.
pub open spec fn scalar_bytes(v: ValueView) -> Seq<u8> {
    match v {
        ValueView::U8(x) => seq![x],
        ValueView::I8(x) => seq![(if x < 0 { x + 256 } else { x as int }) as u8],
        ValueView::U16(x) => be16_bytes(x as int),
        ValueView::I16(x) => be16_bytes(two16(x as int)),
        ValueView::U32(x) => be32_bytes(x as int),
        ValueView::I32(x) => be32_bytes(two32(x as int)),
        ValueView::U64(x) => be64_bytes(x as int),
        ValueView::F32(x) => be32_bytes(x as int),
        _ => Seq::empty(),
    }
}

/// Bytes of a cell: the value itself, or the pool references of a string
/// (offset) or a blob (offset, size); zeros when no reference is known.
pub open spec fn value_bytes(v: ValueView, pair: Option<(u32, u32)>) -> Seq<u8> {
    match v {
        ValueView::Str(_) => match pair {
            Some(p) => be32_bytes(p.0 as int),
            None => be32_bytes(0),
        },
        ValueView::Data(_) => match pair {
            Some(p) => be32_bytes(p.0 as int) + be32_bytes(p.1 as int),
            None => be32_bytes(0) + be32_bytes(0),
        },
        _ => scalar_bytes(v),
    }
}

/// Schema bytes of the first `k` columns: type and flags, name offset, and
/// the value of a constant column.
pub open spec fn schema_bytes(fs: Seq<Seq<char>>, cols: Seq<ColumnView>, k: int) -> Seq<u8>
    decreases k,
{
    if k <= 0 {
        Seq::empty()
    } else {
        let c = cols[k - 1];
        schema_bytes(fs, cols, k - 1) + seq![c.flag | c.typ] + be32_bytes(
            string_offset(fs, c.name),
        ) + match c.constant {
            Some(v) => value_bytes(v, col_pair(cols, k - 1, fs)),
            None => Seq::empty(),
        }
    }
}

/// Bytes of row `r` under its first `k` columns: per-row cells only; a
/// missing value is written as zeros of the column's size.
pub open spec fn row_bytes(
    fs: Seq<Seq<char>>,
    cols: Seq<ColumnView>,
    rows: Seq<Seq<(Seq<char>, ValueView)>>,
    r: int,
    k: int,
) -> Seq<u8>
    decreases k,
{
    if k <= 0 {
        Seq::empty()
    } else {
        let c = cols[k - 1];
        row_bytes(fs, cols, rows, r, k - 1) + if c.constant is None {
            match row_value(rows[r], c.name) {
                Some(v) => value_bytes(
                    v,
                    named_pair(cols, row_pairs(cols, rows, r, fs), c.name, cols.len() as int),
                ),
                None => zeros(value_size(c.typ)),
            }
        } else {
            Seq::empty()
        }
    }
}

/// Bytes of the first `r` rows.
pub open spec fn rows_bytes(
    fs: Seq<Seq<char>>,
    cols: Seq<ColumnView>,
    rows: Seq<Seq<(Seq<char>, ValueView)>>,
    r: int,
) -> Seq<u8>
    decreases r,
{
    if r <= 0 {
        Seq::empty()
    } else {
        rows_bytes(fs, cols, rows, r - 1) + row_bytes(fs, cols, rows, r - 1, cols.len() as int)
    }
}

/// Schema size of the first `k` columns: five bytes each, plus the value
/// size of a constant column.
pub open spec fn schema_size(cols: Seq<ColumnView>, k: int) -> int
    decreases k,
{
    if k <= 0 {
        0
    } else {
        schema_size(cols, k - 1) + 5 + if cols[k - 1].constant is Some {
            value_size(cols[k - 1].typ)
        } else {
            0
        }
    }
}

/// Row width over the first `k` columns: the value sizes of the per-row
/// columns.
pub open spec fn row_width(cols: Seq<ColumnView>, k: int) -> int
    decreases k,
{
    if k <= 0 {
        0
    } else {
        row_width(cols, k - 1) + if cols[k - 1].constant is None {
            value_size(cols[k - 1].typ)
        } else {
            0
        }
    }
}

/// Builder for @UTF tables.
pub struct UtfTableBuilder {
    pub table_name: String,
    pub columns: Vec<ColumnDef>,
    pub rows: Vec<Vec<(String, Value)>>,
}

/// What a table builder holds, as mathematical values.
pub struct TableView {
    pub name: Seq<char>,
    pub columns: Seq<ColumnView>,
    pub rows: Seq<Seq<(Seq<char>, ValueView)>>,
}

impl TableView {
    /// The string pool of the built table.
    pub open spec fn final_strings(&self) -> Seq<Seq<char>> {
        table_strings(self.name, self.columns, self.rows, self.rows.len() as int)
    }

    /// The data pool of the built table.
    pub open spec fn final_data(&self) -> Seq<u8> {
        table_data(self.columns, self.rows, self.rows.len() as int)
    }

    /// Where the rows start, counted from byte 8.
    pub open spec fn rows_offset(&self) -> int {
        0x18 + schema_size(self.columns, self.columns.len() as int)
    }

    /// Where the string pool starts, counted from byte 8.
    pub open spec fn strings_offset(&self) -> int {
        self.rows_offset() + row_width(self.columns, self.columns.len() as int) * trunc32(
            self.rows.len() as int,
        )
    }

    /// Where the data pool starts, counted from byte 8.
    pub open spec fn data_offset(&self) -> int {
        self.strings_offset() + trunc32(pool_image(self.final_strings()).len() as int)
    }

    /// The table size recorded in the header: everything after byte 8.
    pub open spec fn table_size(&self) -> int {
        self.data_offset() + trunc32(self.final_data().len() as int)
    }

    /// The sizes a table computes in 32 bits stay within them.
    pub open spec fn fits(&self) -> bool {
        &&& self.table_size() <= u32::MAX
        &&& row_width(self.columns, self.columns.len() as int) <= u32::MAX
    }

    /// The 32-byte header: "@UTF", table size, version 1, the offsets of
    /// rows, strings and data, the table name's offset, the column count,
    /// the row width and the row count. The offsets are counted from byte 8,
    /// the rows offset cut to 16 bits.
    pub open spec fn header_image(&self) -> Seq<u8> {
        seq![0x40u8, 0x55, 0x54, 0x46] + be32_bytes(self.table_size()) + be16_bytes(1) + be16_bytes(
            self.rows_offset() % 0x1_0000,
        ) + be32_bytes(self.strings_offset()) + be32_bytes(self.data_offset()) + be32_bytes(
            string_offset(self.final_strings(), self.name),
        ) + be16_bytes(self.columns.len() as int % 0x1_0000) + be16_bytes(
            row_width(self.columns, self.columns.len() as int) % 0x1_0000,
        ) + be32_bytes(trunc32(self.rows.len() as int))
    }

    /// The whole table: header, schema, rows, string pool, data pool.
    pub open spec fn image(&self) -> Seq<u8> {
        self.header_image() + schema_bytes(
            self.final_strings(),
            self.columns,
            self.columns.len() as int,
        ) + rows_bytes(self.final_strings(), self.columns, self.rows, self.rows.len() as int)
            + pool_image(self.final_strings()) + self.final_data()
    }
}

/// A row as (name, value) pairs of mathematical values.
pub open spec fn row_view(row: Seq<(String, Value)>) -> Seq<(Seq<char>, ValueView)> {
    row.map_values(|e: (String, Value)| (e.0@, e.1@))
}

/// Rows as mathematical values.
pub open spec fn rows_view(rows: Seq<Vec<(String, Value)>>) -> Seq<Seq<(Seq<char>, ValueView)>> {
    rows.map_values(|r: Vec<(String, Value)>| row_view(r@))
}

/// Columns as mathematical values.
pub open spec fn cols_view(cols: Seq<ColumnDef>) -> Seq<ColumnView> {
    cols.map_values(|c: ColumnDef| c@)
}

impl View for UtfTableBuilder {
    type V = TableView;

    open spec fn view(&self) -> TableView {
        TableView {
            name: self.table_name@,
            columns: cols_view(self.columns@),
            rows: rows_view(self.rows@),
        }
    }
}

impl UtfTableBuilder {
    pub fn new(table_name: &str) -> (r: Self)
        ensures
            r.table_name@ == table_name@,
            r.columns@.len() == 0,
            r.rows@.len() == 0,
    {
        UtfTableBuilder { table_name: table_name.to_owned(), columns: Vec::new(), rows: Vec::new() }
    }

    pub fn add_column(&mut self, col: ColumnDef)
        ensures
            final(self).table_name == old(self).table_name,
            final(self).columns@ == old(self).columns@.push(col),
            final(self).rows@ == old(self).rows@,
    {
        self.columns.push(col);
    }

    /// Add a row given as (column name, value) entries; a later entry for a
    /// name overrides an earlier one.
    pub fn add_row(&mut self, row: Vec<(String, Value)>)
        ensures
            final(self).table_name == old(self).table_name,
            final(self).columns@ == old(self).columns@,
            final(self).rows@ == old(self).rows@.push(row),
    {
        self.rows.push(row);
    }

    /// Bytes a cell of a column type takes.
    fn value_size(typ: u8) -> (r: u32)
        ensures
            r == value_size(typ),
    {
        if typ == COLUMN_TYPE_1BYTE || typ == COLUMN_TYPE_1BYTE2 {
            1
        } else if typ == COLUMN_TYPE_2BYTE || typ == COLUMN_TYPE_2BYTE2 {
            2
        } else if typ == COLUMN_TYPE_4BYTE || typ == COLUMN_TYPE_4BYTE2 || typ == COLUMN_TYPE_FLOAT
            || typ == COLUMN_TYPE_STRING {
            4
        } else if typ == COLUMN_TYPE_8BYTE || typ == COLUMN_TYPE_DATA {
            8
        } else {
            0
        }
    }

    /// Append the bytes of a cell.
    fn write_value(out: &mut Vec<u8>, val: &Value, pair: Option<(u32, u32)>)
        ensures
            final(out)@ == old(out)@ + value_bytes(val@, pair),
    {
        match val {
            Value::U8(v) => out.push(*v),
            Value::I8(v) => {
                let b: u8 = if *v < 0 { (*v as i16 + 256) as u8 } else { *v as u8 };
                out.push(b);
            },
            Value::U16(v) => write_u16_be(out, *v),
            Value::I16(v) => write_i16_be(out, *v),
            Value::U32(v) => write_u32_be(out, *v),
            Value::I32(v) => write_i32_be(out, *v),
            Value::U64(v) => write_u64_be(out, *v),
            Value::F32(v) => write_u32_be(out, *v),
            Value::String(_) => match pair {
                Some((offset, _)) => write_u32_be(out, offset),
                None => write_u32_be(out, 0),
            },
            Value::Data(_) => match pair {
                Some((offset, size)) => {
                    write_u32_be(out, offset);
                    write_u32_be(out, size);
                },
                None => {
                    write_u32_be(out, 0);
                    write_u32_be(out, 0);
                },
            },
        }
        proof {
            assert(final(out)@ =~= old(out)@ + value_bytes(val@, pair));
        }
    }

    /// Append zeros for a missing cell.
    fn write_default(out: &mut Vec<u8>, typ: u8)
        ensures
            final(out)@ == old(out)@ + zeros(value_size(typ)),
    {
        let size = Self::value_size(typ);
        let mut i: u32 = 0;
        while i < size
            invariant
                i <= size,
                out@ == old(out)@ + zeros(i as int),
            decreases size - i,
        {
            out.push(0);
            i = i + 1;
            proof {
                assert(out@ =~= old(out)@ + zeros(i as int));
            }
        }
    }
}

/// Index of the entry a row holds under `name`: the last one with it.
fn row_find(row: &Vec<(String, Value)>, name: &String) -> (r: Option<usize>)
    ensures
        match r {
            Some(i) => i < row@.len() && row_value(row_view(row@), name@) == Some(row@[i as int].1@),
            None => row_value(row_view(row@), name@) is None,
        },
{
    let ghost rv = row_view(row@);
    let mut i: usize = row.len();
    assert(rv.take(i as int) =~= rv);
    while i > 0
        invariant
            i <= row@.len(),
            rv == row_view(row@),
            row_value(rv, name@) == row_value(rv.take(i as int), name@),
        decreases i,
    {
        proof {
            assert(rv.take(i as int).drop_last() =~= rv.take(i - 1));
            assert(rv[i - 1] == (row@[i - 1].0@, row@[i - 1].1@));
        }
        if row[i - 1].0 == *name {
            return Some(i - 1);
        }
        i = i - 1;
    }
    None
}

/// The references recorded last under `name` among the per-row columns.
fn find_named_pair(cols: &Vec<ColumnDef>, pairs: &Vec<Option<(u32, u32)>>, name: &String) -> (r:
    Option<(u32, u32)>)
    requires
        pairs@.len() == cols@.len(),
    ensures
        r == named_pair(cols_view(cols@), pairs@, name@, cols@.len() as int),
{
    let ghost cv = cols_view(cols@);
    let mut k: usize = cols.len();
    while k > 0
        invariant
            k <= cols@.len(),
            cv == cols_view(cols@),
            pairs@.len() == cols@.len(),
            named_pair(cv, pairs@, name@, cols@.len() as int) == named_pair(
                cv,
                pairs@,
                name@,
                k as int,
            ),
        decreases k,
    {
        let c = &cols[k - 1];
        proof {
            assert(cv[k - 1] == c@);
        }
        let is_row = match c.constant_value {
            Some(_) => false,
            None => true,
        };
        if is_row && c.name == *name {
            match pairs[k - 1] {
                Some(p) => {
                    return Some(p);
                },
                None => {},
            }
        }
        k = k - 1;
    }
    None
}

// ---------------------------------------------------------------------------
// Filling the pools
// ---------------------------------------------------------------------------

/// The strings a constant column refers to are in the pool.
pub open spec fn const_held(cols: Seq<ColumnView>, j: int, ss: Seq<Seq<char>>) -> bool {
    &&& ss.contains(cols[j].name)
    &&& match cols[j].constant {
        Some(ValueView::Str(s)) => ss.contains(s),
        _ => true,
    }
}

/// The string a per-row cell refers to is in the pool.
pub open spec fn cell_held(cols: Seq<ColumnView>, row: Seq<(Seq<char>, ValueView)>, k: int, ss: Seq<Seq<char>>) -> bool {
    cols[k].constant is None ==> match row_value(row, cols[k].name) {
        Some(ValueView::Str(s)) => ss.contains(s),
        _ => true,
    }
}

/// Extending the pool keeps what a constant column refers to.
proof fn lemma_const_stable(cols: Seq<ColumnView>, j: int, ss: Seq<Seq<char>>, ss2: Seq<Seq<char>>)
    requires
        0 <= j < cols.len(),
        extends(ss2, ss),
        const_held(cols, j, ss),
    ensures
        const_held(cols, j, ss2),
        col_pair(cols, j, ss2) == col_pair(cols, j, ss),
        string_offset(ss2, cols[j].name) == string_offset(ss, cols[j].name),
{
    lemma_extends_keeps(ss, ss2, cols[j].name);
    match cols[j].constant {
        Some(ValueView::Str(s)) => lemma_extends_keeps(ss, ss2, s),
        _ => {},
    }
}

/// Extending the pool keeps what a per-row cell refers to.
proof fn lemma_cell_stable(
    cols: Seq<ColumnView>,
    row: Seq<(Seq<char>, ValueView)>,
    k: int,
    ss: Seq<Seq<char>>,
    ss2: Seq<Seq<char>>,
    base: int,
)
    requires
        0 <= k < cols.len(),
        extends(ss2, ss),
        cell_held(cols, row, k, ss),
    ensures
        cell_held(cols, row, k, ss2),
        row_cell_pair(cols, row, k, ss2, base) == row_cell_pair(cols, row, k, ss, base),
{
    if cols[k].constant is None {
        match row_value(row, cols[k].name) {
            Some(ValueView::Str(s)) => lemma_extends_keeps(ss, ss2, s),
            _ => {},
        }
    }
}

/// What the pools of a table hold, with the references into them.
struct Pools {
    strings: StringTable,
    blobs: DataTable,
    table_name_offset: u32,
    name_offsets: Vec<u32>,
    const_pairs: Vec<Option<(u32, u32)>>,
    row_pairs: Vec<Vec<Option<(u32, u32)>>>,
}

impl UtfTableBuilder {
    /// Add the strings and blobs of one row to the pools.
    fn collect_row(
        cols: &Vec<ColumnDef>,
        row: &Vec<(String, Value)>,
        strings: &mut StringTable,
        blobs: &mut DataTable,
    ) -> (pairs: Vec<Option<(u32, u32)>>)
        requires
            old(strings).wf(),
            old(strings).bytes() == pool_image(old(strings).strings()),
        ensures
            final(strings).wf(),
            final(strings).bytes() == pool_image(final(strings).strings()),
            final(strings).strings() == row_strings(cols_view(cols@), row_view(row@), cols@.len() as int, old(strings).strings()),
            extends(final(strings).strings(), old(strings).strings()),
            final(blobs).bytes() == old(blobs).bytes() + row_data(cols_view(cols@), row_view(row@), cols@.len() as int),
            pairs@.len() == cols@.len(),
            forall|k: int|
                0 <= k < cols@.len() ==> cell_held(cols_view(cols@), row_view(row@), k, final(strings).strings()),
            forall|k: int|
                0 <= k < cols@.len() ==> pairs@[k] == row_cell_pair(
                    cols_view(cols@),
                    row_view(row@),
                    k,
                    final(strings).strings(),
                    old(blobs).bytes().len() as int,
                ),
    {
        let ghost cv = cols_view(cols@);
        let ghost rv = row_view(row@);
        let ghost ss0 = strings.strings();
        let ghost base = blobs.bytes().len() as int;
        let ghost b0 = blobs.bytes();
        let n = cols.len();
        let mut pairs: Vec<Option<(u32, u32)>> = Vec::new();
        proof {
            lemma_extends_refl(ss0);
            assert(b0 + row_data(cv, rv, 0) =~= b0);
        }
        let mut k: usize = 0;
        while k < n
            invariant
                n == cols@.len(),
                cv == cols_view(cols@),
                rv == row_view(row@),
                k <= n,
                strings.wf(),
                strings.bytes() == pool_image(strings.strings()),
                strings.strings() == row_strings(cv, rv, k as int, ss0),
                extends(strings.strings(), ss0),
                blobs.bytes() == b0 + row_data(cv, rv, k as int),
                b0.len() == base,
                pairs@.len() == k,
                forall|j: int| 0 <= j < k ==> cell_held(cv, rv, j, strings.strings()),
                forall|j: int|
                    0 <= j < k ==> pairs@[j] == row_cell_pair(
                        cv,
                        rv,
                        j,
                        strings.strings(),
                        base,
                    ),
            decreases n - k,
        {
            let ghost ss = strings.strings();
            let ghost old_pairs = pairs@;
            let col = &cols[k];
            let mut pair: Option<(u32, u32)> = None;
            proof {
                lemma_extends_refl(ss);
                assert(cv[k as int] == col@);
            }
            match col.constant_value {
                Some(_) => {},
                None => match row_find(row, &col.name) {
                    Some(idx) => match &row[idx].1 {
                        Value::String(s) => {
                            let off = strings.add(s.as_str());
                            proof {
                                lemma_add_extends(ss, s@);
                                lemma_add_string_holds(ss, s@);
                            }
                            pair = Some((off, 0));
                        },
                        Value::Data(d) => {
                            let off = blobs.add(d.as_slice());
                            pair = Some((off, (d.len() as u64 % 0x1_0000_0000) as u32));
                        },
                        _ => {},
                    },
                    None => {},
                },
            }
            pairs.push(pair);
            proof {
                let ss2 = strings.strings();
                assert(extends(ss2, ss));
                assert(cell_held(cv, rv, k as int, ss2));
                assert(pairs@[k as int] == row_cell_pair(cv, rv, k as int, ss2, base));
                lemma_extends_trans(ss0, ss, ss2);
                assert(blobs.bytes() =~= b0 + row_data(cv, rv, k + 1));
                assert forall|j: int| 0 <= j < k + 1 implies cell_held(cv, rv, j, ss2) by {
                    if j < k {
                        assert(cell_held(cv, rv, j, ss));
                        lemma_cell_stable(cv, rv, j, ss, ss2, base);
                    }
                }
                assert forall|j: int| 0 <= j < k + 1 implies pairs@[j] == row_cell_pair(
                    cv,
                    rv,
                    j,
                    ss2,
                    base,
                ) by {
                    if j < k {
                        assert(old_pairs[j] == row_cell_pair(cv, rv, j, ss, base));
                        assert(cell_held(cv, rv, j, ss));
                        lemma_cell_stable(cv, rv, j, ss, ss2, base);
                    }
                }
            }
            k = k + 1;
        }
        pairs
    }
}

impl UtfTableBuilder {
    /// Fill the pools in the order the table refers to them: the table
    /// name, each column's name and constant, then each row's strings and
    /// blobs; record the references.
    fn collect_pools(&self) -> (p: Pools)
        ensures
            p.strings.wf(),
            p.strings.bytes() == pool_image(p.strings.strings()),
            p.strings.strings() == self@.final_strings(),
            p.blobs.bytes() == self@.final_data(),
            p.table_name_offset == string_offset(self@.final_strings(), self@.name),
            p.name_offsets@.len() == self.columns@.len(),
            p.const_pairs@.len() == self.columns@.len(),
            forall|j: int|
                0 <= j < self.columns@.len() ==> p.name_offsets@[j] == string_offset(
                    self@.final_strings(),
                    self@.columns[j].name,
                ),
            forall|j: int|
                0 <= j < self.columns@.len() ==> p.const_pairs@[j] == col_pair(
                    self@.columns,
                    j,
                    self@.final_strings(),
                ),
            p.row_pairs@.len() == self.rows@.len(),
            forall|r: int|
                0 <= r < self.rows@.len() ==> p.row_pairs@[r]@ == row_pairs(
                    self@.columns,
                    self@.rows,
                    r,
                    self@.final_strings(),
                ),
    {
        let ghost cols = self@.columns;
        let ghost rows = self@.rows;
        let ghost tn = self.table_name@;
        let mut strings = StringTable::new();
        let mut blobs = DataTable::new();
        let table_name_offset = strings.add(self.table_name.as_str());
        proof {
            lemma_add_string_holds(Seq::empty(), tn);
            assert(blobs.bytes() =~= schema_data(cols, 0));
        }
        let n = self.columns.len();
        let mut name_offsets: Vec<u32> = Vec::new();
        let mut const_pairs: Vec<Option<(u32, u32)>> = Vec::new();
        let mut i: usize = 0;
        while i < n
            invariant
                n == cols.len(),
                n == self.columns@.len(),
                cols == cols_view(self.columns@),
                tn == self.table_name@,
                i <= n,
                strings.wf(),
                strings.bytes() == pool_image(strings.strings()),
                strings.strings() == schema_strings(tn, cols, i as int),
                blobs.bytes() == schema_data(cols, i as int),
                strings.strings().contains(tn),
                table_name_offset == string_offset(strings.strings(), tn),
                name_offsets@.len() == i,
                const_pairs@.len() == i,
                forall|j: int| 0 <= j < i ==> const_held(cols, j, strings.strings()),
                forall|j: int|
                    0 <= j < i ==> name_offsets@[j] == string_offset(
                        strings.strings(),
                        cols[j].name,
                    ),
                forall|j: int|
                    0 <= j < i ==> const_pairs@[j] == col_pair(cols, j, strings.strings()),
            decreases n - i,
        {
            let ghost ss = strings.strings();
            let ghost old_names = name_offsets@;
            let ghost old_consts = const_pairs@;
            let col = &self.columns[i];
            proof {
                assert(cols[i as int] == col@);
            }
            let off = strings.add(col.name.as_str());
            name_offsets.push(off);
            let ghost ss1 = strings.strings();
            proof {
                lemma_add_extends(ss, col.name@);
                lemma_add_string_holds(ss, col.name@);
                lemma_extends_refl(ss1);
            }
            let mut cp: Option<(u32, u32)> = None;
            match &col.constant_value {
                Some(Value::String(s)) => {
                    let o = strings.add(s.as_str());
                    proof {
                        lemma_add_extends(ss1, s@);
                        lemma_add_string_holds(ss1, s@);
                    }
                    cp = Some((o, 0));
                },
                Some(Value::Data(d)) => {
                    let o = blobs.add(d.as_slice());
                    cp = Some((o, (d.len() as u64 % 0x1_0000_0000) as u32));
                },
                _ => {},
            }
            const_pairs.push(cp);
            proof {
                let ss2 = strings.strings();
                assert(extends(ss2, ss1));
                lemma_extends_trans(ss, ss1, ss2);
                lemma_extends_keeps(ss1, ss2, cols[i as int].name);
                lemma_extends_keeps(ss, ss2, tn);
                assert(blobs.bytes() =~= schema_data(cols, i + 1));
                assert(const_held(cols, i as int, ss2));
                assert forall|j: int| 0 <= j < i + 1 implies const_held(cols, j, ss2) by {
                    if j < i {
                        lemma_const_stable(cols, j, ss, ss2);
                    }
                }
                assert forall|j: int| 0 <= j < i + 1 implies name_offsets@[j] == string_offset(
                    ss2,
                    cols[j].name,
                ) by {
                    if j < i {
                        assert(old_names[j] == string_offset(ss, cols[j].name));
                        lemma_const_stable(cols, j, ss, ss2);
                    }
                }
                assert forall|j: int| 0 <= j < i + 1 implies const_pairs@[j] == col_pair(
                    cols,
                    j,
                    ss2,
                ) by {
                    if j < i {
                        assert(old_consts[j] == col_pair(cols, j, ss));
                        lemma_const_stable(cols, j, ss, ss2);
                    }
                }
            }
            i = i + 1;
        }
        let nrows = self.rows.len();
        let mut all_pairs: Vec<Vec<Option<(u32, u32)>>> = Vec::new();
        let mut r: usize = 0;
        while r < nrows
            invariant
                n == cols.len(),
                n == self.columns@.len(),
                cols == cols_view(self.columns@),
                rows == rows_view(self.rows@),
                tn == self.table_name@,
                nrows == rows.len(),
                nrows == self.rows@.len(),
                r <= nrows,
                strings.wf(),
                strings.bytes() == pool_image(strings.strings()),
                strings.strings() == table_strings(tn, cols, rows, r as int),
                blobs.bytes() == table_data(cols, rows, r as int),
                strings.strings().contains(tn),
                table_name_offset == string_offset(strings.strings(), tn),
                name_offsets@.len() == n,
                const_pairs@.len() == n,
                forall|j: int| 0 <= j < n ==> const_held(cols, j, strings.strings()),
                forall|j: int|
                    0 <= j < n ==> name_offsets@[j] == string_offset(
                        strings.strings(),
                        cols[j].name,
                    ),
                forall|j: int|
                    0 <= j < n ==> const_pairs@[j] == col_pair(cols, j, strings.strings()),
                all_pairs@.len() == r,
                forall|q: int| 0 <= q < r ==> (#[trigger] all_pairs@[q])@.len() == n,
                forall|q: int, k: int|
                    0 <= q < r && 0 <= k < n ==> cell_held(cols, rows[q], k, strings.strings()),
                forall|q: int, k: int|
                    0 <= q < r && 0 <= k < n ==> all_pairs@[q]@[k] == cell_pair(
                        cols,
                        rows,
                        q,
                        k,
                        strings.strings(),
                    ),
            decreases nrows - r,
        {
            let ghost ss = strings.strings();
            let ghost old_all = all_pairs@;
            proof {
                assert(rows[r as int] == row_view(self.rows@[r as int]@));
            }
            let pairs = Self::collect_row(&self.columns, &self.rows[r], &mut strings, &mut blobs);
            all_pairs.push(pairs);
            proof {
                let ss2 = strings.strings();
                lemma_extends_keeps(ss, ss2, tn);
                assert(blobs.bytes() =~= table_data(cols, rows, r + 1));
                assert forall|j: int| 0 <= j < n implies const_held(cols, j, ss2) by {
                    lemma_const_stable(cols, j, ss, ss2);
                }
                assert forall|j: int| 0 <= j < n implies name_offsets@[j] == string_offset(
                    ss2,
                    cols[j].name,
                ) by {
                    lemma_const_stable(cols, j, ss, ss2);
                }
                assert forall|j: int| 0 <= j < n implies const_pairs@[j] == col_pair(
                    cols,
                    j,
                    ss2,
                ) by {
                    lemma_const_stable(cols, j, ss, ss2);
                }
                assert forall|q: int| 0 <= q < r + 1 implies (#[trigger] all_pairs@[q])@.len()
                    == n by {
                    if q < r {
                        assert(old_all[q]@.len() == n);
                    }
                }
                assert forall|q: int, k: int| 0 <= q < r + 1 && 0 <= k < n implies cell_held(
                    cols,
                    rows[q],
                    k,
                    ss2,
                ) by {
                    if q < r {
                        assert(cell_held(cols, rows[q], k, ss));
                        lemma_cell_stable(
                            cols,
                            rows[q],
                            k,
                            ss,
                            ss2,
                            table_data(cols, rows, q).len() as int,
                        );
                    }
                }
                assert forall|q: int, k: int| 0 <= q < r + 1 && 0 <= k < n implies all_pairs@[q]@[k]
                    == cell_pair(cols, rows, q, k, ss2) by {
                    if q < r {
                        assert(old_all[q]@[k] == cell_pair(cols, rows, q, k, ss));
                        assert(cell_held(cols, rows[q], k, ss));
                        lemma_cell_stable(
                            cols,
                            rows[q],
                            k,
                            ss,
                            ss2,
                            table_data(cols, rows, q).len() as int,
                        );
                    }
                }
            }
            r = r + 1;
        }
        proof {
            let fs = strings.strings();
            assert forall|q: int| 0 <= q < nrows implies all_pairs@[q]@ == row_pairs(
                cols,
                rows,
                q,
                fs,
            ) by {
                assert(all_pairs@[q]@.len() == n);
                assert(all_pairs@[q]@ =~= row_pairs(cols, rows, q, fs));
            }
        }
        Pools {
            strings,
            blobs,
            table_name_offset,
            name_offsets,
            const_pairs,
            row_pairs: all_pairs,
        }
    }
}

/// Schema size and row width grow with the columns counted, from zero.
proof fn lemma_sizes_mono(cols: Seq<ColumnView>, k: int, m: int)
    requires
        0 <= k <= m <= cols.len(),
    ensures
        0 <= schema_size(cols, k) <= schema_size(cols, m),
        0 <= row_width(cols, k) <= row_width(cols, m),
    decreases m - k,
{
    if k < m {
        lemma_sizes_mono(cols, k, m - 1);
    } else {
        lemma_sizes_nonneg(cols, k);
    }
}

pub(crate) proof fn lemma_sizes_nonneg(cols: Seq<ColumnView>, k: int)
    ensures
        0 <= schema_size(cols, k),
        0 <= row_width(cols, k),
    decreases k,
{
    if k > 0 {
        lemma_sizes_nonneg(cols, k - 1);
    }
}

impl UtfTableBuilder {
    /// Whether the table's sizes fit in 32 bits, as `build` requires: the
    /// pools are filled to learn their sizes, then the header's sizes are
    /// summed without overflow.
    pub fn sizes_fit(&self) -> (r: bool)
        ensures
            r == self@.fits(),
    {
        let p = self.collect_pools();
        let ghost cols = self@.columns;
        let n = self.columns.len();
        let mut schema: u64 = 0;
        let mut width: u64 = 0;
        let mut i: usize = 0;
        while i < n
            invariant
                n == cols.len(),
                n == self.columns@.len(),
                cols == cols_view(self.columns@),
                i <= n,
                schema == schema_size(cols, i as int),
                width == row_width(cols, i as int),
                schema <= u32::MAX,
                width <= u32::MAX,
            decreases n - i,
        {
            let col = &self.columns[i];
            let sz = Self::value_size(col.typ) as u64;
            proof {
                assert(value_size(cols[i as int].typ) <= 8);
            }
            match col.constant_value {
                Some(_) => {
                    schema = schema + 5 + sz;
                },
                None => {
                    schema = schema + 5;
                    width = width + sz;
                },
            }
            i = i + 1;
            if schema > 0xFFFF_FFFF || width > 0xFFFF_FFFF {
                proof {
                    lemma_sizes_mono(cols, i as int, n as int);
                    lemma_sizes_nonneg(cols, n as int);
                    let t = self@;
                    assert(row_width(cols, n as int) * trunc32(t.rows.len() as int) >= 0)
                        by (nonlinear_arith)
                        requires
                            row_width(cols, n as int) >= 0,
                            trunc32(t.rows.len() as int) >= 0,
                    ;
                }
                return false;
            }
        }
        let nrows32: u128 = (self.rows.len() as u64 % 0x1_0000_0000) as u128;
        let spool: u128 = (p.strings.len() as u64 % 0x1_0000_0000) as u128;
        let dpool: u128 = (p.blobs.len() as u64 % 0x1_0000_0000) as u128;
        proof {
            assert(width as int * nrows32 as int <= 0xFFFF_FFFF * 0xFFFF_FFFF) by (nonlinear_arith)
                requires
                    width <= 0xFFFF_FFFF,
                    nrows32 <= 0xFFFF_FFFF,
            ;
        }
        let total: u128 = 0x18 + schema as u128 + width as u128 * nrows32 + spool + dpool;
        total <= 0xFFFF_FFFF
    }

    /// Build the table image when its sizes fit in 32 bits; none otherwise.
    pub fn build_checked(&self) -> (r: Option<Vec<u8>>)
        ensures
            self@.fits() ==> (r matches Some(v) && v@ == self@.image()),
            !self@.fits() ==> r is None,
    {
        if self.sizes_fit() {
            Some(self.build())
        } else {
            None
        }
    }

    /// Build the table image: header, schema, rows, string pool and data
    /// pool.
    pub fn build(&self) -> (r: Vec<u8>)
        requires
            self@.fits(),
        ensures
            r@ == self@.image(),
            ascii_faithful(self@.final_strings()),
    {
        let p = self.collect_pools();
        proof {
            p.strings.lemma_wf_ascii();
        }
        let ghost cols = self@.columns;
        let ghost rows = self@.rows;
        let ghost fs = self@.final_strings();
        let n = self.columns.len();
        let nrows = self.rows.len();
        let mut schema_len: u32 = 0;
        let mut width: u32 = 0;
        let mut i: usize = 0;
        while i < n
            invariant
                n == cols.len(),
                n == self.columns@.len(),
                cols == cols_view(self.columns@),
                self@.fits(),
                i <= n,
                schema_len == schema_size(cols, i as int),
                width == row_width(cols, i as int),
            decreases n - i,
        {
            proof {
                lemma_sizes_mono(cols, i + 1, n as int);
                lemma_sizes_nonneg(cols, n as int);
            }
            let col = &self.columns[i];
            let sz = Self::value_size(col.typ);
            match col.constant_value {
                Some(_) => {
                    schema_len = schema_len + 5 + sz;
                },
                None => {
                    schema_len = schema_len + 5;
                    width = width + sz;
                },
            }
            i = i + 1;
        }
        let nrows32: u32 = (nrows as u64 % 0x1_0000_0000) as u32;
        proof {
            lemma_sizes_nonneg(cols, n as int);
            assert(width as int * nrows32 as int >= 0) by (nonlinear_arith);
        }
        let rows_size: u32 = width * nrows32;
        let rows_offset: u32 = 0x18 + schema_len;
        let strings_offset: u32 = rows_offset + rows_size;
        let strings_len: u32 = (p.strings.len() as u64 % 0x1_0000_0000) as u32;
        let data_offset: u32 = strings_offset + strings_len;
        let data_len: u32 = (p.blobs.len() as u64 % 0x1_0000_0000) as u32;
        let table_size: u32 = data_offset + data_len;
        let mut out: Vec<u8> = Vec::new();
        out.push(0x40);
        out.push(0x55);
        out.push(0x54);
        out.push(0x46);
        write_u32_be(&mut out, table_size);
        write_u16_be(&mut out, 1);
        write_u16_be(&mut out, (rows_offset % 0x1_0000) as u16);
        write_u32_be(&mut out, strings_offset);
        write_u32_be(&mut out, data_offset);
        write_u32_be(&mut out, p.table_name_offset);
        write_u16_be(&mut out, (n % 0x1_0000) as u16);
        write_u16_be(&mut out, (width % 0x1_0000) as u16);
        write_u32_be(&mut out, nrows32);
        let ghost head = out@;
        proof {
            assert(head =~= self@.header_image());
            assert(out@ =~= head + schema_bytes(fs, cols, 0));
        }
        let mut i: usize = 0;
        while i < n
            invariant
                n == cols.len(),
                n == self.columns@.len(),
                cols == cols_view(self.columns@),
                fs == self@.final_strings(),
                i <= n,
                p.name_offsets@.len() == n,
                p.const_pairs@.len() == n,
                forall|j: int| 0 <= j < n ==> p.name_offsets@[j] == string_offset(fs, cols[j].name),
                forall|j: int| 0 <= j < n ==> p.const_pairs@[j] == col_pair(cols, j, fs),
                out@ == head + schema_bytes(fs, cols, i as int),
            decreases n - i,
        {
            let col = &self.columns[i];
            proof {
                assert(cols[i as int] == col@);
            }
            out.push(col.flag | col.typ);
            write_u32_be(&mut out, p.name_offsets[i]);
            match &col.constant_value {
                Some(v) => Self::write_value(&mut out, v, p.const_pairs[i]),
                None => {},
            }
            i = i + 1;
            proof {
                assert(out@ =~= head + schema_bytes(fs, cols, i as int));
            }
        }
        let ghost mid = out@;
        proof {
            assert(out@ =~= mid + rows_bytes(fs, cols, rows, 0));
        }
        let mut r: usize = 0;
        while r < nrows
            invariant
                n == cols.len(),
                n == self.columns@.len(),
                cols == cols_view(self.columns@),
                rows == rows_view(self.rows@),
                nrows == rows.len(),
                nrows == self.rows@.len(),
                fs == self@.final_strings(),
                r <= nrows,
                p.row_pairs@.len() == nrows,
                forall|q: int| 0 <= q < nrows ==> p.row_pairs@[q]@ == row_pairs(cols, rows, q, fs),
                out@ == mid + rows_bytes(fs, cols, rows, r as int),
            decreases nrows - r,
        {
            let row = &self.rows[r];
            let ghost start = out@;
            proof {
                assert(out@ =~= start + row_bytes(fs, cols, rows, r as int, 0));
            }
            let mut k: usize = 0;
            while k < n
                invariant
                    n == cols.len(),
                n == self.columns@.len(),
                    cols == cols_view(self.columns@),
                    rows == rows_view(self.rows@),
                    fs == self@.final_strings(),
                    r < nrows,
                    nrows == rows.len(),
                nrows == self.rows@.len(),
                    row == &self.rows@[r as int],
                    p.row_pairs@.len() == nrows,
                    p.row_pairs@[r as int]@ == row_pairs(cols, rows, r as int, fs),
                    k <= n,
                    out@ == start + row_bytes(fs, cols, rows, r as int, k as int),
                decreases n - k,
            {
                let col = &self.columns[k];
                proof {
                    assert(cols[k as int] == col@);
                    assert(rows[r as int] == row_view(row@));
                }
                match col.constant_value {
                    Some(_) => {},
                    None => match row_find(row, &col.name) {
                        Some(idx) => {
                            let pair = find_named_pair(&self.columns, &p.row_pairs[r], &col.name);
                            Self::write_value(&mut out, &row[idx].1, pair);
                        },
                        None => Self::write_default(&mut out, col.typ),
                    },
                }
                k = k + 1;
                proof {
                    assert(out@ =~= start + row_bytes(fs, cols, rows, r as int, k as int));
                }
            }
            r = r + 1;
            proof {
                assert(out@ =~= mid + rows_bytes(fs, cols, rows, r as int));
            }
        }
        out.extend_from_slice(p.strings.data());
        out.extend_from_slice(p.blobs.data());
        proof {
            assert(out@ =~= self@.image());
        }
        out
    }
}

} // verus!
