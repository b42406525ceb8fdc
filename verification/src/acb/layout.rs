//! Where a reader of a built @UTF table finds its parts: the header's
//! offsets, counted from byte 8, point at the rows, the string pool and the
//! data pool as the builder laid them out.

use crate::acb::builder::zeros;
use crate::acb::strings::{pool_image, trunc32};
use crate::acb::table::{
    row_bytes, row_value, row_width, rows_bytes, schema_bytes, schema_size, value_bytes,
    value_size, value_type, ColumnView, TableView,
};
use crate::acb::utf::ValueView;
use crate::reader::{be16, be16_bytes, be32, be32_bytes, law_be16_reads_back, law_be32_reads_back};
use vstd::prelude::*;

verus! {

/// Every value of a table has its column's type: a constant column's value
/// and each row's value under a per-row column.
pub open spec fn well_typed(t: TableView) -> bool {
    &&& forall|j: int|
        0 <= j < t.columns.len() ==> ((#[trigger] t.columns[j]).constant matches Some(v)
            ==> value_type(v) == t.columns[j].typ)
    &&& forall|r: int, j: int|
        0 <= r < t.rows.len() && 0 <= j < t.columns.len() && t.columns[j].constant is None
            ==> (row_value(#[trigger] t.rows[r], #[trigger] t.columns[j].name) matches Some(v)
            ==> value_type(v) == t.columns[j].typ)
}

proof fn lemma_value_len(v: ValueView, pair: Option<(u32, u32)>)
    ensures
        value_bytes(v, pair).len() == value_size(value_type(v)),
{
}

proof fn lemma_schema_len(fs: Seq<Seq<char>>, cols: Seq<ColumnView>, k: int)
    requires
        k <= cols.len(),
        forall|j: int|
            0 <= j < cols.len() ==> ((#[trigger] cols[j]).constant matches Some(v) ==> value_type(v)
                == cols[j].typ),
    ensures
        schema_bytes(fs, cols, k).len() == schema_size(cols, k),
    decreases k,
{
    if k > 0 {
        lemma_schema_len(fs, cols, k - 1);
        let c = cols[k - 1];
        if let Some(v) = c.constant {
            lemma_value_len(v, crate::acb::table::col_pair(cols, k - 1, fs));
        }
    }
}

proof fn lemma_row_len(
    fs: Seq<Seq<char>>,
    t: TableView,
    r: int,
    k: int,
)
    requires
        well_typed(t),
        0 <= r < t.rows.len(),
        k <= t.columns.len(),
    ensures
        row_bytes(fs, t.columns, t.rows, r, k).len() == row_width(t.columns, k),
    decreases k,
{
    if k > 0 {
        lemma_row_len(fs, t, r, k - 1);
        let c = t.columns[k - 1];
        if c.constant is None {
            match row_value(t.rows[r], c.name) {
                Some(v) => {
                    lemma_value_len(
                        v,
                        crate::acb::table::named_pair(
                            t.columns,
                            crate::acb::table::row_pairs(t.columns, t.rows, r, fs),
                            c.name,
                            t.columns.len() as int,
                        ),
                    );
                },
                None => {
                    assert(value_size(c.typ) >= 0);
                    assert(zeros(value_size(c.typ)).len() == value_size(c.typ));
                },
            }
        }
    }
}

proof fn lemma_rows_len(fs: Seq<Seq<char>>, t: TableView, r: int)
    requires
        well_typed(t),
        0 <= r <= t.rows.len(),
    ensures
        rows_bytes(fs, t.columns, t.rows, r).len() == r * row_width(
            t.columns,
            t.columns.len() as int,
        ),
    decreases r,
{
    let w = row_width(t.columns, t.columns.len() as int);
    if r > 0 {
        lemma_rows_len(fs, t, r - 1);
        lemma_row_len(fs, t, r - 1, t.columns.len() as int);
        assert((r - 1) * w + w == r * w) by (nonlinear_arith);
    } else {
        assert(r * w == 0) by (nonlinear_arith)
            requires
                r == 0,
        ;
    }
}

proof fn lemma_cat(x: Seq<u8>, y: Seq<u8>)
    ensures
        (x + y).subrange(0, x.len() as int) == x,
        (x + y).subrange(x.len() as int, (x + y).len() as int) == y,
{
    assert((x + y).subrange(0, x.len() as int) =~= x);
    assert((x + y).subrange(x.len() as int, (x + y).len() as int) =~= y);
}

proof fn lemma_prefix(x: Seq<u8>, y: Seq<u8>, i: int, j: int)
    requires
        0 <= i <= j <= x.len(),
    ensures
        (x + y).subrange(i, j) == x.subrange(i, j),
{
    assert((x + y).subrange(i, j) =~= x.subrange(i, j));
}

pub(crate) proof fn lemma_be32_at(s: Seq<u8>, p: int, x: int)
    requires
        0 <= p,
        p + 4 <= s.len(),
        0 <= x <= u32::MAX,
        s.subrange(p, p + 4) == be32_bytes(x),
    ensures
        be32(s.skip(p)) == x,
{
    let b = be32_bytes(x);
    assert(s.skip(p)[0] == b[0] && s.skip(p)[1] == b[1] && s.skip(p)[2] == b[2] && s.skip(p)[3]
        == b[3]) by {
        assert(s.subrange(p, p + 4)[0] == s[p]);
        assert(s.subrange(p, p + 4)[1] == s[p + 1]);
        assert(s.subrange(p, p + 4)[2] == s[p + 2]);
        assert(s.subrange(p, p + 4)[3] == s[p + 3]);
    }
    law_be32_reads_back(x as u32);
}

pub(crate) proof fn lemma_be16_at(s: Seq<u8>, p: int, x: int)
    requires
        0 <= p,
        p + 2 <= s.len(),
        0 <= x <= u16::MAX,
        s.subrange(p, p + 2) == be16_bytes(x),
    ensures
        be16(s.skip(p)) == x,
{
    let b = be16_bytes(x);
    assert(s.skip(p)[0] == b[0] && s.skip(p)[1] == b[1]) by {
        assert(s.subrange(p, p + 2)[0] == s[p]);
        assert(s.subrange(p, p + 2)[1] == s[p + 1]);
    }
    law_be16_reads_back(x as u16);
}

proof fn lemma_header_fields(t: TableView)
    requires
        t.fits(),
    ensures
        t.header_image().len() == 32,
        t.header_image().subrange(0, 4) == seq![0x40u8, 0x55, 0x54, 0x46],
        t.header_image().subrange(4, 8) == be32_bytes(t.table_size()),
        t.header_image().subrange(10, 12) == be16_bytes(t.rows_offset() % 0x1_0000),
        t.header_image().subrange(12, 16) == be32_bytes(t.strings_offset()),
        t.header_image().subrange(16, 20) == be32_bytes(t.data_offset()),
{
    let h = t.header_image();
    assert(h.subrange(0, 4) =~= seq![0x40u8, 0x55, 0x54, 0x46]);
    assert(h.subrange(4, 8) =~= be32_bytes(t.table_size()));
    assert(h.subrange(10, 12) =~= be16_bytes(t.rows_offset() % 0x1_0000));
    assert(h.subrange(12, 16) =~= be32_bytes(t.strings_offset()));
    assert(h.subrange(16, 20) =~= be32_bytes(t.data_offset()));
}

proof fn lemma_part_lens(t: TableView)
    requires
        t.fits(),
        well_typed(t),
        pool_image(t.final_strings()).len() <= u32::MAX,
        t.final_data().len() <= u32::MAX,
        t.rows.len() <= u32::MAX,
    ensures
        schema_bytes(t.final_strings(), t.columns, t.columns.len() as int).len() + 8 + 24
            == 8 + t.rows_offset(),
        8 + t.rows_offset() + rows_bytes(
            t.final_strings(),
            t.columns,
            t.rows,
            t.rows.len() as int,
        ).len() == 8 + t.strings_offset(),
        8 + t.strings_offset() + pool_image(t.final_strings()).len() == 8 + t.data_offset(),
        8 + t.data_offset() + t.final_data().len() == 8 + t.table_size(),
        0 <= t.rows_offset() <= t.strings_offset() <= t.data_offset() <= t.table_size()
            <= u32::MAX,
{
    let fs = t.final_strings();
    let n = t.columns.len() as int;
    lemma_schema_len(fs, t.columns, n);
    lemma_rows_len(fs, t, t.rows.len() as int);
    crate::acb::table::lemma_sizes_nonneg(t.columns, n);
    assert(trunc32(t.rows.len() as int) == t.rows.len());
    assert(0 <= row_width(t.columns, n) * t.rows.len()) by (nonlinear_arith)
        requires
            0 <= row_width(t.columns, n),
    ;
}

proof fn lemma_head(t: TableView, i: int, j: int)
    requires
        0 <= i <= j <= 32,
        t.header_image().len() == 32,
    ensures
        t.image().subrange(i, j) == t.header_image().subrange(i, j),
{
    let fs = t.final_strings();
    let n = t.columns.len() as int;
    let h = t.header_image();
    let sb = schema_bytes(fs, t.columns, n);
    let rb = rows_bytes(fs, t.columns, t.rows, t.rows.len() as int);
    let pb = pool_image(fs);
    let db = t.final_data();
    let a1 = h + sb;
    let a2 = a1 + rb;
    let a3 = a2 + pb;
    assert(t.image() == a3 + db);
    lemma_prefix(a3, db, i, j);
    lemma_prefix(a2, pb, i, j);
    lemma_prefix(a1, rb, i, j);
    lemma_prefix(h, sb, i, j);
}

/// The parts of a built @UTF table stand where its offsets, counted from
/// byte 8, say: the schema right after the 32-byte header, then the rows,
/// the string pool and the data pool, and the table runs to byte 8 plus its
/// size. Values that do not have their column's type, and pools or a row
/// count of 2^32 or more, would shift or wrap the offsets and are left out.
pub proof fn law_utf_parts_in_place(t: TableView)
    requires
        t.fits(),
        well_typed(t),
        pool_image(t.final_strings()).len() <= u32::MAX,
        t.final_data().len() <= u32::MAX,
        t.rows.len() <= u32::MAX,
    ensures
        t.image().len() == 8 + t.table_size(),
        t.image().subrange(32, 8 + t.rows_offset()) == schema_bytes(
            t.final_strings(),
            t.columns,
            t.columns.len() as int,
        ),
        t.image().subrange(8 + t.rows_offset(), 8 + t.strings_offset()) == rows_bytes(
            t.final_strings(),
            t.columns,
            t.rows,
            t.rows.len() as int,
        ),
        t.image().subrange(8 + t.strings_offset(), 8 + t.data_offset()) == pool_image(
            t.final_strings(),
        ),
        t.image().subrange(8 + t.data_offset(), t.image().len() as int) == t.final_data(),
{
    let fs = t.final_strings();
    let n = t.columns.len() as int;
    let h = t.header_image();
    let sb = schema_bytes(fs, t.columns, n);
    let rb = rows_bytes(fs, t.columns, t.rows, t.rows.len() as int);
    let pb = pool_image(fs);
    let db = t.final_data();
    let a1 = h + sb;
    let a2 = a1 + rb;
    let a3 = a2 + pb;
    assert(t.image() == a3 + db);
    lemma_header_fields(t);
    lemma_part_lens(t);
    let ro = t.rows_offset();
    let so = t.strings_offset();
    lemma_cat(a3, db);
    lemma_cat(a2, pb);
    lemma_cat(a1, rb);
    lemma_cat(h, sb);
    lemma_prefix(a3, db, 8 + ro, 8 + so);
    lemma_prefix(a3, db, 32, 8 + ro);
    lemma_prefix(a2, pb, 32, 8 + ro);
}

/// The header of a built @UTF table, read as a reader reads it: "@UTF",
/// then the table size at byte 4, and at bytes 10, 12 and 16 the rows
/// offset (cut to 16 bits), the strings offset and the data offset, each
/// counted from byte 8.
pub proof fn law_utf_header_reads_back(t: TableView)
    requires
        t.fits(),
    ensures
        t.image().subrange(0, 4) == seq![0x40u8, 0x55, 0x54, 0x46],
        be32(t.image().skip(4)) == t.table_size(),
        be16(t.image().skip(10)) == t.rows_offset() % 0x1_0000,
        be32(t.image().skip(12)) == t.strings_offset(),
        be32(t.image().skip(16)) == t.data_offset(),
{
    let img = t.image();
    lemma_header_fields(t);
    crate::acb::table::lemma_sizes_nonneg(t.columns, t.columns.len() as int);
    assert(0 <= t.rows_offset() <= t.strings_offset() <= t.data_offset() <= t.table_size());
    lemma_head(t, 0, 4);
    lemma_head(t, 4, 8);
    lemma_head(t, 10, 12);
    lemma_head(t, 12, 16);
    lemma_head(t, 16, 20);
    lemma_be32_at(img, 4, t.table_size());
    lemma_be16_at(img, 10, t.rows_offset() % 0x1_0000);
    lemma_be32_at(img, 12, t.strings_offset());
    lemma_be32_at(img, 16, t.data_offset());
}

} // verus!
