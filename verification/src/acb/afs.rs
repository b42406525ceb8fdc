//! AFS2 (AWB) archive parser.
//!
//! Layout: "AFS2", four version bytes (byte 1: offset width, byte 2: cue id
//! width), file count (LE u32), alignment (LE u32), then at 0x10 the cue id
//! table, then `count + 1` offsets. Each file starts at its offset rounded up
//! to the alignment and ends at the next offset.

use crate::reader::{align, io_text, le16, le32, signed32, spec_align, IoError, Reader, SeekFrom};
use vstd::prelude::*;
use crate::decimal::{decimal, push_decimal};

verus! {

/// Errors of AFS2 parsing and lookup.
#[derive(Debug, Clone, Copy, PartialEq, Eq, Structural)]
pub enum AfsError {
    /// The data ended early.
    Io(IoError),
    /// The first four bytes are not "AFS2".
    BadMagic,
    /// No file has the cue id, and the fallback does not apply.
    CueNotFound(i32),
}

impl AfsError {
    /// Human-readable message.
    pub fn message(&self) -> (r: String)
        ensures
            r@ == match self {
                AfsError::Io(e) => "IO error: "@ + io_text(*e),
                AfsError::BadMagic => "Invalid AFS2 magic"@,
                AfsError::CueNotFound(id) => "Cue ID "@ + decimal(*id as int) + " not found in archive"@,
            },
    {
        match self {
            AfsError::Io(e) => e.message(),
            AfsError::BadMagic => String::from_str("Invalid AFS2 magic"),
            AfsError::CueNotFound(id) => {
                let mut m = String::from_str("Cue ID ");
                push_decimal(&mut m, *id);
                m.append(" not found in archive");
                m
            },
        }
    }
}

/// A file entry in an AFS2 archive.
#[derive(Debug, Clone, Copy, PartialEq, Eq, Structural)]
pub struct AfsFileEntry {
    pub cue_id: i32,
    pub offset: u32,
    pub size: u32,
}

/// The magic "AFS2" read big-endian.
pub const AFS2_MAGIC: u32 = 0x4146_5332;

/// Mask applied to each offset, from the offset width in bytes.
pub open spec fn offset_mask(width: u8) -> u32 {
    if width == 0 {
        0
    } else if width == 1 {
        0xFF
    } else if width == 2 {
        0xFFFF
    } else if width == 3 {
        0xFF_FFFF
    } else {
        0xFFFF_FFFF
    }
}

/// Bytes per cue id: two when the version byte says so, four otherwise.
pub open spec fn cue_id_width(d: Seq<u8>) -> int {
    if d[6] == 2 { 2 } else { 4 }
}

/// Bytes per offset: two when the version byte says so, four otherwise.
pub open spec fn offset_width(d: Seq<u8>) -> int {
    if d[5] == 2 { 2 } else { 4 }
}

/// Number of files announced by the header.
pub open spec fn afs_count(d: Seq<u8>) -> int {
    le32(d.skip(8))
}

/// Alignment announced by the header.
pub open spec fn afs_alignment(d: Seq<u8>) -> u32 {
    le32(d.skip(12)) as u32
}

/// Start of the offset table.
pub open spec fn offsets_start(d: Seq<u8>) -> int {
    0x10 + afs_count(d) * cue_id_width(d)
}

/// End of the offset table.
pub open spec fn tables_end(d: Seq<u8>) -> int {
    offsets_start(d) + (afs_count(d) + 1) * offset_width(d)
}

/// The `i`-th cue id.
pub open spec fn afs_cue_id(d: Seq<u8>, i: int) -> i32 {
    let at = 0x10 + i * cue_id_width(d);
    if cue_id_width(d) == 2 {
        le16(d.skip(at)) as i32
    } else {
        signed32(le32(d.skip(at))) as i32
    }
}

/// The `i`-th raw offset, masked.
pub open spec fn afs_offset(d: Seq<u8>, i: int) -> u32 {
    let at = offsets_start(d) + i * offset_width(d);
    let raw: u32 = if offset_width(d) == 2 {
        le16(d.skip(at)) as u32
    } else {
        le32(d.skip(at)) as u32
    };
    raw & offset_mask(d[5])
}

/// How parsing an archive ends: the error, or unit when the header and both
/// tables are present.
pub open spec fn afs_header_result(d: Seq<u8>) -> Result<(), AfsError> {
    if d.len() < 4 {
        Err(AfsError::Io(IoError::UnexpectedEof))
    } else if crate::reader::be32(d) != AFS2_MAGIC {
        Err(AfsError::BadMagic)
    } else if d.len() < 0x10 || tables_end(d) > d.len() {
        Err(AfsError::Io(IoError::UnexpectedEof))
    } else {
        Ok(())
    }
}

/// The `i`-th entry: it starts at its offset rounded up to the alignment and
/// ends at the next offset.
pub open spec fn afs_entry(d: Seq<u8>, i: int) -> AfsFileEntry {
    let start = spec_align(afs_alignment(d) as int, afs_offset(d, i) as int);
    AfsFileEntry {
        cue_id: afs_cue_id(d, i),
        offset: start as u32,
        size: (afs_offset(d, i + 1) - start) as u32,
    }
}

/// All entries of a well-formed archive.
pub open spec fn afs_entries(d: Seq<u8>) -> Seq<AfsFileEntry> {
    Seq::new(afs_count(d) as nat, |i: int| afs_entry(d, i))
}

/// Every file's aligned start stays at or below the next offset, so no
/// size underflows.
pub open spec fn afs_sizes_fit(d: Seq<u8>) -> bool {
    afs_header_result(d) is Ok ==> forall|i: int|
        0 <= i < afs_count(d) ==> #[trigger] spec_align(afs_alignment(d) as int, afs_offset(d, i) as int)
            <= afs_offset(d, i + 1)
}

/// AFS2 archive over its bytes.
pub struct AfsArchive {
    pub alignment: u32,
    pub files: Vec<AfsFileEntry>,
    reader: Reader,
}

impl AfsArchive {
    /// The archive's bytes.
    pub closed spec fn data(&self) -> Seq<u8> {
        self.reader.data()
    }

    /// The parsed file entries.
    pub closed spec fn entries(&self) -> Seq<AfsFileEntry> {
        self.files@
    }

    /// The parsed alignment.
    pub closed spec fn alignment_value(&self) -> u32 {
        self.alignment
    }

    /// Read the header and the cue id and offset tables.
    fn read_tables(r: Vec<u8>) -> (res: Result<(Reader, u32, Vec<i32>, Vec<u32>), AfsError>)
        ensures
            match afs_header_result(r@) {
                Ok(()) => res matches Ok((buf, alignment, cue_ids, offsets)) && {
                    &&& r@.len() >= 0x10
                    &&& buf.data() == r@
                    &&& alignment == afs_alignment(r@)
                    &&& cue_ids@.len() == afs_count(r@)
                    &&& offsets@.len() == afs_count(r@) + 1
                    &&& forall|j: int| 0 <= j < afs_count(r@) ==> cue_ids@[j] == afs_cue_id(r@, j)
                    &&& forall|j: int| 0 <= j <= afs_count(r@) ==> offsets@[j] == afs_offset(r@, j)
                },
                Err(e) => res == Err::<(Reader, u32, Vec<i32>, Vec<u32>), AfsError>(e),
            },
    {
        let ghost d = r@;
        let mut buf = Reader::new(r);
        let magic = match buf.read_u32() {
            Ok(m) => m,
            Err(e) => return Err(AfsError::Io(e)),
        };
        if magic != AFS2_MAGIC {
            return Err(AfsError::BadMagic);
        }
        let version = match buf.read_bytes(4) {
            Ok(v) => v,
            Err(e) => return Err(AfsError::Io(e)),
        };
        let file_count = match buf.read_u32_le() {
            Ok(v) => v,
            Err(e) => return Err(AfsError::Io(e)),
        };
        let alignment = match buf.read_u32_le() {
            Ok(v) => v,
            Err(e) => return Err(AfsError::Io(e)),
        };
        proof {
            assert(d.skip(4).take(4)[2] == d[6]);
            assert(d.skip(4).take(4)[1] == d[5]);
        }
        let cue_id_size = version[2];
        let offset_size = version[1];
        let offset_mask: u32 = if offset_size == 0 {
            0
        } else if offset_size == 1 {
            0xFF
        } else if offset_size == 2 {
            0xFFFF
        } else if offset_size == 3 {
            0xFF_FFFF
        } else {
            0xFFFF_FFFF
        };

        let _ = buf.seek(SeekFrom::Start(0x10));
        let ghost cw = cue_id_width(d);
        let ghost ow = offset_width(d);

        let mut cue_ids: Vec<i32> = Vec::new();
        let mut i: u32 = 0;
        while i < file_count
            invariant
                buf.data() == d,
                d == r@,
                d.len() >= 0x10,
                crate::reader::be32(d) == AFS2_MAGIC,
                i <= file_count,
                file_count == afs_count(d),
                cw == cue_id_width(d),
                cue_id_size == d[6],
                buf.pos() == 0x10 + i * cw,
                cue_ids@.len() == i,
                forall|j: int| 0 <= j < i ==> cue_ids@[j] == afs_cue_id(d, j),
            decreases file_count - i,
        {
            let ghost p = buf.pos();
            let cue_id: i32 = if cue_id_size == 2 {
                match buf.read_u16_le() {
                    Ok(v) => v as i32,
                    Err(e) => {
                        proof { lemma_table_short(d, i as int, cw, p); }
                        return Err(AfsError::Io(e));
                    },
                }
            } else {
                match buf.read_u32_le() {
                    Ok(v) => if v >= 0x8000_0000 {
                        (v as i64 - 0x1_0000_0000) as i32
                    } else {
                        v as i32
                    },
                    Err(e) => {
                        proof { lemma_table_short(d, i as int, cw, p); }
                        return Err(AfsError::Io(e));
                    },
                }
            };
            proof {
                assert(p == 0x10 + i * cue_id_width(d));
            }
            cue_ids.push(cue_id);
            i = i + 1;
            proof {
                assert((i - 1) * cw + cw == i * cw) by (nonlinear_arith);
            }
        }

        let mut offsets: Vec<u32> = Vec::new();
        let mut k: u64 = 0;
        let total: u64 = file_count as u64 + 1;
        proof {
            assert(buf.pos() == offsets_start(d));
        }
        while k < total
            invariant
                buf.data() == d,
                d == r@,
                d.len() >= 0x10,
                crate::reader::be32(d) == AFS2_MAGIC,
                k <= total,
                k > 0 ==> buf.pos() <= d.len(),
                total == afs_count(d) + 1,
                ow == offset_width(d),
                offset_size == d[5],
                offset_mask == crate::acb::afs::offset_mask(d[5]),
                buf.pos() == offsets_start(d) + k * ow,
                offsets@.len() == k,
                forall|j: int| 0 <= j < k ==> offsets@[j] == afs_offset(d, j),
            decreases total - k,
        {
            let ghost p = buf.pos();
            let raw: u32 = if offset_size == 2 {
                match buf.read_u16_le() {
                    Ok(v) => v as u32,
                    Err(e) => {
                        proof { lemma_offsets_short(d, k as int, p); }
                        return Err(AfsError::Io(e));
                    },
                }
            } else {
                match buf.read_u32_le() {
                    Ok(v) => v,
                    Err(e) => {
                        proof { lemma_offsets_short(d, k as int, p); }
                        return Err(AfsError::Io(e));
                    },
                }
            };
            offsets.push(raw & offset_mask);
            k = k + 1;
            proof {
                assert((k - 1) * ow + ow == k * ow) by (nonlinear_arith);
            }
        }
        proof {
            assert(tables_end(d) <= d.len()) by {
                assert(buf.pos() <= d.len());
            }
        }
        Ok((buf, alignment, cue_ids, offsets))
    }

    /// Parse the header and the cue id and offset tables.
    pub fn new(r: Vec<u8>) -> (res: Result<Self, AfsError>)
        requires
            afs_sizes_fit(r@),
        ensures
            match afs_header_result(r@) {
                Ok(()) => res matches Ok(a) && a.data() == r@ && a.alignment_value() == afs_alignment(r@)
                    && a.entries() == afs_entries(r@),
                Err(e) => res == Err::<Self, AfsError>(e),
            },
    {
        let ghost d = r@;
        let (buf, alignment, cue_ids, offsets) = match Self::read_tables(r) {
            Ok(t) => t,
            Err(e) => return Err(e),
        };
        let file_count: u32 = cue_ids.len() as u32;
        let mut files: Vec<AfsFileEntry> = Vec::new();
        let mut n: usize = 0;
        while n < file_count as usize
            invariant
                d.len() >= 0x10,
                afs_header_result(d) is Ok,
                afs_sizes_fit(d),
                file_count == afs_count(d),
                alignment == afs_alignment(d),
                n <= file_count,
                cue_ids@.len() == file_count,
                offsets@.len() == file_count + 1,
                forall|j: int| 0 <= j < file_count ==> cue_ids@[j] == afs_cue_id(d, j),
                forall|j: int| 0 <= j <= file_count ==> offsets@[j] == afs_offset(d, j),
                files@.len() == n,
                forall|j: int| 0 <= j < n ==> files@[j] == afs_entry(d, j),
            decreases file_count - n,
        {
            proof {
                assert(spec_align(afs_alignment(d) as int, afs_offset(d, n as int) as int)
                    <= afs_offset(d, n + 1));
            }
            let aligned_offset = align(alignment, offsets[n]);
            let next_offset = offsets[n + 1];
            let size = next_offset - aligned_offset;
            files.push(AfsFileEntry { cue_id: cue_ids[n], offset: aligned_offset, size });
            n = n + 1;
        }
        proof {
            assert(files@ =~= afs_entries(d));
        }
        Ok(AfsArchive { alignment, files, reader: buf })
    }

    /// Whether the archive bytes meet `new`'s requirement: every file's
    /// aligned start stays at or below the next offset.
    pub fn sizes_fit(d: &[u8]) -> (r: bool)
        ensures
            r == afs_sizes_fit(d@),
    {
        let v = vstd::slice::slice_to_vec(d);
        let (_buf, alignment, _cue_ids, offsets) = match Self::read_tables(v) {
            Ok(t) => t,
            Err(_) => return true,
        };
        let count: usize = offsets.len() - 1;
        let mut n: usize = 0;
        while n < count
            invariant
                afs_header_result(d@) is Ok,
                count == afs_count(d@),
                alignment == afs_alignment(d@),
                offsets@.len() == count + 1,
                forall|j: int| 0 <= j <= count ==> offsets@[j] == afs_offset(d@, j),
                n <= count,
                forall|j: int| 0 <= j < n ==> #[trigger] spec_align(afs_alignment(d@) as int,
                    afs_offset(d@, j) as int) <= afs_offset(d@, j + 1),
            decreases count - n,
        {
            if align_wide(alignment, offsets[n]) > offsets[n + 1] as u64 {
                return false;
            }
            n = n + 1;
        }
        true
    }

    /// Bytes of the first file with the cue id; when none has it and the
    /// first file's cue id is 0, the first file's bytes.
    pub fn file_data_for_cue_id(&mut self, cue_id: i32) -> (r: Result<Vec<u8>, AfsError>)
        ensures
            final(self).data() == old(self).data(),
            final(self).entries() == old(self).entries(),
            final(self).alignment_value() == old(self).alignment_value(),
            match cue_lookup(old(self).entries(), cue_id) {
                Some(e) => bytes_result(r) == entry_bytes(old(self).data(), e),
                None => r == Err::<Vec<u8>, AfsError>(AfsError::CueNotFound(cue_id)),
            },
    {
        let mut i: usize = 0;
        while i < self.files.len()
            invariant
                0 <= i <= self.files@.len(),
                self.files == old(self).files,
                self.data() == old(self).data(),
                self.alignment == old(self).alignment,
                forall|j: int| 0 <= j < i ==> self.files@[j].cue_id != cue_id,
            decreases self.files@.len() - i,
        {
            if self.files[i].cue_id == cue_id {
                let f = self.files[i];
                proof {
                    lemma_first_match(self.files@, cue_id, i as int);
                }
                return self.file_data(f);
            }
            i = i + 1;
        }
        proof {
            lemma_no_match(self.files@, cue_id);
        }
        if self.files.len() > 0 && self.files[0].cue_id == 0 {
            let f = self.files[0];
            return self.file_data(f);
        }
        Err(AfsError::CueNotFound(cue_id))
    }

    /// Bytes of an entry: `size` bytes at `offset`.
    pub fn file_data(&mut self, entry: AfsFileEntry) -> (r: Result<Vec<u8>, AfsError>)
        ensures
            final(self).data() == old(self).data(),
            final(self).entries() == old(self).entries(),
            final(self).alignment_value() == old(self).alignment_value(),
            bytes_result(r) == entry_bytes(old(self).data(), entry),
    {
        match self.reader.read_bytes_at(entry.size as usize, entry.offset as u64) {
            Ok(v) => Ok(v),
            Err(e) => Err(AfsError::Io(e)),
        }
    }
}

/// `spec_align` computed without overflow.
fn align_wide(alignment: u32, offset: u32) -> (r: u64)
    ensures
        r == spec_align(alignment as int, offset as int),
{
    if alignment == 0 {
        return offset as u64;
    }
    let q: u64 = (offset as u64 + alignment as u64 - 1) / alignment as u64;
    proof {
        let a = alignment as int;
        let t = offset as int + a - 1;
        assert(q * a <= t) by (nonlinear_arith)
            requires
                q == t / a,
                a > 0,
                t >= 0,
        ;
    }
    q * alignment as u64
}

/// Index of the first entry with the cue id.
pub open spec fn first_cue_index(files: Seq<AfsFileEntry>, cue_id: i32) -> Option<int> {
    if exists|i: int| 0 <= i < files.len() && files[i].cue_id == cue_id {
        Some(choose|i: int| 0 <= i < files.len() && files[i].cue_id == cue_id
            && forall|j: int| 0 <= j < i ==> files[j].cue_id != cue_id)
    } else {
        None
    }
}

/// The entry a cue id resolves to: the first with that cue id, else the
/// first entry when its cue id is 0.
pub open spec fn cue_lookup(files: Seq<AfsFileEntry>, cue_id: i32) -> Option<AfsFileEntry> {
    match first_cue_index(files, cue_id) {
        Some(i) => Some(files[i]),
        None => if files.len() > 0 && files[0].cue_id == 0 {
            Some(files[0])
        } else {
            None
        },
    }
}

/// What reading an entry from the archive bytes gives.
pub open spec fn entry_bytes(d: Seq<u8>, e: AfsFileEntry) -> Result<Seq<u8>, AfsError> {
    if crate::reader::can_read(d.len() as int, e.offset as int, e.size as int) {
        Ok(d.skip(e.offset as int).take(e.size as int))
    } else {
        Err(AfsError::Io(IoError::UnexpectedEof))
    }
}

/// A byte result seen through the view of its vector.
pub open spec fn bytes_result(r: Result<Vec<u8>, AfsError>) -> Result<Seq<u8>, AfsError> {
    match r {
        Ok(v) => Ok(v@),
        Err(e) => Err(e),
    }
}

proof fn lemma_first_match(files: Seq<AfsFileEntry>, cue_id: i32, i: int)
    requires
        0 <= i < files.len(),
        files[i].cue_id == cue_id,
        forall|j: int| 0 <= j < i ==> files[j].cue_id != cue_id,
    ensures
        first_cue_index(files, cue_id) == Some(i),
{
    let c = choose|k: int| 0 <= k < files.len() && files[k].cue_id == cue_id
        && forall|j: int| 0 <= j < k ==> files[j].cue_id != cue_id;
    assert(0 <= i < files.len() && files[i].cue_id == cue_id
        && forall|j: int| 0 <= j < i ==> files[j].cue_id != cue_id);
    assert(c == i) by {
        if c < i {
            assert(files[c].cue_id != cue_id);
        } else if c > i {
            assert(files[i].cue_id != cue_id);
        }
    }
}

proof fn lemma_no_match(files: Seq<AfsFileEntry>, cue_id: i32)
    requires
        forall|j: int| 0 <= j < files.len() ==> files[j].cue_id != cue_id,
    ensures
        first_cue_index(files, cue_id) is None,
{
}

proof fn lemma_table_short(d: Seq<u8>, i: int, cw: int, p: int)
    requires
        d.len() >= 0x10,
        0 <= i < afs_count(d),
        cw == cue_id_width(d),
        p == 0x10 + i * cw,
        p + cw > d.len(),
    ensures
        tables_end(d) > d.len(),
{
    assert(i * cw + cw <= afs_count(d) * cw) by (nonlinear_arith)
        requires
            0 <= i < afs_count(d),
            cw > 0,
    ;
    assert((afs_count(d) + 1) * offset_width(d) >= 0) by (nonlinear_arith)
        requires
            afs_count(d) >= 0,
            offset_width(d) > 0,
    ;
}

proof fn lemma_offsets_short(d: Seq<u8>, k: int, p: int)
    requires
        d.len() >= 0x10,
        0 <= k < afs_count(d) + 1,
        p == offsets_start(d) + k * offset_width(d),
        p + offset_width(d) > d.len(),
    ensures
        tables_end(d) > d.len(),
{
    let ow = offset_width(d);
    assert(k * ow + ow <= (afs_count(d) + 1) * ow) by (nonlinear_arith)
        requires
            0 <= k < afs_count(d) + 1,
            ow > 0,
    ;
}

} // verus!
