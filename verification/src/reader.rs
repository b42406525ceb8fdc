//! Byte cursor with big- and little-endian reads.
//!
//! `Reader` owns a byte buffer and a position, and behaves like a seekable
//! in-memory stream: a read that runs past the end fails and leaves the
//! position at the end of the buffer.

use byteorder::{BigEndian, ByteOrder, LittleEndian};
use vstd::prelude::*;
use vstd::slice::slice_subrange;
use vstd::slice::slice_to_vec;

verus! {

/// Errors of the byte cursor.
#[derive(Debug, Clone, Copy, PartialEq, Eq, Structural)]
pub enum IoError {
    /// A read asked for more bytes than remain.
    UnexpectedEof,
    /// A seek would move to a negative or overflowing position.
    InvalidSeek,
}

/// The text of an I/O error, as std words the errors of an exact read and
/// of a seek out of range.
pub open spec fn io_text(e: IoError) -> Seq<char> {
    match e {
        IoError::UnexpectedEof => "failed to fill whole buffer"@,
        IoError::InvalidSeek => "invalid seek to a negative or overflowing position"@,
    }
}

impl IoError {
    /// "IO error: " and the error's text.
    pub fn message(&self) -> (r: String)
        ensures
            r@ == "IO error: "@ + io_text(*self),
    {
        let mut m = String::from_str("IO error: ");
        match self {
            IoError::UnexpectedEof => m.append("failed to fill whole buffer"),
            IoError::InvalidSeek => m.append("invalid seek to a negative or overflowing position"),
        }
        m
    }
}

/// Where a seek starts from.
#[derive(Debug, Clone, Copy, PartialEq, Eq, Structural)]
pub enum SeekFrom {
    Start(u64),
    End(i64),
    Current(i64),
}

/// Big-endian value of the first two bytes.
pub open spec fn be16(b: Seq<u8>) -> int {
    b[0] as int * 0x100 + b[1] as int
}

/// Big-endian value of the first four bytes.
pub open spec fn be32(b: Seq<u8>) -> int {
    b[0] as int * 0x100_0000 + b[1] as int * 0x1_0000 + b[2] as int * 0x100 + b[3] as int
}

/// Big-endian value of the first eight bytes.
pub open spec fn be64(b: Seq<u8>) -> int {
    be32(b) * 0x1_0000_0000 + be32(b.subrange(4, 8))
}

/// Little-endian value of the first two bytes.
pub open spec fn le16(b: Seq<u8>) -> int {
    b[1] as int * 0x100 + b[0] as int
}

/// Little-endian value of the first four bytes.
pub open spec fn le32(b: Seq<u8>) -> int {
    b[3] as int * 0x100_0000 + b[2] as int * 0x1_0000 + b[1] as int * 0x100 + b[0] as int
}

/// Bytes of a value below 2^16, big-endian.
pub open spec fn be16_bytes(v: int) -> Seq<u8> {
    seq![(v / 0x100 % 0x100) as u8, (v % 0x100) as u8]
}

/// Bytes of a value below 2^32, big-endian.
pub open spec fn be32_bytes(v: int) -> Seq<u8> {
    seq![
        (v / 0x100_0000 % 0x100) as u8,
        (v / 0x1_0000 % 0x100) as u8,
        (v / 0x100 % 0x100) as u8,
        (v % 0x100) as u8,
    ]
}

/// Bytes of a value below 2^64, big-endian.
pub open spec fn be64_bytes(v: int) -> Seq<u8> {
    be32_bytes(v / 0x1_0000_0000 % 0x1_0000_0000) + be32_bytes(v % 0x1_0000_0000)
}

/// Bytes of a value below 2^16, little-endian.
pub open spec fn le16_bytes(v: int) -> Seq<u8> {
    seq![(v % 0x100) as u8, (v / 0x100 % 0x100) as u8]
}

/// Bytes of a value below 2^32, little-endian.
pub open spec fn le32_bytes(v: int) -> Seq<u8> {
    seq![
        (v % 0x100) as u8,
        (v / 0x100 % 0x100) as u8,
        (v / 0x1_0000 % 0x100) as u8,
        (v / 0x100_0000 % 0x100) as u8,
    ]
}

/// Reading back a written little-endian u32 gives the value.
pub proof fn lemma_le32_roundtrip(v: u32)
    ensures
        le32(le32_bytes(v as int)) == v,
{
    let b = le32_bytes(v as int);
    assert(v == (v % 0x100) + (v / 0x100 % 0x100) * 0x100 + (v / 0x1_0000 % 0x100) * 0x1_0000
        + (v / 0x100_0000 % 0x100) * 0x100_0000) by (bit_vector);
}

/// Reading back a written little-endian u16 gives the value.
pub proof fn lemma_le16_roundtrip(v: u16)
    ensures
        le16(le16_bytes(v as int)) == v,
{
    assert(v == (v % 0x100) + (v / 0x100 % 0x100) * 0x100) by (bit_vector);
}

/// Reading back a written big-endian u32 gives the value.
pub proof fn law_be32_reads_back(v: u32)
    ensures
        be32(be32_bytes(v as int)) == v,
{
    assert(v == (v % 0x100) + (v / 0x100 % 0x100) * 0x100 + (v / 0x1_0000 % 0x100) * 0x1_0000
        + (v / 0x100_0000 % 0x100) * 0x100_0000) by (bit_vector);
}

/// Reading back a written big-endian u16 gives the value.
pub proof fn law_be16_reads_back(v: u16)
    ensures
        be16(be16_bytes(v as int)) == v,
{
    assert(v == (v % 0x100) + (v / 0x100 % 0x100) * 0x100) by (bit_vector);
}

/// Two's-complement reading of a 16-bit pattern.
pub open spec fn signed16(v: int) -> int {
    if v >= 0x8000 { v - 0x1_0000 } else { v }
}

/// Two's-complement reading of a 32-bit pattern.
pub open spec fn signed32(v: int) -> int {
    if v >= 0x8000_0000 { v - 0x1_0000_0000 } else { v }
}

/// Two's-complement reading of an 8-bit pattern.
pub open spec fn signed8(v: int) -> int {
    if v >= 0x80 { v - 0x100 } else { v }
}

/// Name for what `String::from_utf8_lossy` makes of a byte sequence.
pub uninterp spec fn utf8_lossy(bytes: Seq<u8>) -> Seq<char>;

/// `BigEndian::read_u16` of byteorder: the first two bytes, big-endian.
#[verifier::external_body]
fn read_be_u16(buf: &[u8]) -> (r: u16)
    requires
        buf@.len() >= 2,
    ensures
        r as int == be16(buf@),
{
    BigEndian::read_u16(buf)
}

/// `BigEndian::read_i16` of byteorder: the first two bytes, big-endian, as
/// a two's-complement value.
#[verifier::external_body]
fn read_be_i16(buf: &[u8]) -> (r: i16)
    requires
        buf@.len() >= 2,
    ensures
        r as int == signed16(be16(buf@)),
{
    BigEndian::read_i16(buf)
}

/// `BigEndian::read_u32` of byteorder: the first four bytes, big-endian.
#[verifier::external_body]
fn read_be_u32(buf: &[u8]) -> (r: u32)
    requires
        buf@.len() >= 4,
    ensures
        r as int == be32(buf@),
{
    BigEndian::read_u32(buf)
}

/// `BigEndian::read_i32` of byteorder: the first four bytes, big-endian, as
/// a two's-complement value.
#[verifier::external_body]
fn read_be_i32(buf: &[u8]) -> (r: i32)
    requires
        buf@.len() >= 4,
    ensures
        r as int == signed32(be32(buf@)),
{
    BigEndian::read_i32(buf)
}

/// `BigEndian::read_u64` of byteorder: the first eight bytes, big-endian.
#[verifier::external_body]
fn read_be_u64(buf: &[u8]) -> (r: u64)
    requires
        buf@.len() >= 8,
    ensures
        r as int == be64(buf@),
{
    BigEndian::read_u64(buf)
}

/// `LittleEndian::read_u16` of byteorder: the first two bytes, little-endian.
#[verifier::external_body]
fn read_le_u16(buf: &[u8]) -> (r: u16)
    requires
        buf@.len() >= 2,
    ensures
        r as int == le16(buf@),
{
    LittleEndian::read_u16(buf)
}

/// `LittleEndian::read_u32` of byteorder: the first four bytes, little-endian.
#[verifier::external_body]
fn read_le_u32(buf: &[u8]) -> (r: u32)
    requires
        buf@.len() >= 4,
    ensures
        r as int == le32(buf@),
{
    LittleEndian::read_u32(buf)
}

/// Every byte is ASCII.
pub open spec fn all_ascii(b: Seq<u8>) -> bool {
    forall|i: int| 0 <= i < b.len() ==> b[i] < 0x80
}

/// The characters of bytes that are all ASCII.
pub open spec fn ascii_text(b: Seq<u8>) -> Seq<char> {
    Seq::new(b.len(), |i: int| b[i] as char)
}

/// `String::from_utf8_lossy`, taken as an owned string. The result is a
/// function of the bytes, named `utf8_lossy`; valid UTF-8 comes back as it
/// is, which the second clause states for ASCII bytes.
#[verifier::external_body]
pub(crate) fn lossy_string(bytes: &[u8]) -> (r: String)
    ensures
        r@ == utf8_lossy(bytes@),
        all_ascii(bytes@) ==> r@ == ascii_text(bytes@),
{
    String::from_utf8_lossy(bytes).into_owned()
}

/// Where a seek lands, or `None` when the target is negative or overflows.
pub open spec fn seek_target(len: int, pos: int, from: SeekFrom) -> Option<int> {
    let t = match from {
        SeekFrom::Start(n) => n as int,
        SeekFrom::End(off) => len + off,
        SeekFrom::Current(off) => pos + off,
    };
    if 0 <= t <= u64::MAX {
        Some(t)
    } else {
        None
    }
}

/// A read of `n` bytes at `pos` succeeds when they all lie in the buffer.
pub open spec fn can_read(len: int, pos: int, n: int) -> bool {
    n == 0 || pos + n <= len
}

/// Reader over an owned byte buffer.
pub struct Reader {
    inner: Vec<u8>,
    pos: u64,
}

impl Reader {
    /// The bytes the reader walks over.
    pub closed spec fn data(&self) -> Seq<u8> {
        self.inner@
    }

    /// The current position.
    pub closed spec fn pos(&self) -> int {
        self.pos as int
    }

    /// A position is a 64-bit unsigned value.
    pub broadcast proof fn lemma_pos_range(r: &Reader)
        ensures
            0 <= #[trigger] r.pos() <= u64::MAX,
    {
    }

    pub fn new(inner: Vec<u8>) -> (r: Self)
        ensures
            r.data() == inner@,
            r.pos() == 0,
    {
        Reader { inner, pos: 0 }
    }

    pub fn into_inner(self) -> (r: Vec<u8>)
        ensures
            r@ == self.data(),
    {
        self.inner
    }

    /// Move the position; the new position is returned.
    pub fn seek(&mut self, from: SeekFrom) -> (r: Result<u64, IoError>)
        ensures
            final(self).data() == old(self).data(),
            match seek_target(old(self).data().len() as int, old(self).pos(), from) {
                Some(t) => r == Ok::<u64, IoError>(t as u64) && final(self).pos() == t,
                None => r == Err::<u64, IoError>(IoError::InvalidSeek) && final(self).pos()
                    == old(self).pos(),
            },
    {
        let len = self.inner.len() as u64;
        let (base, off): (u64, i64) = match from {
            SeekFrom::Start(n) => {
                self.pos = n;
                return Ok(n);
            },
            SeekFrom::End(off) => (len, off),
            SeekFrom::Current(off) => (self.pos, off),
        };
        if off >= 0 {
            let d: u64 = off as u64;
            if base <= u64::MAX - d {
                self.pos = base + d;
                Ok(self.pos)
            } else {
                Err(IoError::InvalidSeek)
            }
        } else {
            let d: u64 = (-(off as i128)) as u64;
            if d <= base {
                self.pos = base - d;
                Ok(self.pos)
            } else {
                Err(IoError::InvalidSeek)
            }
        }
    }

    /// The current position.
    pub fn stream_position(&self) -> (r: Result<u64, IoError>)
        ensures
            r == Ok::<u64, IoError>(self.pos() as u64),
    {
        Ok(self.pos)
    }

    /// Claim the next `n` bytes: on success the position moves past them and
    /// their start is returned; on failure the position goes to the end.
    fn advance(&mut self, n: usize) -> (r: Result<usize, IoError>)
        requires
            n > 0,
        ensures
            final(self).data() == old(self).data(),
            match r {
                Ok(start) => {
                    &&& old(self).pos() + n <= old(self).data().len()
                    &&& start == old(self).pos()
                    &&& final(self).pos() == old(self).pos() + n
                },
                Err(e) => {
                    &&& old(self).pos() + n > old(self).data().len()
                    &&& e == IoError::UnexpectedEof
                    &&& final(self).pos() == old(self).data().len()
                },
            },
    {
        let len = self.inner.len() as u64;
        if self.pos <= len && n as u64 <= len - self.pos {
            let start = self.pos as usize;
            self.pos = self.pos + n as u64;
            Ok(start)
        } else {
            self.pos = len;
            Err(IoError::UnexpectedEof)
        }
    }

    /// The `n` bytes claimed by a successful `advance`.
    fn claimed(&self, start: usize, n: usize) -> (s: &[u8])
        requires
            start + n <= self.data().len(),
        ensures
            s@ == self.data().subrange(start as int, start + n),
    {
        let _len = self.inner.len();
        slice_subrange(self.inner.as_slice(), start, start + n)
    }

    pub fn read_u8(&mut self) -> (r: Result<u8, IoError>)
        ensures
            final(self).data() == old(self).data(),
            read_ok(old(self), final(self), 1, r is Ok),
            r matches Ok(v) ==> v == old(self).data()[old(self).pos()],
            r matches Err(e) ==> e == IoError::UnexpectedEof,
    {
        let s = self.advance(1)?;
        Ok(self.inner[s])
    }

    pub fn read_i8(&mut self) -> (r: Result<i8, IoError>)
        ensures
            final(self).data() == old(self).data(),
            read_ok(old(self), final(self), 1, r is Ok),
            r matches Ok(v) ==> v as int == signed8(old(self).data()[old(self).pos()] as int),
            r matches Err(e) ==> e == IoError::UnexpectedEof,
    {
        let s = self.advance(1)?;
        let b = self.inner[s];
        if b >= 0x80 {
            Ok((b as i16 - 0x100) as i8)
        } else {
            Ok(b as i8)
        }
    }

    /// Big-endian `u16`.
    pub fn read_u16(&mut self) -> (r: Result<u16, IoError>)
        ensures
            final(self).data() == old(self).data(),
            read_ok(old(self), final(self), 2, r is Ok),
            r matches Ok(v) ==> v as int == be16(old(self).data().skip(old(self).pos())),
            r matches Err(e) ==> e == IoError::UnexpectedEof,
    {
        let s = self.advance(2)?;
        let v = read_be_u16(self.claimed(s, 2));
        Ok(v)
    }

    /// Big-endian `i16`.
    pub fn read_i16(&mut self) -> (r: Result<i16, IoError>)
        ensures
            final(self).data() == old(self).data(),
            read_ok(old(self), final(self), 2, r is Ok),
            r matches Ok(v) ==> v as int == signed16(be16(old(self).data().skip(old(self).pos()))),
            r matches Err(e) ==> e == IoError::UnexpectedEof,
    {
        let s = self.advance(2)?;
        let v = read_be_i16(self.claimed(s, 2));
        Ok(v)
    }

    /// Big-endian `u32`.
    pub fn read_u32(&mut self) -> (r: Result<u32, IoError>)
        ensures
            final(self).data() == old(self).data(),
            read_ok(old(self), final(self), 4, r is Ok),
            r matches Ok(v) ==> v as int == be32(old(self).data().skip(old(self).pos())),
            r matches Err(e) ==> e == IoError::UnexpectedEof,
    {
        let s = self.advance(4)?;
        let v = read_be_u32(self.claimed(s, 4));
        Ok(v)
    }

    /// Big-endian `i32`.
    pub fn read_i32(&mut self) -> (r: Result<i32, IoError>)
        ensures
            final(self).data() == old(self).data(),
            read_ok(old(self), final(self), 4, r is Ok),
            r matches Ok(v) ==> v as int == signed32(be32(old(self).data().skip(old(self).pos()))),
            r matches Err(e) ==> e == IoError::UnexpectedEof,
    {
        let s = self.advance(4)?;
        let v = read_be_i32(self.claimed(s, 4));
        Ok(v)
    }

    /// Big-endian `u64`.
    pub fn read_u64(&mut self) -> (r: Result<u64, IoError>)
        ensures
            final(self).data() == old(self).data(),
            read_ok(old(self), final(self), 8, r is Ok),
            r matches Ok(v) ==> v as int == be64(old(self).data().skip(old(self).pos())),
            r matches Err(e) ==> e == IoError::UnexpectedEof,
    {
        let s = self.advance(8)?;
        let v = read_be_u64(self.claimed(s, 8));
        Ok(v)
    }

    /// Little-endian `u16`.
    pub fn read_u16_le(&mut self) -> (r: Result<u16, IoError>)
        ensures
            final(self).data() == old(self).data(),
            read_ok(old(self), final(self), 2, r is Ok),
            r matches Ok(v) ==> v as int == le16(old(self).data().skip(old(self).pos())),
            r matches Err(e) ==> e == IoError::UnexpectedEof,
    {
        let s = self.advance(2)?;
        let v = read_le_u16(self.claimed(s, 2));
        Ok(v)
    }

    /// Little-endian `u32`.
    pub fn read_u32_le(&mut self) -> (r: Result<u32, IoError>)
        ensures
            final(self).data() == old(self).data(),
            read_ok(old(self), final(self), 4, r is Ok),
            r matches Ok(v) ==> v as int == le32(old(self).data().skip(old(self).pos())),
            r matches Err(e) ==> e == IoError::UnexpectedEof,
    {
        let s = self.advance(4)?;
        let v = read_le_u32(self.claimed(s, 4));
        Ok(v)
    }

    /// Read exactly `n` bytes.
    pub fn read_bytes(&mut self, n: usize) -> (r: Result<Vec<u8>, IoError>)
        ensures
            final(self).data() == old(self).data(),
            read_ok(old(self), final(self), n as int, r is Ok),
            r matches Ok(v) ==> v@ == old(self).data().skip(old(self).pos()).take(n as int),
            r matches Err(e) ==> e == IoError::UnexpectedEof,
    {
        if n == 0 {
            return Ok(Vec::new());
        }
        let s = self.advance(n)?;
        let v = slice_to_vec(self.claimed(s, n));
        proof {
            assert(v@ =~= old(self).data().skip(old(self).pos()).take(n as int));
        }
        Ok(v)
    }

    /// Read `n` bytes at `offset`; the position is left where it was.
    pub fn read_bytes_at(&mut self, n: usize, offset: u64) -> (r: Result<Vec<u8>, IoError>)
        ensures
            final(self).data() == old(self).data(),
            final(self).pos() == old(self).pos(),
            r is Ok <==> can_read(old(self).data().len() as int, offset as int, n as int),
            r matches Ok(v) ==> v@ == old(self).data().skip(offset as int).take(n as int),
            r matches Err(e) ==> e == IoError::UnexpectedEof,
    {
        let pos = self.pos;
        self.pos = offset;
        let result = self.read_bytes(n);
        self.pos = pos;
        result
    }

    /// Read a zero-terminated string; the terminator is consumed and not
    /// part of the result, which is decoded as lossy UTF-8.
    pub fn read_string0(&mut self) -> (r: Result<String, IoError>)
        ensures
            final(self).data() == old(self).data(),
            match cstring_end(old(self).data(), old(self).pos()) {
                Some(end) => {
                    &&& r is Ok
                    &&& r->Ok_0@ == utf8_lossy(old(self).data().subrange(old(self).pos(), end))
                    &&& all_ascii(old(self).data().subrange(old(self).pos(), end)) ==> r->Ok_0@
                        == ascii_text(old(self).data().subrange(old(self).pos(), end))
                    &&& final(self).pos() == end + 1
                },
                None => {
                    &&& r == Err::<String, IoError>(IoError::UnexpectedEof)
                    &&& final(self).pos() == old(self).data().len()
                },
            },
    {
        let bytes = self.read_cstring_bytes()?;
        Ok(lossy_string(bytes.as_slice()))
    }

    /// Read a zero-terminated string at `offset`; the position is left
    /// where it was.
    pub fn read_string0_at(&mut self, offset: u64) -> (r: Result<String, IoError>)
        ensures
            final(self).data() == old(self).data(),
            final(self).pos() == old(self).pos(),
            match cstring_end(old(self).data(), offset as int) {
                Some(end) => r is Ok && r->Ok_0@ == utf8_lossy(
                    old(self).data().subrange(offset as int, end),
                ) && (all_ascii(old(self).data().subrange(offset as int, end)) ==> r->Ok_0@
                    == ascii_text(old(self).data().subrange(offset as int, end))),
                None => r == Err::<String, IoError>(IoError::UnexpectedEof),
            },
    {
        let pos = self.pos;
        self.pos = offset;
        let result = self.read_string0();
        self.pos = pos;
        result
    }

    /// Read bytes up to a zero byte; the zero is consumed and not returned.
    #[verifier::spinoff_prover]
    pub fn read_cstring_bytes(&mut self) -> (r: Result<Vec<u8>, IoError>)
        ensures
            final(self).data() == old(self).data(),
            match cstring_end(old(self).data(), old(self).pos()) {
                Some(end) => {
                    &&& r is Ok
                    &&& r->Ok_0@ == old(self).data().subrange(old(self).pos(), end)
                    &&& final(self).pos() == end + 1
                },
                None => {
                    &&& r == Err::<Vec<u8>, IoError>(IoError::UnexpectedEof)
                    &&& final(self).pos() == old(self).data().len()
                },
            },
    {
        let ghost start = self.pos();
        let ghost d = self.data();
        let mut buf: Vec<u8> = Vec::new();
        loop
            invariant
                self.data() == d,
                start <= self.pos(),
                self.pos() > start ==> self.pos() <= d.len(),
                buf@.len() == self.pos() - start,
                forall|i: int| 0 <= i < buf@.len() ==> buf@[i] == d[start + i] && d[start + i] != 0,
                old(self).pos() == start,
                old(self).data() == d,
            decreases d.len() - self.pos(),
        {
            let b = match self.read_u8() {
                Ok(b) => b,
                Err(e) => {
                    proof {
                        assert forall|j: int| start <= j < d.len() implies d[j] != 0 by {
                            assert(buf@[j - start] == d[start + (j - start)]);
                        }
                        lemma_cstring_none(d, start);
                    }
                    return Err(e);
                },
            };
            if b == 0 {
                proof {
                    assert forall|j: int| start <= j < self.pos() - 1 implies d[j] != 0 by {
                        assert(buf@[j - start] == d[start + (j - start)]);
                    }
                    lemma_cstring_found(d, start, self.pos() - 1);
                    assert(buf@ =~= d.subrange(start, self.pos() - 1));
                }
                return Ok(buf);
            }
            buf.push(b);
            proof {
                assert(buf@ =~= d.subrange(start, self.pos()));
            }
        }
    }
}

/// The outcome of a read of `n` bytes on the positions: success exactly when
/// the bytes are there; then the position moves past them, else it goes to
/// the end of the buffer.
pub open spec fn read_ok(before: &Reader, after: &Reader, n: int, ok: bool) -> bool {
    &&& ok <==> can_read(before.data().len() as int, before.pos(), n)
    &&& ok ==> after.pos() == before.pos() + n
    &&& !ok ==> after.pos() == before.data().len()
}

/// Index of the first zero byte at or after `pos`, if any.
pub open spec fn cstring_end(d: Seq<u8>, pos: int) -> Option<int> {
    if exists|i: int| pos <= i < d.len() && d[i] == 0 {
        Some(choose|i: int| pos <= i < d.len() && d[i] == 0 && forall|j: int| pos <= j < i ==> d[j] != 0)
    } else {
        None
    }
}

proof fn lemma_cstring_found(d: Seq<u8>, pos: int, end: int)
    requires
        0 <= pos <= end < d.len(),
        d[end] == 0,
        forall|j: int| pos <= j < end ==> d[j] != 0,
    ensures
        cstring_end(d, pos) == Some(end),
{
    assert(pos <= end < d.len() && d[end] == 0 && forall|j: int| pos <= j < end ==> d[j] != 0);
    let c = choose|i: int| pos <= i < d.len() && d[i] == 0 && forall|j: int| pos <= j < i ==> d[j] != 0;
    assert(c == end) by {
        if c < end {
            assert(d[c] != 0);
        } else if c > end {
            assert(d[end] != 0);
        }
    }
}

proof fn lemma_cstring_none(d: Seq<u8>, pos: int)
    requires
        pos >= d.len() || forall|j: int| pos <= j < d.len() ==> d[j] != 0,
    ensures
        cstring_end(d, pos) is None,
{
}

/// Round `offset` up to a multiple of `alignment`; an alignment of zero
/// leaves the offset as it is.
pub open spec fn spec_align(alignment: int, offset: int) -> int {
    if alignment == 0 {
        offset
    } else {
        (offset + alignment - 1) / alignment * alignment
    }
}

/// Round `offset` up to the next multiple of `alignment`.
pub fn align(alignment: u32, offset: u32) -> (r: u32)
    requires
        spec_align(alignment as int, offset as int) <= u32::MAX,
    ensures
        r == spec_align(alignment as int, offset as int),
{
    if alignment == 0 {
        return offset;
    }
    let q: u64 = (offset as u64 + alignment as u64 - 1) / alignment as u64;
    proof {
        assert(q * alignment <= u32::MAX);
    }
    (q * alignment as u64) as u32
}

/// Rounding up lands on a multiple of the alignment, at or above the offset
/// and less than one alignment step above it.
pub proof fn lemma_align_bounds(alignment: int, offset: int)
    requires
        alignment > 0,
        offset >= 0,
    ensures
        spec_align(alignment, offset) % alignment == 0,
        offset <= spec_align(alignment, offset) < offset + alignment,
{
    let q = (offset + alignment - 1) / alignment;
    let r = (offset + alignment - 1) % alignment;
    assert(offset + alignment - 1 == q * alignment + r && 0 <= r < alignment) by (nonlinear_arith)
        requires
            alignment > 0,
            q == (offset + alignment - 1) / alignment,
            r == (offset + alignment - 1) % alignment,
    ;
    assert((q * alignment) % alignment == 0) by (nonlinear_arith)
        requires
            alignment > 0,
    ;
}

} // verus!
