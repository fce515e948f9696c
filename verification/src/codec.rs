//! The framed-file decoder.
//!
//! A block file is a concatenation of records
//! `magic(4) | size(4, LE) | header(80) | tx_bytes(size - 80)` with no file
//! header, trailer or index.  The decoder walks a buffer and hands out one
//! `LazyBlock` per record; re-serializing a record reproduces the consumed
//! bytes exactly.

use vstd::prelude::*;

use crate::block::spec_parse_header;
use crate::block::LazyBlock;
use crate::bytes::le_u32_at;
use crate::bytes::lemma_le_u32_round_trip;
use crate::bytes::push_le_u32;
use crate::bytes::read_le_u32;
use crate::bytes::u32_le_bytes;

verus! {

/// The fixed network magic that starts every record.
pub open spec fn magic_bytes() -> Seq<u8> {
    seq![0xf9u8, 0xbeu8, 0xb4u8, 0xd9u8]
}

/// The serialized form of a record: magic, little-endian payload size,
/// raw header bytes, raw transaction bytes.
pub open spec fn record_bytes(b: LazyBlock) -> Seq<u8> {
    magic_bytes() + u32_le_bytes(80 + b.data@.len() as int) + b.header_bytes@ + b.data@
}

/// A decoder error; the offset is the byte position of the failed record's
/// start within its file.
#[derive(PartialEq, Eq, Structural, Clone, Copy, Debug)]
pub enum ReadError {
    /// The four bytes at the record start are not the network magic.
    CorruptFrame { offset: u64 },
    /// The buffer ends inside a framed record.
    Truncated { offset: u64 },
    /// A block file name does not end in `blk<digits>.dat`.
    InvalidFilename,
}

/// One step of the decoder.
pub enum FrameItem {
    /// A complete record.
    Record(LazyBlock),
    /// The cursor sits exactly at the end of the buffer.
    EndOfFile,
}

/// Copies `src[from .. to]` into a fresh vector.
fn copy_range(src: &Vec<u8>, from: usize, to: usize) -> (out: Vec<u8>)
    requires
        from <= to <= src@.len(),
    ensures
        out@ == src@.subrange(from as int, to as int),
{
    let mut out: Vec<u8> = Vec::new();
    let mut i: usize = from;
    while i < to
        invariant
            from <= i <= to <= src@.len(),
            out@ =~= src@.subrange(from as int, i as int),
        decreases to - i,
    {
        out.push(src[i]);
        i = i + 1;
        proof {
            assert(out@ =~= src@.subrange(from as int, i as int));
        }
    }
    proof {
        assert(out@ =~= src@.subrange(from as int, to as int));
    }
    out
}

/// Walks one block file's bytes, record by record.
pub struct FrameDecoder {
    data: Vec<u8>,
    pos: usize,
    path: String,
    blk_index: u32,
}

impl FrameDecoder {
    /// The bytes being decoded.
    pub closed spec fn bytes(self) -> Seq<u8> {
        self.data@
    }

    /// The cursor: the position of the next record's magic.
    pub closed spec fn cursor(self) -> int {
        self.pos as int
    }

    /// The file name records are attributed to.
    pub closed spec fn path_spec(self) -> Seq<char> {
        self.path@
    }

    /// The numeric file index records are attributed to.
    pub closed spec fn index_spec(self) -> u32 {
        self.blk_index
    }

    /// The cursor never leaves the buffer.
    pub open spec fn wf(self) -> bool {
        0 <= self.cursor() <= self.bytes().len()
    }

    /// A decoder over `data`, attributing records to the file `path` with
    /// numeric index `blk_index`, with the cursor at the start.
    pub fn new(data: Vec<u8>, path: String, blk_index: u32) -> (d: FrameDecoder)
        ensures
            d.wf(),
            d.bytes() == data@,
            d.cursor() == 0,
            d.path_spec() == path@,
            d.index_spec() == blk_index,
    {
        FrameDecoder { data, pos: 0, path, blk_index }
    }

    /// Decodes the record at the cursor.
    ///
    /// Exactly one of the following holds of the bytes `s` at cursor `p`:
    /// the cursor sits at the end (`EndOfFile`); the magic bytes mismatch
    /// (`CorruptFrame`); the buffer ends inside the record or the size field
    /// is smaller than a header (`Truncated`); or a whole record is present,
    /// and the returned block re-serializes to exactly the consumed bytes.
    #[verifier::rlimit(80)]
    pub fn next(&mut self) -> (r: Result<FrameItem, ReadError>)
        requires
            old(self).wf(),
        ensures
            final(self).wf(),
            final(self).bytes() == old(self).bytes(),
            final(self).path_spec() == old(self).path_spec(),
            final(self).index_spec() == old(self).index_spec(),
            ({
                let s = old(self).bytes();
                let p = old(self).cursor();
                match r {
                    Result::Ok(FrameItem::EndOfFile) => {
                        &&& p == s.len()
                        &&& final(self).cursor() == p
                    },
                    Result::Ok(FrameItem::Record(b)) => {
                        let size = le_u32_at(s, p + 4);
                        &&& p + 8 <= s.len()
                        &&& s.subrange(p, p + 4) == magic_bytes()
                        &&& 80 <= size
                        &&& p + 8 + size <= s.len()
                        &&& final(self).cursor() == p + 8 + size
                        &&& b.wf()
                        &&& b.offset == p
                        &&& b.blk_path@ == old(self).path_spec()
                        &&& b.blk_index == old(self).index_spec()
                        &&& b.header_bytes@ == s.subrange(p + 8, p + 88)
                        &&& b.header == spec_parse_header(s, p + 8)
                        &&& b.data@ == s.subrange(p + 88, p + 8 + size)
                        &&& record_bytes(b) == s.subrange(p, p + 8 + size)
                    },
                    Result::Err(ReadError::CorruptFrame { offset }) => {
                        &&& offset == p
                        &&& p + 4 <= s.len()
                        &&& s.subrange(p, p + 4) != magic_bytes()
                        &&& final(self).cursor() == p
                    },
                    Result::Err(ReadError::Truncated { offset }) => {
                        &&& offset == p
                        &&& p < s.len()
                        &&& (p + 4 <= s.len() ==> s.subrange(p, p + 4) == magic_bytes())
                        &&& (p + 4 > s.len() || p + 8 > s.len() || le_u32_at(s, p + 4) < 80 || p + 8
                            + le_u32_at(s, p + 4) > s.len())
                        &&& final(self).cursor() == p
                    },
                    Result::Err(ReadError::InvalidFilename) => false,
                }
            }),
    {
        let ghost s = self.data@;
        let p = self.pos;
        let n: usize = self.data.len();
        if p == n {
            return Result::Ok(FrameItem::EndOfFile);
        }
        if n - p < 4 {
            return Result::Err(ReadError::Truncated { offset: p as u64 });
        }
        let m0 = self.data[p];
        let m1 = self.data[p + 1];
        let m2 = self.data[p + 2];
        let m3 = self.data[p + 3];
        if !(m0 == 0xf9 && m1 == 0xbe && m2 == 0xb4 && m3 == 0xd9) {
            proof {
                if s.subrange(p as int, p + 4) == magic_bytes() {
                    assert(s.subrange(p as int, p + 4)[0] == 0xf9);
                    assert(s.subrange(p as int, p + 4)[1] == 0xbe);
                    assert(s.subrange(p as int, p + 4)[2] == 0xb4);
                    assert(s.subrange(p as int, p + 4)[3] == 0xd9);
                }
            }
            return Result::Err(ReadError::CorruptFrame { offset: p as u64 });
        }
        proof {
            assert(s.subrange(p as int, p + 4) =~= magic_bytes());
        }
        if n - p < 8 {
            return Result::Err(ReadError::Truncated { offset: p as u64 });
        }
        let size32 = read_le_u32(&self.data.as_slice(), p + 4);
        if size32 < 80 {
            return Result::Err(ReadError::Truncated { offset: p as u64 });
        }
        let size = size32 as usize;
        let body = p + 8;
        if size > n - body {
            return Result::Err(ReadError::Truncated { offset: p as u64 });
        }
        let header_bytes = copy_range(&self.data, body, body + 80);
        let data = copy_range(&self.data, body + 80, body + size);
        let path = self.path.clone();
        let block = LazyBlock::new(header_bytes, data, path, self.blk_index, p as u64);
        self.pos = body + size;
        proof {
            let size_i = le_u32_at(s, p + 4);
            assert(80 + block.data@.len() == size_i);
            lemma_le_u32_round_trip(s, p + 4);
            assert(record_bytes(block) =~= s.subrange(p as int, p + 8 + size_i));
        }
        Result::Ok(FrameItem::Record(block))
    }
}

/// Appends all of `src` onto `out`.
fn push_all(out: &mut Vec<u8>, src: &Vec<u8>)
    ensures
        final(out)@ == old(out)@ + src@,
{
    let n: usize = src.len();
    let mut i: usize = 0;
    while i < n
        invariant
            i <= n == src@.len(),
            out@ =~= old(out)@ + src@.subrange(0, i as int),
        decreases n - i,
    {
        out.push(src[i]);
        i = i + 1;
        proof {
            assert(out@ =~= old(out)@ + src@.subrange(0, i as int));
        }
    }
    proof {
        assert(out@ =~= old(out)@ + src@);
    }
}

impl LazyBlock {
    /// Re-serializes this block's record: magic, little-endian size, raw
    /// header bytes, raw transaction bytes.
    pub fn serialize_record(&self) -> (out: Vec<u8>)
        requires
            self.data@.len() + 80 <= u32::MAX,
        ensures
            out@ == record_bytes(*self),
    {
        let mut out: Vec<u8> = Vec::new();
        out.push(0xf9);
        out.push(0xbe);
        out.push(0xb4);
        out.push(0xd9);
        proof {
            assert(out@ =~= magic_bytes());
        }
        let size: u32 = 80 + (self.data.len() as u32);
        push_le_u32(&mut out, size);
        push_all(&mut out, &self.header_bytes);
        push_all(&mut out, &self.data);
        proof {
            assert(out@ =~= record_bytes(*self));
        }
        out
    }
}

} // verus!
