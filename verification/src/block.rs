//! Block identifiers, headers, and the lazily decoded block unit.
//!
//! A `LazyBlock` carries a parsed 80-byte header, the raw transaction bytes,
//! and a locator (file path, file index, byte offset) sufficient to re-open
//! the record later.  Its identifier is the double-SHA-256 digest of the raw
//! header bytes, computed once at construction and stored.

use vstd::prelude::*;

use crate::bytes::le_u32_at;
use crate::bytes::le_u64_at;
use crate::bytes::read_le_u32;
use crate::bytes::read_le_u64;

verus! {

/// A 32-byte digest, held as four little-endian 64-bit words.
///
/// Used both for block identifiers (the digest of the 80-byte header) and for
/// the Merkle root field of a header.  The all-zero value is the sentinel
/// "parent of genesis".
#[derive(PartialEq, Eq, Structural, Clone, Copy, Debug)]
pub struct BlockId {
    pub w0: u64,
    pub w1: u64,
    pub w2: u64,
    pub w3: u64,
}

/// The digest whose 32 bytes are `s[off .. off + 32]`, little-endian per word.
pub open spec fn spec_id_from_bytes(s: Seq<u8>, off: int) -> BlockId {
    BlockId {
        w0: le_u64_at(s, off) as u64,
        w1: le_u64_at(s, off + 8) as u64,
        w2: le_u64_at(s, off + 16) as u64,
        w3: le_u64_at(s, off + 24) as u64,
    }
}

impl BlockId {
    /// The sentinel identifier: all 32 bytes zero.
    pub open spec fn spec_zero() -> BlockId {
        BlockId { w0: 0, w1: 0, w2: 0, w3: 0 }
    }

    /// Returns the all-zero sentinel identifier.
    pub fn all_zeros() -> (r: BlockId)
        ensures
            r == BlockId::spec_zero(),
    {
        BlockId { w0: 0, w1: 0, w2: 0, w3: 0 }
    }

    /// Packs the 32 bytes of `b` starting at `off` into a digest.
    pub fn from_bytes(b: &[u8], off: usize) -> (r: BlockId)
        requires
            off + 32 <= b@.len(),
        ensures
            r == spec_id_from_bytes(b@, off as int),
    {
        let n: usize = b.len();
        BlockId {
            w0: read_le_u64(b, off),
            w1: read_le_u64(b, off + 8),
            w2: read_le_u64(b, off + 16),
            w3: read_le_u64(b, off + 24),
        }
    }
}

/// The double-SHA-256 digest of a byte sequence, as the 32 digest bytes.
pub uninterp spec fn sha256d_of(bytes: Seq<u8>) -> Seq<u8>;

/// Relies on `bitcoin::hashes::sha256d::Hash::hash`: the double-SHA-256
/// digest of the input, a pure function of the input bytes alone, 32 bytes
/// long.
#[verifier::external_body]
fn sha256d(bytes: &[u8]) -> (r: Vec<u8>)
    ensures
        r@ == sha256d_of(bytes@),
        r@.len() == 32,
{
    let h = <bitcoin::hashes::sha256d::Hash as bitcoin::hashes::Hash>::hash(bytes);
    <bitcoin::hashes::sha256d::Hash as bitcoin::hashes::Hash>::to_byte_array(h).to_vec()
}

/// The identifier of a block whose raw 80-byte header is `header_bytes`.
pub open spec fn spec_block_id(header_bytes: Seq<u8>) -> BlockId {
    spec_id_from_bytes(sha256d_of(header_bytes), 0)
}

/// Computes the identifier of the block with raw header `header_bytes`: the
/// double-SHA-256 of those bytes.
pub fn block_id_of_header(header_bytes: &[u8]) -> (r: BlockId)
    ensures
        r == spec_block_id(header_bytes@),
{
    let digest = sha256d(header_bytes);
    BlockId::from_bytes(digest.as_slice(), 0)
}

/// The fixed 80-byte block header, parsed eagerly.
///
/// Layout on disk, all little-endian:
/// `version(4) | prev_id(32) | merkle_root(32) | time(4) | bits(4) | nonce(4)`.
#[derive(PartialEq, Eq, Structural, Clone, Copy, Debug)]
pub struct BlockHeader {
    pub version: u32,
    pub prev_id: BlockId,
    pub merkle_root: BlockId,
    pub time: u32,
    pub bits: u32,
    pub nonce: u32,
}

/// The header whose 80 raw bytes are `s[off .. off + 80]`.
pub open spec fn spec_parse_header(s: Seq<u8>, off: int) -> BlockHeader {
    BlockHeader {
        version: le_u32_at(s, off) as u32,
        prev_id: spec_id_from_bytes(s, off + 4),
        merkle_root: spec_id_from_bytes(s, off + 36),
        time: le_u32_at(s, off + 68) as u32,
        bits: le_u32_at(s, off + 72) as u32,
        nonce: le_u32_at(s, off + 76) as u32,
    }
}

/// Parses the 80 header bytes starting at `off` into their fields.
pub fn parse_header(b: &[u8], off: usize) -> (r: BlockHeader)
    requires
        off + 80 <= b@.len(),
    ensures
        r == spec_parse_header(b@, off as int),
{
    let n: usize = b.len();
    BlockHeader {
        version: read_le_u32(b, off),
        prev_id: BlockId::from_bytes(b, off + 4),
        merkle_root: BlockId::from_bytes(b, off + 36),
        time: read_le_u32(b, off + 68),
        bits: read_le_u32(b, off + 72),
        nonce: read_le_u32(b, off + 76),
    }
}

/// A block whose header is parsed but whose transactions remain raw bytes.
#[derive(Debug, Clone)]
pub struct LazyBlock {
    /// Numeric index parsed from the source file name (`blkNNNNN.dat`).
    pub blk_index: u32,
    /// Path of the source file.
    pub blk_path: String,
    /// Byte offset of the record's magic within its file.
    pub offset: u64,
    /// The parsed 80-byte header.
    pub header: BlockHeader,
    /// The raw 80 header bytes, kept verbatim for re-serialization.
    pub header_bytes: Vec<u8>,
    /// The raw transaction bytes, kept verbatim.
    pub data: Vec<u8>,
    /// The block identifier: double-SHA-256 of `header_bytes`.
    pub id: BlockId,
}

impl LazyBlock {
    /// A block is well formed when its parsed header and its identifier agree
    /// with its raw header bytes.
    pub open spec fn wf(self) -> bool {
        &&& self.header_bytes@.len() == 80
        &&& self.header == spec_parse_header(self.header_bytes@, 0)
        &&& self.id == spec_block_id(self.header_bytes@)
    }

    /// Builds a block from its raw header bytes, transaction bytes and
    /// locator, parsing the header and computing the identifier.
    pub fn new(header_bytes: Vec<u8>, data: Vec<u8>, blk_path: String, blk_index: u32, offset: u64) -> (r: LazyBlock)
        requires
            header_bytes@.len() == 80,
        ensures
            r.wf(),
            r.header_bytes == header_bytes,
            r.data == data,
            r.blk_path == blk_path,
            r.blk_index == blk_index,
            r.offset == offset,
    {
        let header = parse_header(header_bytes.as_slice(), 0);
        let id = block_id_of_header(header_bytes.as_slice());
        LazyBlock { blk_index, blk_path, offset, header, header_bytes, data, id }
    }
}

/// Access to a block's own identifier and its parent's identifier.
pub trait GetBlockIds {
    /// The block's identifier, at the spec level.
    spec fn id_spec(&self) -> BlockId;

    /// The parent block's identifier, at the spec level.
    spec fn prev_id_spec(&self) -> BlockId;

    /// Returns the block's identifier.
    fn get_block_id(&self) -> (r: BlockId)
        ensures
            r == self.id_spec(),
    ;

    /// Returns the parent block's identifier.
    fn get_block_prev_id(&self) -> (r: BlockId)
        ensures
            r == self.prev_id_spec(),
    ;
}

impl GetBlockIds for LazyBlock {
    open spec fn id_spec(&self) -> BlockId {
        self.id
    }

    open spec fn prev_id_spec(&self) -> BlockId {
        self.header.prev_id
    }

    fn get_block_id(&self) -> (r: BlockId) {
        self.id
    }

    fn get_block_prev_id(&self) -> (r: BlockId) {
        self.header.prev_id
    }
}

} // verus!
