//! Streaming reader for a Bitcoin-compatible on-disk block store.
//!
//! The crate ingests the framed records of `blk?????.dat` files, reassembles a
//! linear main chain out of out-of-order deliveries and short forks, and hands
//! fully ordered blocks to a consumer.  The chain assembler, the framed-file
//! decoder and the reader state are verified; file I/O and callback dispatch
//! live outside the library.

pub mod bytes;
pub mod block;
pub mod chain;
pub mod codec;
pub mod files;
pub mod reader;
pub mod script;

pub use block::BlockHeader;
pub use block::BlockId;
pub use block::GetBlockIds;
pub use block::LazyBlock;
pub use chain::Chain;
pub use chain::Node;
pub use codec::FrameDecoder;
pub use codec::FrameItem;
pub use codec::ReadError;
pub use reader::BlockReader;
pub use reader::BlockReaderOptions;
pub use script::ScriptType;
