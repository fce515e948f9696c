//! Tests of the framed-file decoder, block hashing, file names and script
//! classification.

use blk_reader::BlockId;
use blk_reader::FrameDecoder;
use blk_reader::FrameItem;
use blk_reader::GetBlockIds;
use blk_reader::LazyBlock;
use blk_reader::ReadError;
use blk_reader::ScriptType;
use blk_reader::files::blk_file_index;
use blk_reader::files::is_block_file;

/// One framed record: magic, LE size, header, payload.
fn frame(header: &[u8], txs: &[u8]) -> Vec<u8> {
    let mut out = vec![0xf9, 0xbe, 0xb4, 0xd9];
    out.extend_from_slice(&((80 + txs.len()) as u32).to_le_bytes());
    out.extend_from_slice(header);
    out.extend_from_slice(txs);
    out
}

/// An 80-byte header with the given nonce.
fn mk_header(nonce: u32) -> Vec<u8> {
    let mut h = vec![0u8; 80];
    h[0..4].copy_from_slice(&1u32.to_le_bytes());
    h[76..80].copy_from_slice(&nonce.to_le_bytes());
    h
}

#[test]
fn genesis_header_hashes_to_known_id() {
    // the 80-byte mainnet genesis header and its double-SHA-256 digest
    let header_hex = "01000000000000000000000000000000000000000000000000000000000000000000\
                      00003ba3edfd7a7b12b27ac72c3e67768f617fc81bc3888a51323a9fb8aa4b1e5e4a\
                      29ab5f49ffff001d1dac2b7c";
    let digest_hex = "6fe28c0ab6f1b372c1a6a246ae63f74f931e8365e15a089c68d6190000000000";
    let header: Vec<u8> = hex_decode(header_hex);
    let digest: Vec<u8> = hex_decode(digest_hex);
    assert_eq!(header.len(), 80);
    assert_eq!(digest.len(), 32);

    let block = LazyBlock::new(header, Vec::new(), String::from("blk00000.dat"), 0, 0);
    let expected = BlockId::from_bytes(&digest, 0);
    assert_eq!(block.get_block_id(), expected);
    // and the parsed parent is the all-zero sentinel
    assert_eq!(block.get_block_prev_id(), BlockId::all_zeros());
    assert_eq!(block.header.time, 1231006505);
    assert_eq!(block.header.bits, 0x1d00ffff);
    assert_eq!(block.header.nonce, 2083236893);
}

fn hex_decode(s: &str) -> Vec<u8> {
    let clean: String = s.chars().filter(|c| !c.is_whitespace()).collect();
    clean
        .as_bytes()
        .chunks(2)
        .map(|p| u8::from_str_radix(std::str::from_utf8(p).unwrap(), 16).unwrap())
        .collect()
}

#[test]
fn decoder_round_trip() {
    let h1 = mk_header(1);
    let h2 = mk_header(2);
    let mut file = frame(&h1, &[0xaa, 0xbb, 0xcc]);
    file.extend_from_slice(&frame(&h2, &[]));
    let original = file.clone();

    let mut dec = FrameDecoder::new(file, String::from("/blocks/blk00007.dat"), 7);
    let mut rebuilt: Vec<u8> = Vec::new();
    let mut blocks: Vec<LazyBlock> = Vec::new();
    loop {
        match dec.next().unwrap() {
            FrameItem::Record(b) => blocks.push(b),
            FrameItem::EndOfFile => break,
        }
    }
    assert_eq!(blocks.len(), 2);
    assert_eq!(blocks[0].offset, 0);
    assert_eq!(blocks[0].blk_index, 7);
    assert_eq!(blocks[0].blk_path, "/blocks/blk00007.dat");
    assert_eq!(blocks[0].data, vec![0xaa, 0xbb, 0xcc]);
    assert_eq!(blocks[1].offset, (8 + 83) as u64);
    assert_eq!(blocks[1].data.len(), 0);
    // re-serializing the emitted records reproduces the file bytes exactly
    for b in blocks.iter() {
        rebuilt.extend_from_slice(&b.serialize_record());
    }
    assert_eq!(rebuilt, original);
}

#[test]
fn corrupt_frame_after_first_record() {
    // one valid record followed by four zero bytes
    let h1 = mk_header(1);
    let mut file = frame(&h1, &[1, 2, 3, 4, 5]);
    let first_len = file.len() as u64; // 8 + size
    file.extend_from_slice(&[0, 0, 0, 0]);

    let mut dec = FrameDecoder::new(file, String::from("blk00000.dat"), 0);
    match dec.next().unwrap() {
        FrameItem::Record(_) => {}
        FrameItem::EndOfFile => panic!("expected a record"),
    }
    match dec.next() {
        Err(ReadError::CorruptFrame { offset }) => assert_eq!(offset, first_len),
        other => panic!("expected a corrupt frame, got {:?}", other.is_ok()),
    }
}

#[test]
fn truncated_record() {
    // the size field promises more bytes than the file holds
    let h1 = mk_header(1);
    let mut file = frame(&h1, &[1, 2, 3]);
    file.truncate(file.len() - 2);
    let mut dec = FrameDecoder::new(file, String::from("blk00000.dat"), 0);
    match dec.next() {
        Err(ReadError::Truncated { offset }) => assert_eq!(offset, 0),
        _ => panic!("expected a truncated record"),
    }

    // a size field smaller than a header is refused as well
    let mut small = vec![0xf9, 0xbe, 0xb4, 0xd9];
    small.extend_from_slice(&79u32.to_le_bytes());
    small.extend_from_slice(&[0u8; 100]);
    let mut dec = FrameDecoder::new(small, String::from("blk00000.dat"), 0);
    assert!(matches!(dec.next(), Err(ReadError::Truncated { offset: 0 })));
}

#[test]
fn empty_file_is_end_of_file() {
    let mut dec = FrameDecoder::new(Vec::new(), String::from("blk00000.dat"), 0);
    assert!(matches!(dec.next().unwrap(), FrameItem::EndOfFile));
}

#[test]
fn blk_file_index_parses_digits() {
    assert_eq!(blk_file_index(b"blk00042.dat"), Ok(42));
    assert_eq!(blk_file_index(b"/blocks/blk00001.dat"), Ok(1));
    assert_eq!(blk_file_index(b"/blocks/blk99999.dat"), Ok(99999));
    assert_eq!(blk_file_index(b"blkfffff.dat"), Err(ReadError::InvalidFilename));
    assert_eq!(blk_file_index(b"x.dat"), Err(ReadError::InvalidFilename));
}

#[test]
fn block_file_names_are_recognized() {
    assert!(is_block_file(b"/blocks/blk00000.dat"));
    assert!(is_block_file(b"/a/b/blk12345.dat"));
    assert!(!is_block_file(b"/blocks/data.txt"));
    assert!(!is_block_file(b"blk00000.dat")); // no path separator before blk
    assert!(!is_block_file(b"/blocks/blk00000.idx"));
}

#[test]
fn script_kinds_classify() {
    let mut p2pkh = vec![0x76, 0xa9, 0x14];
    p2pkh.extend_from_slice(&[0u8; 20]);
    p2pkh.extend_from_slice(&[0x88, 0xac]);
    assert!(ScriptType::from(&p2pkh) == ScriptType::P2PKH);

    let mut p2sh = vec![0xa9, 0x14];
    p2sh.extend_from_slice(&[0u8; 20]);
    p2sh.push(0x87);
    assert!(ScriptType::from(&p2sh) == ScriptType::P2SH);

    let mut p2pk = vec![0x21];
    p2pk.extend_from_slice(&[2u8; 33]);
    p2pk.push(0xac);
    assert!(ScriptType::from(&p2pk) == ScriptType::P2PK);

    let mut p2wpkh = vec![0x00, 0x14];
    p2wpkh.extend_from_slice(&[0u8; 20]);
    assert!(ScriptType::from(&p2wpkh) == ScriptType::P2WPKH);

    let mut p2wsh = vec![0x00, 0x20];
    p2wsh.extend_from_slice(&[0u8; 32]);
    assert!(ScriptType::from(&p2wsh) == ScriptType::P2WSH);

    let mut p2tr = vec![0x51, 0x20];
    p2tr.extend_from_slice(&[0u8; 32]);
    assert!(ScriptType::from(&p2tr) == ScriptType::P2TR);

    assert!(ScriptType::from(&[]) == ScriptType::Empty);
    assert!(ScriptType::from(&[0x6a, 0x01, 0x02]) == ScriptType::OpReturn);
    assert!(ScriptType::from(&[0x51]) == ScriptType::Unknown);

    assert_eq!(ScriptType::P2PKH.to_string(), "P2PKH");
    assert_eq!(ScriptType::Unknown.to_string(), "UNKNOWN");
    assert_eq!(ScriptType::OpReturn.to_string(), "OpReturn");
}
