//! The canonical encoding, and the block log that is made of it.

use zhixing_node::codec::{
    decode_block, decode_tx, encode_block, encode_tx, tx_signing_bytes, Enc,
};
use zhixing_node::parse::{CodecError, Dec};
use zhixing_node::store::{encode_record, BlockLog, LogError};
use zhixing_node::{Block, Embedding, Review, SubmissionTx, DIM, MICRO};

fn one_hot(d: usize) -> Embedding {
    let mut emb = [0.0f32.to_bits(); DIM];
    emb[d] = 1.0f32.to_bits();
    emb
}

fn sample_block() -> Block {
    Block {
        height: 7,
        prev_hash: [42u8; 32],
        timestamp_days: 3.5f32.to_bits(),
        txs: vec![SubmissionTx {
            author: 1,
            embedding: one_hot(3),
            domain: 2,
            stake: 2 * MICRO,
            reviews: vec![
                Review { reviewer: 10, score: 0.9f32.to_bits() },
                Review { reviewer: 11, score: 0.75f32.to_bits() },
            ],
            repl_success: 2,
            repl_total: 3,
            timestamp_days: 3.0f32.to_bits(),
            signature: [9u8; 64],
        }],
    }
}

#[test]
fn round_trip() {
    let b = sample_block();
    let bytes = encode_block(&b);
    let back = decode_block(&bytes).unwrap();
    assert_eq!(encode_block(&back), bytes);
    assert_eq!(back.hash(), b.hash());
}

#[test]
fn truncated_input_errors() {
    let bytes = encode_block(&sample_block());
    assert!(decode_block(&bytes[..bytes.len() - 3]).is_err());
}

#[test]
fn trailing_bytes_error() {
    let mut bytes = encode_block(&sample_block());
    bytes.push(0);
    assert!(matches!(decode_block(&bytes), Err(CodecError::TrailingBytes)));
}

fn blk(height: u64, prev: [u8; 32]) -> Block {
    Block {
        height,
        prev_hash: prev,
        timestamp_days: (height as f32).to_bits(),
        txs: vec![SubmissionTx {
            author: 1,
            embedding: one_hot(height as usize % DIM),
            domain: height as u32,
            stake: 2 * MICRO,
            reviews: vec![Review { reviewer: 10, score: 0.9f32.to_bits() }],
            repl_success: 3,
            repl_total: 3,
            timestamp_days: (height as f32).to_bits(),
            signature: [7u8; 64],
        }],
    }
}

#[test]
fn append_then_read_back() {
    let mut log = BlockLog::open(vec![]);
    let b1 = blk(1, [0u8; 32]);
    let b2 = blk(2, b1.hash());
    log.append(&b1).unwrap();
    log.append(&b2).unwrap();

    let read = BlockLog::open(log.bytes().to_vec()).read_all().unwrap();
    assert_eq!(read.len(), 2);
    assert_eq!(read[0].hash(), b1.hash());
    assert_eq!(read[1].hash(), b2.hash());
}

#[test]
fn empty_log_reads_empty() {
    let log = BlockLog::open(vec![]);
    assert!(log.read_all().unwrap().is_empty());
}

#[test]
fn torn_tail_is_detected() {
    let mut log = BlockLog::open(vec![]);
    log.append(&blk(1, [0u8; 32])).unwrap();
    // drop one byte, as a crash in the middle of an append would
    let bytes = log.bytes();
    let torn = BlockLog::open(bytes[..bytes.len() - 1].to_vec());
    assert!(torn.read_all().is_err());
}

// --- exact bytes --------------------------------------------------------------

#[test]
fn an_empty_block_is_its_header_and_a_zero_count() {
    let b = Block { height: 0x0102, prev_hash: [5u8; 32], timestamp_days: 1.0f32.to_bits(), txs: vec![] };
    let mut expected = vec![0, 0, 0, 0, 0, 0, 1, 2];
    expected.extend_from_slice(&[5u8; 32]);
    expected.extend_from_slice(&[0x3f, 0x80, 0, 0]);
    expected.extend_from_slice(&[0u8; 8]);
    assert_eq!(encode_block(&b), expected);
}

#[test]
fn a_submission_is_its_signing_bytes_and_its_signature() {
    let t = &sample_block().txs[0];
    let signing = tx_signing_bytes(t);
    let full = encode_tx(t);
    assert_eq!(full.len(), signing.len() + 64);
    assert_eq!(full[..signing.len()], signing[..]);
    assert_eq!(full[signing.len()..], [9u8; 64]);
    // author, coordinates, domain, stake, count, two scores, replications, time
    assert_eq!(signing.len(), 8 + 4 * DIM + 4 + 8 + 8 + 2 * 12 + 4 + 4 + 4);
    let back = decode_tx(&full).unwrap();
    assert_eq!(encode_tx(&back), full);
    assert_eq!(back.hash(), t.hash());
}

#[test]
fn every_nan_is_written_alike() {
    let mut e = Enc::new();
    e.binary32(0x7f80_0001);
    e.binary32(0xffff_ffff);
    e.binary32((-0.0f32).to_bits());
    e.u32(0xdead_beef);
    e.raw(&[1, 2]);
    assert_eq!(
        e.0,
        vec![0x7f, 0xc0, 0, 0, 0x7f, 0xc0, 0, 0, 0x80, 0, 0, 0, 0xde, 0xad, 0xbe, 0xef, 1, 2]
    );
}

#[test]
fn reading_stops_at_the_end() {
    let mut d = Dec::new(&[0, 0, 0, 7, 1]);
    assert_eq!(d.u32(), Ok(7));
    assert_eq!(d.u32(), Err(CodecError::UnexpectedEof));
    assert_eq!(d.u64(), Err(CodecError::UnexpectedEof));
    assert_eq!(d.take(1), Ok(&[1u8][..]));
    assert_eq!(d.take(usize::MAX), Err(CodecError::UnexpectedEof));
}

#[test]
fn a_failed_read_leaves_the_cursor() {
    let bytes = [0, 0, 0, 0, 0, 0x10, 0, 0, 1, 2, 3];
    let mut d = Dec::new(&bytes);
    assert_eq!(d.take(12), Err(CodecError::UnexpectedEof));
    assert_eq!(d.remaining(), 11);
    // a count that is too large has been read
    assert_eq!(d.count(), Err(CodecError::TooManyItems(0x10_0000)));
    assert_eq!(d.remaining(), 3);
    assert_eq!(d.count(), Err(CodecError::UnexpectedEof));
    assert_eq!(d.u32(), Err(CodecError::UnexpectedEof));
    assert_eq!(d.u64(), Err(CodecError::UnexpectedEof));
    assert_eq!(d.array::<4>(), Err(CodecError::UnexpectedEof));
    assert_eq!(d.remaining(), 3);
    // of an embedding the coordinates that are there have been read
    let mut d = Dec::new(&bytes);
    assert_eq!(d.emb(), Err(CodecError::UnexpectedEof));
    assert_eq!(d.remaining(), 3);
}

#[test]
fn an_implausible_count_is_refused() {
    let mut bytes = encode_block(&sample_block());
    // the count of submissions stands behind height, previous hash and time
    bytes[44..52].copy_from_slice(&1_000_001u64.to_be_bytes());
    assert!(matches!(decode_block(&bytes), Err(CodecError::TooManyItems(1_000_001))));
    bytes[44..52].copy_from_slice(&1_000_000u64.to_be_bytes());
    assert!(matches!(decode_block(&bytes), Err(CodecError::UnexpectedEof)));
}

#[test]
fn every_cut_block_is_refused() {
    let bytes = encode_block(&sample_block());
    for n in 0..bytes.len() {
        assert!(matches!(decode_block(&bytes[..n]), Err(CodecError::UnexpectedEof)));
    }
    let bytes = encode_tx(&sample_block().txs[0]);
    for n in 0..bytes.len() {
        assert!(matches!(decode_tx(&bytes[..n]), Err(CodecError::UnexpectedEof)));
    }
}

#[test]
fn different_blocks_have_different_bytes() {
    let a = sample_block();
    let mut b = sample_block();
    b.txs[0].reviews.pop();
    assert_ne!(encode_block(&a), encode_block(&b));
    assert_ne!(a.hash(), b.hash());
}

#[test]
fn a_record_is_a_length_and_a_block() {
    let b = sample_block();
    let body = encode_block(&b);
    let record = encode_record(&b).unwrap();
    assert_eq!(record[..4], (body.len() as u32).to_be_bytes());
    assert_eq!(record[4..], body[..]);
}

#[test]
fn a_broken_log_says_how() {
    let body = encode_block(&blk(1, [0u8; 32]));
    let record = encode_record(&blk(1, [0u8; 32])).unwrap();
    let read = |bytes: &[u8]| BlockLog::open(bytes.to_vec()).read_all().map(|v| v.len());
    assert_eq!(read(&record), Ok(1));
    assert_eq!(read(&record[..3]), Err(LogError::TruncatedLength));
    assert_eq!(read(&record[..9]), Err(LogError::TruncatedRecord));
    let mut long = ((body.len() + 1) as u32).to_be_bytes().to_vec();
    long.extend_from_slice(&body);
    long.push(0);
    assert_eq!(read(&long), Err(LogError::Codec(CodecError::TrailingBytes)));
    let mut two = record.clone();
    two.extend_from_slice(&record[..9]);
    assert_eq!(read(&two), Err(LogError::TruncatedRecord));
}
