//! What people are shown.

use zhixing_node::driver::DriverError;
use zhixing_node::parse::CodecError;
use zhixing_node::store::LogError;
use zhixing_node::text::{cog, decimal, short};
use zhixing_node::ChainError;

#[test]
fn numbers_are_written_in_decimal() {
    for n in [0u64, 7, 10, 100, 1_234_567, u64::MAX] {
        assert_eq!(decimal(n), n.to_string());
    }
}

#[test]
fn amounts_have_six_decimals() {
    assert_eq!(cog(0), "0.000000");
    assert_eq!(cog(1), "0.000001");
    assert_eq!(cog(30_000_000), "30.000000");
    assert_eq!(cog(6_400_120), "6.400120");
}

#[test]
fn hashes_are_shortened() {
    let mut h = [0u8; 32];
    h[0] = 0x09;
    h[3] = 0xab;
    h[31] = 0x4f;
    assert_eq!(short(&h), "090000ab\u{2026}00004f");
}

#[test]
fn chain_errors_say_what_is_wrong() {
    let t = |e: ChainError| e.text("1.5");
    assert_eq!(t(ChainError::BadHeight { expected: 2, got: 5 }), "bad height: expected 2, got 5");
    assert_eq!(t(ChainError::BadPrevHash), "prev_hash does not match head");
    assert_eq!(t(ChainError::UnknownAccount(9)), "unknown account 9");
    assert_eq!(t(ChainError::UnknownReviewer(9)), "unknown assessor 9");
    assert_eq!(
        t(ChainError::InsufficientBalance { account: 1, need: 20, have: 3 }),
        "account 1 cannot stake 20 (has 3)"
    );
    assert_eq!(
        t(ChainError::BadScore { reviewer: 10, score: 1.5f32.to_bits() }),
        "assessor 10 score 1.5 out of [0,1]"
    );
    assert_eq!(t(ChainError::EmptyReviews(4)), "submission by 4 has no reviews");
    assert_eq!(t(ChainError::BadSignature(4)), "invalid signature for account 4");
    assert_eq!(t(ChainError::Overflow), "a total exceeds 64 bits");
}

#[test]
fn other_errors_say_what_is_wrong() {
    assert_eq!(
        DriverError::ConsensusStalled { height: 3 }.text(""),
        "consensus stalled at height 3 (quorum not reached)"
    );
    assert_eq!(
        DriverError::BadCertificate { height: 3 }.text(""),
        "finality certificate at height 3 failed verification"
    );
    assert_eq!(
        DriverError::Apply(ChainError::BadPrevHash).text(""),
        "finalized block failed to apply: prev_hash does not match head"
    );
    assert_eq!(CodecError::UnexpectedEof.text(), "unexpected end of input");
    assert_eq!(CodecError::TrailingBytes.text(), "trailing bytes after block");
    assert_eq!(CodecError::TooManyItems(33).text(), "implausible item count 33");
    assert_eq!(CodecError::BadEnum(7).text(), "unknown tag 7");
    assert_eq!(LogError::TooLarge.text(), "block too large");
    assert_eq!(LogError::TruncatedLength.text(), "truncated length prefix");
    assert_eq!(LogError::TruncatedRecord.text(), "truncated block record");
    assert_eq!(LogError::Codec(CodecError::TrailingBytes).text(), "trailing bytes after block");
}
