//! Numbers, amounts and hashes as text.

use vstd::prelude::*;
use vstd::string::*;

use crate::driver::DriverError;
use crate::hash;
use crate::hash::{hex, hex_digit_text};
use crate::parse::CodecError;
use crate::state::ChainError;
use crate::store::LogError;
use crate::MICRO;

verus! {

/// The decimal digits of a number, without leading zeros.
pub open spec fn decimal_text(n: nat) -> Seq<char>
    decreases n,
{
    if n < 10 {
        seq![hash::hex_digit(n as int)]
    } else {
        decimal_text(n / 10) + seq![hash::hex_digit((n % 10) as int)]
    }
}

/// The six decimal digits of a number below a million.
pub open spec fn six_digits(n: int) -> Seq<char> {
    seq![
        hash::hex_digit(n / 100_000 % 10),
        hash::hex_digit(n / 10_000 % 10),
        hash::hex_digit(n / 1_000 % 10),
        hash::hex_digit(n / 100 % 10),
        hash::hex_digit(n / 10 % 10),
        hash::hex_digit(n % 10),
    ]
}

/// An amount of micro-units as units with six decimals.
pub open spec fn cog_text(micro: u64) -> Seq<char> {
    decimal_text((micro / MICRO) as nat) + seq!['.'] + six_digits((micro % MICRO) as int)
}

/// The first eight and the last six digits of a hash.
pub open spec fn short_text(h: Seq<u8>) -> Seq<char> {
    let full = hash::hex_text(h);
    full.take(8) + seq!['\u{2026}'] + full.skip(full.len() - 6)
}

/// The message of a decoding error.
pub open spec fn codec_error_text(e: CodecError) -> Seq<char> {
    match e {
        CodecError::UnexpectedEof => "unexpected end of input"@,
        CodecError::TrailingBytes => "trailing bytes after block"@,
        CodecError::TooManyItems(n) => "implausible item count "@ + decimal_text(n as nat),
        CodecError::BadEnum(n) => "unknown tag "@ + decimal_text(n as nat),
    }
}

/// The message of a log error.
pub open spec fn log_error_text(e: LogError) -> Seq<char> {
    match e {
        LogError::TooLarge => "block too large"@,
        LogError::TruncatedLength => "truncated length prefix"@,
        LogError::TruncatedRecord => "truncated block record"@,
        LogError::Codec(inner) => codec_error_text(inner),
    }
}

/// The message of a refused submission or block, where `score` is a refused score
/// in decimal.
pub open spec fn chain_error_text(e: ChainError, score: Seq<char>) -> Seq<char> {
    match e {
        ChainError::BadHeight { expected, got } => "bad height: expected "@ + decimal_text(
            expected as nat,
        ) + ", got "@ + decimal_text(got as nat),
        ChainError::BadPrevHash => "prev_hash does not match head"@,
        ChainError::UnknownAccount(a) => "unknown account "@ + decimal_text(a as nat),
        ChainError::UnknownReviewer(r) => "unknown assessor "@ + decimal_text(r as nat),
        ChainError::InsufficientBalance { account, need, have } => "account "@ + decimal_text(
            account as nat,
        ) + " cannot stake "@ + decimal_text(need as nat) + " (has "@ + decimal_text(have as nat)
            + ")"@,
        ChainError::BadScore { reviewer, .. } => "assessor "@ + decimal_text(reviewer as nat)
            + " score "@ + score + " out of [0,1]"@,
        ChainError::EmptyReviews(a) => "submission by "@ + decimal_text(a as nat)
            + " has no reviews"@,
        ChainError::BadSignature(a) => "invalid signature for account "@ + decimal_text(a as nat),
        ChainError::Overflow => "a total exceeds 64 bits"@,
    }
}

/// The message of a height that was not produced, where `score` is a refused score
/// in decimal.
pub open spec fn driver_error_text(e: DriverError, score: Seq<char>) -> Seq<char> {
    match e {
        DriverError::ConsensusStalled { height } => "consensus stalled at height "@ + decimal_text(
            height as nat,
        ) + " (quorum not reached)"@,
        DriverError::BadCertificate { height } => "finality certificate at height "@
            + decimal_text(height as nat) + " failed verification"@,
        DriverError::Apply(inner) => "finalized block failed to apply: "@ + chain_error_text(
            inner,
            score,
        ),
    }
}

// --- laws ---------------------------------------------------------------------

/// Whether all characters are decimal digits.
pub open spec fn is_decimal(text: Seq<char>) -> bool {
    forall|i: int| 0 <= i < text.len() ==> '0' <= #[trigger] text[i] <= '9'
}

/// The number that decimal digits spell.
pub open spec fn number_of(text: Seq<char>) -> int
    decreases text.len(),
{
    if text.len() == 0 {
        0
    } else {
        10 * number_of(text.drop_last()) + (text.last() as int - 48)
    }
}

/// A number in decimal reads back as the number, and has no leading zero.
pub proof fn law_decimals_read_back(n: nat)
    ensures
        decimal_text(n).len() > 0,
        is_decimal(decimal_text(n)),
        number_of(decimal_text(n)) == n,
        n > 0 ==> decimal_text(n)[0] != '0',
    decreases n,
{
    let s = decimal_text(n);
    reveal_with_fuel(number_of, 2);
    if n < 10 {
        assert(s.drop_last() =~= Seq::<char>::empty());
    } else {
        law_decimals_read_back(n / 10);
        assert(s.drop_last() =~= decimal_text(n / 10));
        assert forall|i: int| 0 <= i < s.len() implies '0' <= #[trigger] s[i] <= '9' by {
            if i < s.len() - 1 {
                assert(s[i] == decimal_text(n / 10)[i]);
            }
        }
        assert(s[0] == decimal_text(n / 10)[0]);
    }
}

/// An amount in text is its whole units, a point and exactly six decimals; together
/// they read back as the amount.
pub proof fn law_amounts_read_back(micro: u64)
    ensures
        ({
            let s = cog_text(micro);
            let point = s.len() - 7;
            &&& point > 0
            &&& s[point] == '.'
            &&& is_decimal(s.take(point))
            &&& is_decimal(s.skip(point + 1))
            &&& 1_000_000 * number_of(s.take(point)) + number_of(s.skip(point + 1)) == micro
        }),
{
    let s = cog_text(micro);
    let (whole, part) = ((micro / MICRO) as nat, (micro % MICRO) as int);
    law_decimals_read_back(whole);
    assert(s.take(s.len() - 7) =~= decimal_text(whole));
    assert(s.skip(s.len() - 6) =~= six_digits(part));
    lemma_six_digits(part);
}

proof fn lemma_six_digits(n: int)
    requires
        0 <= n < 1_000_000,
    ensures
        is_decimal(six_digits(n)),
        number_of(six_digits(n)) == n,
{
    let s0 = Seq::<char>::empty();
    let s1 = s0.push(hash::hex_digit(n / 100_000 % 10));
    let s2 = s1.push(hash::hex_digit(n / 10_000 % 10));
    let s3 = s2.push(hash::hex_digit(n / 1_000 % 10));
    let s4 = s3.push(hash::hex_digit(n / 100 % 10));
    let s5 = s4.push(hash::hex_digit(n / 10 % 10));
    lemma_one_more_digit(s0, n / 100_000 % 10);
    lemma_one_more_digit(s1, n / 10_000 % 10);
    lemma_one_more_digit(s2, n / 1_000 % 10);
    lemma_one_more_digit(s3, n / 100 % 10);
    lemma_one_more_digit(s4, n / 10 % 10);
    lemma_one_more_digit(s5, n % 10);
    assert(number_of(s1) == n / 100_000);
    assert(number_of(s2) == n / 10_000);
    assert(number_of(s3) == n / 1_000);
    assert(number_of(s4) == n / 100);
    assert(number_of(s5) == n / 10);
    assert(six_digits(n) =~= s5.push(hash::hex_digit(n % 10)));
}

proof fn lemma_one_more_digit(s: Seq<char>, d: int)
    requires
        is_decimal(s),
        0 <= d < 10,
    ensures
        is_decimal(s.push(hash::hex_digit(d))),
        number_of(s.push(hash::hex_digit(d))) == 10 * number_of(s) + d,
{
    assert(s.push(hash::hex_digit(d)).drop_last() =~= s);
}

/// A shortened hash begins with the digits of the first four bytes and ends with those
/// of the last three.
pub proof fn law_short_hashes_keep_both_ends(h: Seq<u8>)
    requires
        h.len() >= 4,
    ensures
        short_text(h).len() == 15,
        short_text(h).take(8) == hash::hex_text(h.take(4)),
        short_text(h).skip(9) == hash::hex_text(h.skip(h.len() - 3)),
{
    assert(short_text(h).take(8) =~= hash::hex_text(h.take(4)));
    assert(short_text(h).skip(9) =~= hash::hex_text(h.skip(h.len() - 3)));
}

/// Two digits of a byte, each among the sixteen, read back as the byte.
pub proof fn law_hex_reads_back(data: Seq<u8>, i: int)
    requires
        0 <= i < data.len(),
    ensures
        ({
            let s = hash::hex_text(data);
            let value = |c: char|
                if c <= '9' {
                    c as int - 48
                } else {
                    c as int - 87
                };
            &&& s.len() == 2 * data.len()
            &&& '0' <= s[2 * i] <= '9' || 'a' <= s[2 * i] <= 'f'
            &&& '0' <= s[2 * i + 1] <= '9' || 'a' <= s[2 * i + 1] <= 'f'
            &&& 16 * value(s[2 * i]) + value(s[2 * i + 1]) == data[i]
        }),
{
}

/// Text with a number behind it.
fn with_number(head: &str, n: u64) -> (r: String)
    ensures
        r@ == head@ + decimal_text(n as nat),
{
    let mut s = String::from_str(head);
    let d = decimal(n);
    s.append(d.as_str());
    s
}

/// A number in decimal.
pub fn decimal(n: u64) -> (r: String)
    ensures
        r@ == decimal_text(n as nat),
    decreases n,
{
    if n < 10 {
        let mut s = String::from_str("");
        proof {
            reveal_strlit("");
        }
        s.append(hex_digit_text(n as u8));
        assert(s@ =~= decimal_text(n as nat));
        s
    } else {
        let mut s = decimal(n / 10);
        s.append(hex_digit_text((n % 10) as u8));
        s
    }
}

/// An amount of micro-units as units with six decimals.
pub fn cog(micro: u64) -> (r: String)
    ensures
        r@ == cog_text(micro),
{
    let mut s = decimal(micro / MICRO);
    let rest: u64 = micro % MICRO;
    proof {
        reveal_strlit(".");
    }
    s.append(".");
    s.append(hex_digit_text((rest / 100_000 % 10) as u8));
    s.append(hex_digit_text((rest / 10_000 % 10) as u8));
    s.append(hex_digit_text((rest / 1_000 % 10) as u8));
    s.append(hex_digit_text((rest / 100 % 10) as u8));
    s.append(hex_digit_text((rest / 10 % 10) as u8));
    s.append(hex_digit_text((rest % 10) as u8));
    assert(s@ =~= cog_text(micro));
    s
}

/// The first eight and the last six digits of a hash.
pub fn short(h: &[u8]) -> (r: String)
    requires
        h@.len() >= 4,
    ensures
        r@ == short_text(h@),
{
    let head = vstd::slice::slice_subrange(h, 0, 4);
    let tail = vstd::slice::slice_subrange(h, h.len() - 3, h.len());
    let mut s = hex(head);
    let end = hex(tail);
    proof {
        reveal_strlit("\u{2026}");
    }
    s.append("\u{2026}");
    s.append(end.as_str());
    proof {
        let full = hash::hex_text(h@);
        assert(hash::hex_text(head@) =~= full.take(8));
        assert(hash::hex_text(tail@) =~= full.skip(full.len() - 6));
        assert(s@ =~= short_text(h@));
    }
    s
}

impl CodecError {
    /// The message of this error.
    pub fn text(&self) -> (r: String)
        ensures
            r@ == codec_error_text(*self),
    {
        match self {
            CodecError::UnexpectedEof => String::from_str("unexpected end of input"),
            CodecError::TrailingBytes => String::from_str("trailing bytes after block"),
            CodecError::TooManyItems(n) => with_number("implausible item count ", *n),
            CodecError::BadEnum(n) => with_number("unknown tag ", *n as u64),
        }
    }
}

impl LogError {
    /// The message of this error.
    pub fn text(&self) -> (r: String)
        ensures
            r@ == log_error_text(*self),
    {
        match self {
            LogError::TooLarge => String::from_str("block too large"),
            LogError::TruncatedLength => String::from_str("truncated length prefix"),
            LogError::TruncatedRecord => String::from_str("truncated block record"),
            LogError::Codec(inner) => inner.text(),
        }
    }
}

impl ChainError {
    /// The message of this error. Scores are bit patterns here, so the caller hands
    /// over the refused score in decimal.
    pub fn text(&self, score: &str) -> (r: String)
        ensures
            r@ == chain_error_text(*self, score@),
    {
        match self {
            ChainError::BadHeight { expected, got } => {
                let mut s = with_number("bad height: expected ", *expected);
                s.append(", got ");
                let d = decimal(*got);
                s.append(d.as_str());
                s
            },
            ChainError::BadPrevHash => String::from_str("prev_hash does not match head"),
            ChainError::UnknownAccount(a) => with_number("unknown account ", *a),
            ChainError::UnknownReviewer(r) => with_number("unknown assessor ", *r),
            ChainError::InsufficientBalance { account, need, have } => {
                let mut s = with_number("account ", *account);
                s.append(" cannot stake ");
                let d = decimal(*need);
                s.append(d.as_str());
                s.append(" (has ");
                let d2 = decimal(*have);
                s.append(d2.as_str());
                s.append(")");
                s
            },
            ChainError::BadScore { reviewer, .. } => {
                let mut s = with_number("assessor ", *reviewer);
                s.append(" score ");
                s.append(score);
                s.append(" out of [0,1]");
                s
            },
            ChainError::EmptyReviews(a) => {
                let mut s = with_number("submission by ", *a);
                s.append(" has no reviews");
                s
            },
            ChainError::BadSignature(a) => with_number("invalid signature for account ", *a),
            ChainError::Overflow => String::from_str("a total exceeds 64 bits"),
        }
    }
}

impl DriverError {
    /// The message of this error, with a refused score in decimal.
    pub fn text(&self, score: &str) -> (r: String)
        ensures
            r@ == driver_error_text(*self, score@),
    {
        match self {
            DriverError::ConsensusStalled { height } => {
                let mut s = with_number("consensus stalled at height ", *height);
                s.append(" (quorum not reached)");
                s
            },
            DriverError::BadCertificate { height } => {
                let mut s = with_number("finality certificate at height ", *height);
                s.append(" failed verification");
                s
            },
            DriverError::Apply(inner) => {
                let mut s = String::from_str("finalized block failed to apply: ");
                let d = inner.text(score);
                s.append(d.as_str());
                s
            },
        }
    }
}

} // verus!
