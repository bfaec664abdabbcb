//! SHA-256 as FIPS 180-4 defines it, and lower-case hexadecimal.

use vstd::prelude::*;
use vstd::string::*;

use crate::bytes;
use crate::bytes::{push_be32, push_be64, push_bytes, read_be32, to_array};
use crate::Digest;

verus! {

/// The round constants: the first 32 bits of the fractional parts of the cube
/// roots of the first sixty-four primes.
pub const ROUND_CONSTANTS: [u32; 64] = [
    0x428a2f98, 0x71374491, 0xb5c0fbcf, 0xe9b5dba5, 0x3956c25b, 0x59f111f1, 0x923f82a4, 0xab1c5ed5,
    0xd807aa98, 0x12835b01, 0x243185be, 0x550c7dc3, 0x72be5d74, 0x80deb1fe, 0x9bdc06a7, 0xc19bf174,
    0xe49b69c1, 0xefbe4786, 0x0fc19dc6, 0x240ca1cc, 0x2de92c6f, 0x4a7484aa, 0x5cb0a9dc, 0x76f988da,
    0x983e5152, 0xa831c66d, 0xb00327c8, 0xbf597fc7, 0xc6e00bf3, 0xd5a79147, 0x06ca6351, 0x14292967,
    0x27b70a85, 0x2e1b2138, 0x4d2c6dfc, 0x53380d13, 0x650a7354, 0x766a0abb, 0x81c2c92e, 0x92722c85,
    0xa2bfe8a1, 0xa81a664b, 0xc24b8b70, 0xc76c51a3, 0xd192e819, 0xd6990624, 0xf40e3585, 0x106aa070,
    0x19a4c116, 0x1e376c08, 0x2748774c, 0x34b0bcb5, 0x391c0cb3, 0x4ed8aa4a, 0x5b9cca4f, 0x682e6ff3,
    0x748f82ee, 0x78a5636f, 0x84c87814, 0x8cc70208, 0x90befffa, 0xa4506ceb, 0xbef9a3f7, 0xc67178f2,
];

/// The eight working words.
#[derive(Clone, Copy)]
pub struct Words {
    pub a: u32,
    pub b: u32,
    pub c: u32,
    pub d: u32,
    pub e: u32,
    pub f: u32,
    pub g: u32,
    pub h: u32,
}

/// Addition modulo 2^32.
pub open spec fn plus(x: u32, y: u32) -> u32 {
    ((x + y) % 0x1_0000_0000) as u32
}

pub open spec fn rotate(x: u32, n: u32) -> u32 {
    (x >> n) | (x << ((32 - n) as u32))
}

pub open spec fn big_sigma0(x: u32) -> u32 {
    rotate(x, 2) ^ rotate(x, 13) ^ rotate(x, 22)
}

pub open spec fn big_sigma1(x: u32) -> u32 {
    rotate(x, 6) ^ rotate(x, 11) ^ rotate(x, 25)
}

pub open spec fn small_sigma0(x: u32) -> u32 {
    rotate(x, 7) ^ rotate(x, 18) ^ (x >> 3)
}

pub open spec fn small_sigma1(x: u32) -> u32 {
    rotate(x, 17) ^ rotate(x, 19) ^ (x >> 10)
}

pub open spec fn choice(x: u32, y: u32, z: u32) -> u32 {
    (x & y) ^ (!x & z)
}

pub open spec fn majority(x: u32, y: u32, z: u32) -> u32 {
    (x & y) ^ (x & z) ^ (y & z)
}

/// Word `t` of the message schedule of a 64-byte block.
pub open spec fn schedule(block: Seq<u8>, t: nat) -> u32
    decreases t,
{
    if t < 16 {
        bytes::word32(block.skip((4 * t) as int))
    } else {
        plus(
            plus(
                plus(small_sigma1(schedule(block, (t - 2) as nat)), schedule(block, (t - 7) as nat)),
                small_sigma0(schedule(block, (t - 15) as nat)),
            ),
            schedule(block, (t - 16) as nat),
        )
    }
}

/// One round with schedule word `w` and round constant `k`.
pub open spec fn round(s: Words, w: u32, k: u32) -> Words {
    let t1 = plus(plus(plus(plus(s.h, big_sigma1(s.e)), choice(s.e, s.f, s.g)), k), w);
    let t2 = plus(big_sigma0(s.a), majority(s.a, s.b, s.c));
    Words {
        a: plus(t1, t2),
        b: s.a,
        c: s.b,
        d: s.c,
        e: plus(s.d, t1),
        f: s.e,
        g: s.f,
        h: s.g,
    }
}

/// The working words after `t` rounds over `block`.
pub open spec fn rounds(s: Words, block: Seq<u8>, t: nat) -> Words
    decreases t,
{
    if t == 0 {
        s
    } else {
        round(
            rounds(s, block, (t - 1) as nat),
            schedule(block, (t - 1) as nat),
            ROUND_CONSTANTS@[t - 1],
        )
    }
}

/// The chaining value after one block.
pub open spec fn compress(s: Words, block: Seq<u8>) -> Words {
    let r = rounds(s, block, 64);
    Words {
        a: plus(s.a, r.a),
        b: plus(s.b, r.b),
        c: plus(s.c, r.c),
        d: plus(s.d, r.d),
        e: plus(s.e, r.e),
        f: plus(s.f, r.f),
        g: plus(s.g, r.g),
        h: plus(s.h, r.h),
    }
}

/// The chaining value after the first `n` blocks of `padded`.
pub open spec fn absorb(padded: Seq<u8>, n: nat) -> Words
    decreases n,
{
    if n == 0 {
        initial_words()
    } else {
        compress(absorb(padded, (n - 1) as nat), padded.skip(64 * (n - 1)))
    }
}

pub open spec fn initial_words() -> Words {
    Words {
        a: 0x6a09e667,
        b: 0xbb67ae85,
        c: 0x3c6ef372,
        d: 0xa54ff53a,
        e: 0x510e527f,
        f: 0x9b05688c,
        g: 0x1f83d9ab,
        h: 0x5be0cd19,
    }
}

/// How many zero bytes stand between the marker byte and the length.
pub open spec fn zero_run(len: nat) -> nat {
    ((119 - len % 64) % 64) as nat
}

/// The message, a marker byte, zeros up to eight bytes short of a block
/// boundary, and the length in bits.
pub open spec fn pad(msg: Seq<u8>) -> Seq<u8> {
    msg + seq![0x80u8] + Seq::new(zero_run(msg.len()), |i: int| 0u8) + bytes::be64(
        (msg.len() * 8 % 0x1_0000_0000_0000_0000) as u64,
    )
}

/// The bytes of the working words in order.
pub open spec fn word_bytes(s: Words) -> Seq<u8> {
    bytes::be32(s.a) + bytes::be32(s.b) + bytes::be32(s.c)
        + bytes::be32(s.d) + bytes::be32(s.e) + bytes::be32(s.f)
        + bytes::be32(s.g) + bytes::be32(s.h)
}

/// The SHA-256 digest of `msg`.
#[verifier::opaque]
pub open spec fn digest(msg: Seq<u8>) -> Seq<u8> {
    let padded = pad(msg);
    word_bytes(absorb(padded, padded.len() / 64))
}

/// The SHA-256 digest as an array.
pub open spec fn hash_of(msg: Seq<u8>) -> Digest {
    bytes::arr(digest(msg))
}

fn add_words(x: u32, y: u32) -> (r: u32)
    ensures
        r == plus(x, y),
{
    x.wrapping_add(y)
}

fn rotate_word(x: u32, n: u32) -> (r: u32)
    requires
        0 < n < 32,
    ensures
        r == rotate(x, n),
{
    (x >> n) | (x << (32 - n))
}

fn schedule_words(block: &[u8]) -> (w: Vec<u32>)
    requires
        block@.len() >= 64,
    ensures
        w@.len() == 64,
        forall|t: int| 0 <= t < 64 ==> #[trigger] w@[t] == schedule(block@, t as nat),
{
    let mut w: Vec<u32> = Vec::new();
    let mut t: usize = 0;
    while t < 64
        invariant
            block@.len() >= 64,
            t <= 64,
            w@.len() == t,
            forall|i: int| 0 <= i < t ==> #[trigger] w@[i] == schedule(block@, i as nat),
        decreases 64 - t,
    {
        if t < 16 {
            let x: u32 = read_be32(vstd::slice::slice_subrange(block, 4 * t, block.len()));
            assert(block@.subrange(4 * t, block@.len() as int) =~= block@.skip(4 * t));
            w.push(x);
        } else {
            let w2: u32 = w[t - 2];
            let w15: u32 = w[t - 15];
            let s1: u32 = rotate_word(w2, 17) ^ rotate_word(w2, 19) ^ (w2 >> 10);
            let s0: u32 = rotate_word(w15, 7) ^ rotate_word(w15, 18) ^ (w15 >> 3);
            let x: u32 = add_words(add_words(add_words(s1, w[t - 7]), s0), w[t - 16]);
            w.push(x);
        }
        t += 1;
    }
    w
}

fn compress_block(s: Words, block: &[u8]) -> (r: Words)
    requires
        block@.len() >= 64,
    ensures
        r == compress(s, block@),
{
    let w = schedule_words(block);
    let mut v: Words = s;
    let mut t: usize = 0;
    while t < 64
        invariant
            t <= 64,
            w@.len() == 64,
            forall|i: int| 0 <= i < 64 ==> #[trigger] w@[i] == schedule(block@, i as nat),
            v == rounds(s, block@, t as nat),
        decreases 64 - t,
    {
        let e1: u32 = rotate_word(v.e, 6) ^ rotate_word(v.e, 11) ^ rotate_word(v.e, 25);
        let ch: u32 = (v.e & v.f) ^ (!v.e & v.g);
        let k: u32 = ROUND_CONSTANTS[t];
        let t1: u32 = add_words(add_words(add_words(add_words(v.h, e1), ch), k), w[t]);
        let e0: u32 = rotate_word(v.a, 2) ^ rotate_word(v.a, 13) ^ rotate_word(v.a, 22);
        let maj: u32 = (v.a & v.b) ^ (v.a & v.c) ^ (v.b & v.c);
        let t2: u32 = add_words(e0, maj);
        v = Words {
            a: add_words(t1, t2),
            b: v.a,
            c: v.b,
            d: v.c,
            e: add_words(v.d, t1),
            f: v.e,
            g: v.f,
            h: v.g,
        };
        t += 1;
    }
    Words {
        a: add_words(s.a, v.a),
        b: add_words(s.b, v.b),
        c: add_words(s.c, v.c),
        d: add_words(s.d, v.d),
        e: add_words(s.e, v.e),
        f: add_words(s.f, v.f),
        g: add_words(s.g, v.g),
        h: add_words(s.h, v.h),
    }
}

fn padded_message(data: &[u8]) -> (padded: Vec<u8>)
    ensures
        padded@ == pad(data@),
        padded@.len() % 64 == 0,
{
    let mut padded: Vec<u8> = Vec::new();
    push_bytes(&mut padded, data);
    padded.push(0x80);
    let n: usize = data.len();
    let zeros: usize = (119 - n % 64) % 64;
    let mut i: usize = 0;
    while i < zeros
        invariant
            i <= zeros,
            zeros == zero_run(data@.len()),
            padded@ == data@ + seq![0x80u8] + Seq::new(i as nat, |j: int| 0u8),
        decreases zeros - i,
    {
        padded.push(0);
        i += 1;
        assert(padded@ =~= data@ + seq![0x80u8] + Seq::new(i as nat, |j: int| 0u8));
    }
    let bits: u64 = (n as u64).wrapping_mul(8);
    push_be64(&mut padded, bits);
    proof {
        lemma_pad_len(data@);
    }
    padded
}

proof fn lemma_pad_len(msg: Seq<u8>)
    ensures
        pad(msg).len() % 64 == 0,
{
    let n = msg.len();
    let z = zero_run(n);
    let zeros = Seq::new(z, |i: int| 0u8);
    let bits = (n * 8 % 0x1_0000_0000_0000_0000) as u64;
    bytes::lemma_be64_len(bits);
    lemma_zero_run(n);
}

proof fn lemma_zero_run(n: nat)
    ensures
        (n + 1 + zero_run(n) + 8) % 64 == 0,
{
    let r = n % 64;
    if r <= 55 {
        assert(zero_run(n) == 55 - r);
    } else {
        assert(zero_run(n) == 119 - r);
    }
}

/// The bytes of the working words as an array.
fn words_to_digest(s: Words) -> (r: Digest)
    ensures
        r@ == word_bytes(s),
        r == bytes::arr::<u8, 32>(word_bytes(s)),
{
    broadcast use bytes::lemma_be32_len;

    let mut out: Vec<u8> = Vec::new();
    push_be32(&mut out, s.a);
    push_be32(&mut out, s.b);
    push_be32(&mut out, s.c);
    push_be32(&mut out, s.d);
    push_be32(&mut out, s.e);
    push_be32(&mut out, s.f);
    push_be32(&mut out, s.g);
    push_be32(&mut out, s.h);
    assert(out@ =~= word_bytes(s));
    to_array(out.as_slice())
}

/// The SHA-256 digest of `data`.
pub fn sha256(data: &[u8]) -> (r: Digest)
    ensures
        r@ == digest(data@),
        r == hash_of(data@),
{
    let padded = padded_message(data);
    let blocks: usize = padded.len() / 64;
    let mut s: Words = Words {
        a: 0x6a09e667,
        b: 0xbb67ae85,
        c: 0x3c6ef372,
        d: 0xa54ff53a,
        e: 0x510e527f,
        f: 0x9b05688c,
        g: 0x1f83d9ab,
        h: 0x5be0cd19,
    };
    let mut n: usize = 0;
    while n < blocks
        invariant
            n <= blocks,
            blocks * 64 == padded.len(),
            s == absorb(padded@, n as nat),
        decreases blocks - n,
    {
        let block = vstd::slice::slice_subrange(padded.as_slice(), 64 * n, padded.len());
        assert(padded@.subrange(64 * n, padded@.len() as int) =~= padded@.skip(64 * n));
        s = compress_block(s, block);
        n += 1;
    }
    proof {
        reveal(digest);
    }
    words_to_digest(s)
}

/// The ASCII code of the lower-case hexadecimal digit for `d`.
pub open spec fn hex_digit(d: int) -> char {
    if d < 10 {
        (d + 48) as char
    } else {
        (d + 87) as char
    }
}

/// Two digits for every byte, high half first.
pub open spec fn hex_text(data: Seq<u8>) -> Seq<char> {
    Seq::new(
        2 * data.len(),
        |i: int|
            if i % 2 == 0 {
                hex_digit(data[i / 2] as int / 16)
            } else {
                hex_digit(data[i / 2] as int % 16)
            },
    )
}

pub(crate) fn hex_digit_text(d: u8) -> (s: &'static str)
    requires
        d < 16,
    ensures
        s@ == seq![hex_digit(d as int)],
{
    let s: &'static str = match d {
        0 => {
            proof {
                reveal_strlit("0");
            }
            "0"
        },
        1 => {
            proof {
                reveal_strlit("1");
            }
            "1"
        },
        2 => {
            proof {
                reveal_strlit("2");
            }
            "2"
        },
        3 => {
            proof {
                reveal_strlit("3");
            }
            "3"
        },
        4 => {
            proof {
                reveal_strlit("4");
            }
            "4"
        },
        5 => {
            proof {
                reveal_strlit("5");
            }
            "5"
        },
        6 => {
            proof {
                reveal_strlit("6");
            }
            "6"
        },
        7 => {
            proof {
                reveal_strlit("7");
            }
            "7"
        },
        8 => {
            proof {
                reveal_strlit("8");
            }
            "8"
        },
        9 => {
            proof {
                reveal_strlit("9");
            }
            "9"
        },
        10 => {
            proof {
                reveal_strlit("a");
            }
            "a"
        },
        11 => {
            proof {
                reveal_strlit("b");
            }
            "b"
        },
        12 => {
            proof {
                reveal_strlit("c");
            }
            "c"
        },
        13 => {
            proof {
                reveal_strlit("d");
            }
            "d"
        },
        14 => {
            proof {
                reveal_strlit("e");
            }
            "e"
        },
        _ => {
            proof {
                reveal_strlit("f");
            }
            "f"
        },
    };
    assert(s@ =~= seq![hex_digit(d as int)]);
    s
}

/// Lower-case hexadecimal text of `data`.
pub fn hex(data: &[u8]) -> (text: String)
    ensures
        text@ == hex_text(data@),
{
    let mut text: String = String::from_str("");
    proof {
        reveal_strlit("");
    }
    assert(text@ =~= hex_text(data@.take(0)));
    let mut i: usize = 0;
    while i < data.len()
        invariant
            i <= data@.len(),
            text@ == hex_text(data@.take(i as int)),
        decreases data@.len() - i,
    {
        let b: u8 = data[i];
        text.append(hex_digit_text(b / 16));
        text.append(hex_digit_text(b % 16));
        i += 1;
        assert(text@ =~= hex_text(data@.take(i as int)));
    }
    assert(data@.take(i as int) =~= data@);
    text
}

} // verus!
