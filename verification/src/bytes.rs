//! Big-endian integers, fixed-size arrays and byte comparison: the vocabulary
//! that the canonical encodings are written in.

use vstd::prelude::*;

verus! {

/// The big-endian bytes of a 32-bit word, most significant first.
#[verifier::opaque]
pub open spec fn be32(x: u32) -> Seq<u8> {
    seq![
        (x / 0x1000000) as u8,
        (x / 0x10000 % 0x100) as u8,
        (x / 0x100 % 0x100) as u8,
        (x % 0x100) as u8,
    ]
}

/// The word whose big-endian bytes are the first four bytes of `s`.
#[verifier::opaque]
pub open spec fn word32(s: Seq<u8>) -> u32 {
    (s[0] * 0x1000000 + s[1] * 0x10000 + s[2] * 0x100 + s[3]) as u32
}

/// The big-endian bytes of a 64-bit word: its high half, then its low half.
#[verifier::opaque]
pub open spec fn be64(x: u64) -> Seq<u8> {
    be32((x / 0x1_0000_0000) as u32) + be32((x % 0x1_0000_0000) as u32)
}

/// The word whose big-endian bytes are the first eight bytes of `s`.
#[verifier::opaque]
pub open spec fn word64(s: Seq<u8>) -> u64 {
    (word32(s) * 0x1_0000_0000 + word32(s.skip(4))) as u64
}

/// Encoding a 32-bit word and reading it back gives the word.
pub proof fn lemma_be32_word32(x: u32, rest: Seq<u8>)
    ensures
        be32(x).len() == 4,
        word32(be32(x) + rest) == x,
        (be32(x) + rest).skip(4) == rest,
{
    reveal(be32);
    reveal(word32);
    let s = be32(x) + rest;
    assert(s[0] == be32(x)[0] && s[1] == be32(x)[1] && s[2] == be32(x)[2] && s[3] == be32(x)[3]);
    assert(s.skip(4) =~= rest);
}

/// Four bytes are the encoding of the word that they spell.
pub proof fn lemma_word32_be32(s: Seq<u8>)
    requires
        s.len() >= 4,
    ensures
        be32(word32(s)) + s.skip(4) == s,
{
    reveal(be32);
    reveal(word32);
    let x = word32(s);
    let (a, b, c, d) = (s[0] as int, s[1] as int, s[2] as int, s[3] as int);
    assert(x == a * 0x1000000 + b * 0x10000 + c * 0x100 + d);
    assert(x as int / 0x1000000 == a);
    assert(x as int / 0x10000 == a * 0x100 + b);
    assert(x as int / 0x100 == a * 0x10000 + b * 0x100 + c);
    assert(be32(x) + s.skip(4) =~= s);
}

/// Encoding a 64-bit word and reading it back gives the word.
pub proof fn lemma_be64_word64(x: u64, rest: Seq<u8>)
    ensures
        be64(x).len() == 8,
        word64(be64(x) + rest) == x,
        (be64(x) + rest).skip(8) == rest,
{
    reveal(be32);
    reveal(word32);
    reveal(be64);
    reveal(word64);
    let hi = (x / 0x1_0000_0000) as u32;
    let lo = (x % 0x1_0000_0000) as u32;
    let s = be64(x) + rest;
    assert(s =~= be32(hi) + (be32(lo) + rest));
    lemma_be32_word32(hi, be32(lo) + rest);
    lemma_be32_word32(lo, rest);
    assert(s.skip(8) =~= rest);
}

/// Eight bytes are the encoding of the word that they spell.
pub proof fn lemma_word64_be64(s: Seq<u8>)
    requires
        s.len() >= 8,
    ensures
        be64(word64(s)) + s.skip(8) == s,
{
    reveal(be32);
    reveal(word32);
    reveal(be64);
    reveal(word64);
    lemma_word32_be32(s);
    lemma_word32_be32(s.skip(4));
    let hi = word32(s);
    let lo = word32(s.skip(4));
    assert(word64(s) == hi * 0x1_0000_0000 + lo);
    assert(word64(s) / 0x1_0000_0000 == hi);
    assert(word64(s) % 0x1_0000_0000 == lo);
    assert(s.skip(4).skip(4) =~= s.skip(8));
    assert(be64(word64(s)) + s.skip(8) =~= be32(hi) + (be32(lo) + s.skip(8)));
}

/// The lengths of encoded words.
pub broadcast proof fn lemma_be32_len(x: u32)
    ensures
        #[trigger] be32(x).len() == 4,
{
    reveal(be32);
}

pub broadcast proof fn lemma_be64_len(x: u64)
    ensures
        #[trigger] be64(x).len() == 8,
{
    reveal(be32);
    reveal(be64);
}

/// A word is spelled by its own bytes alone.
pub proof fn lemma_word_prefix(s: Seq<u8>)
    ensures
        s.len() >= 4 ==> word32(s.take(4)) == word32(s),
        s.len() >= 8 ==> word64(s.take(8)) == word64(s),
{
    reveal(word32);
    reveal(word64);
    if s.len() >= 8 {
        assert(s.take(8).skip(4) =~= s.skip(4).take(4));
    }
}

/// The array that holds the elements of `s`.
pub open spec fn arr<T, const N: usize>(s: Seq<T>) -> [T; N] {
    choose|a: [T; N]| a@ == s
}

/// Every sequence of the right length is the contents of an array.
pub proof fn lemma_arr<T, const N: usize>(s: Seq<T>)
    requires
        s.len() == N,
    ensures
        arr::<T, N>(s)@ == s,
{
    let a = lemma_arr_prefix::<T, N>(s, N as int);
    assert(a@ =~= s);
}

proof fn lemma_arr_prefix<T, const N: usize>(s: Seq<T>, k: int) -> (a: [T; N])
    requires
        s.len() == N,
        0 <= k <= N,
    ensures
        forall|i: int| 0 <= i < k ==> a@[i] == s[i],
    decreases k,
{
    if k == 0 {
        arbitrary()
    } else {
        let a = lemma_arr_prefix::<T, N>(s, k - 1);
        let b = vstd::array::spec_array_update(a, k - 1, s[k - 1]);
        assert(b@ == a@.update(k - 1, s[k - 1]));
        b
    }
}

/// An array is recovered from its contents.
pub proof fn lemma_arr_view<T, const N: usize>(a: [T; N])
    ensures
        arr::<T, N>(a@) == a,
{
    let b = arr::<T, N>(a@);
    assert(b@ == a@);
    assert forall|i: int| 0 <= i < N implies b[i] == a[i] by {
        assert(b@[i] == a@[i]);
    }
    assert(b =~= a);
}

/// The 32-bit word at the front of `s`.
pub fn read_be32(s: &[u8]) -> (x: u32)
    requires
        s@.len() >= 4,
    ensures
        x == word32(s@),
{
    proof {
        reveal(word32);
    }
    s[0] as u32 * 0x1000000 + s[1] as u32 * 0x10000 + s[2] as u32 * 0x100 + s[3] as u32
}

/// The 64-bit word at the front of `s`.
pub fn read_be64(s: &[u8]) -> (x: u64)
    requires
        s@.len() >= 8,
    ensures
        x == word64(s@),
{
    proof {
        reveal(be32);
        reveal(word32);
        reveal(be64);
        reveal(word64);
    }
    let hi: u32 = read_be32(s);
    let lo: u32 = s[4] as u32 * 0x1000000 + s[5] as u32 * 0x10000 + s[6] as u32 * 0x100
        + s[7] as u32;
    hi as u64 * 0x1_0000_0000 + lo as u64
}

/// Appends the big-endian bytes of a 32-bit word.
pub fn push_be32(out: &mut Vec<u8>, x: u32)
    ensures
        final(out)@ == old(out)@ + be32(x),
{
    proof {
        reveal(be32);
        reveal(word32);
    }
    out.push((x / 0x1000000) as u8);
    out.push((x / 0x10000 % 0x100) as u8);
    out.push((x / 0x100 % 0x100) as u8);
    out.push((x % 0x100) as u8);
    assert(out@ =~= old(out)@ + be32(x));
}

/// Appends the big-endian bytes of a 64-bit word.
pub fn push_be64(out: &mut Vec<u8>, x: u64)
    ensures
        final(out)@ == old(out)@ + be64(x),
{
    proof {
        reveal(be32);
        reveal(word32);
        reveal(be64);
        reveal(word64);
    }
    push_be32(out, (x / 0x1_0000_0000) as u32);
    push_be32(out, (x % 0x1_0000_0000) as u32);
    assert(out@ =~= old(out)@ + be64(x));
}

/// Appends a run of bytes.
pub fn push_bytes(out: &mut Vec<u8>, s: &[u8])
    ensures
        final(out)@ == old(out)@ + s@,
{
    out.extend_from_slice(s);
    assert(out@ =~= old(out)@ + s@);
}

/// The array holding a slice of exactly the right length.
pub fn to_array<const N: usize>(s: &[u8]) -> (a: [u8; N])
    requires
        s@.len() == N,
    ensures
        a@ == s@,
        a == arr::<u8, N>(s@),
{
    let mut a: [u8; N] = [0u8; N];
    let mut i: usize = 0;
    while i < N
        invariant
            s@.len() == N,
            i <= N,
            forall|j: int| 0 <= j < i ==> a@[j] == s@[j],
        decreases N - i,
    {
        a[i] = s[i];
        i += 1;
    }
    assert(a@ =~= s@);
    proof {
        lemma_arr_view(a);
    }
    a
}

/// Whether two byte arrays hold the same bytes.
pub fn same_bytes<const N: usize>(a: &[u8; N], b: &[u8; N]) -> (r: bool)
    ensures
        r == (*a == *b),
{
    let mut i: usize = 0;
    while i < N
        invariant
            i <= N,
            forall|j: int| 0 <= j < i ==> a@[j] == b@[j],
        decreases N - i,
    {
        if a[i] != b[i] {
            return false;
        }
        i += 1;
    }
    assert(*a =~= *b);
    true
}

/// A copy of a vector of plain values.
pub fn copy_vec<T: Copy>(v: &Vec<T>) -> (r: Vec<T>)
    ensures
        r@ == v@,
{
    let mut r: Vec<T> = Vec::new();
    let mut i: usize = 0;
    while i < v.len()
        invariant
            i <= v.len(),
            r@ == v@.take(i as int),
        decreases v.len() - i,
    {
        r.push(v[i]);
        assert(v@.take(i + 1) =~= v@.take(i as int).push(v@[i as int]));
        i += 1;
    }
    assert(v@.take(i as int) =~= v@);
    r
}

/// Thirty-two zero bytes.
pub open spec fn zeros() -> [u8; 32] {
    arr(Seq::new(32, |i: int| 0u8))
}

/// All of them are zero.
pub proof fn lemma_zeros()
    ensures
        forall|i: int| 0 <= i < 32 ==> #[trigger] zeros()@[i] == 0,
{
    lemma_arr::<u8, 32>(Seq::new(32, |i: int| 0u8));
}

/// Thirty-two zero bytes.
pub fn zero_bytes() -> (r: [u8; 32])
    ensures
        r == zeros(),
{
    let r: [u8; 32] = [0u8; 32];
    proof {
        assert(r@ =~= Seq::new(32, |i: int| 0u8));
        lemma_arr_view(r);
    }
    r
}

} // verus!
