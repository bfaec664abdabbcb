//! Reading canonical bytes: what a prefix of a byte string means, and a reader.
//!
//! A parser maps a byte string to a value and the bytes after it, or to the error
//! that a decoder reports. The executable reader below follows these parsers step
//! by step, and the laws of the encodings are laws of the parsers.

use vstd::prelude::*;

use crate::bytes;
use crate::bytes::{read_be32, read_be64, to_array};
use crate::graph::DIM;
use crate::ieee;
use crate::Embedding;

verus! {

/// The most items that a length prefix may announce.
pub const MAX_ITEMS: u64 = 1_000_000;

/// Why bytes could not be decoded.
#[derive(Clone, Copy, Debug, PartialEq, Eq)]
pub enum CodecError {
    UnexpectedEof,
    TrailingBytes,
    TooManyItems(u64),
    BadEnum(u32),
}

/// What a parser makes of a byte string: a value and the bytes after it.
pub type Parsed<T> = Result<(T, Seq<u8>), CodecError>;

/// A parser of values of type `T`.
pub type Parser<T> = spec_fn(Seq<u8>) -> Parsed<T>;

/// The first `n` bytes.
pub open spec fn parse_raw(s: Seq<u8>, n: nat) -> Parsed<Seq<u8>> {
    if s.len() < n {
        Err(CodecError::UnexpectedEof)
    } else {
        Ok((s.take(n as int), s.skip(n as int)))
    }
}

/// A single byte.
pub open spec fn parse_u8(s: Seq<u8>) -> Parsed<u8> {
    if s.len() < 1 {
        Err(CodecError::UnexpectedEof)
    } else {
        Ok((s[0], s.skip(1)))
    }
}

/// A big-endian 32-bit word.
pub open spec fn parse_u32(s: Seq<u8>) -> Parsed<u32> {
    if s.len() < 4 {
        Err(CodecError::UnexpectedEof)
    } else {
        Ok((bytes::word32(s), s.skip(4)))
    }
}

/// A big-endian 64-bit word.
pub open spec fn parse_u64(s: Seq<u8>) -> Parsed<u64> {
    if s.len() < 8 {
        Err(CodecError::UnexpectedEof)
    } else {
        Ok((bytes::word64(s), s.skip(8)))
    }
}

/// A fixed number of bytes, as an array.
pub open spec fn parse_array<const N: usize>(s: Seq<u8>) -> Parsed<[u8; N]> {
    match parse_raw(s, N as nat) {
        Ok((a, rest)) => Ok((bytes::arr(a), rest)),
        Err(e) => Err(e),
    }
}

/// A plausible item count.
pub open spec fn parse_count(s: Seq<u8>) -> Parsed<u64> {
    match parse_u64(s) {
        Ok((n, rest)) => if n > MAX_ITEMS {
            Err(CodecError::TooManyItems(n))
        } else {
            Ok((n, rest))
        },
        Err(e) => Err(e),
    }
}

/// `n` items, one after another; the first item that fails decides the error.
pub open spec fn parse_list<T>(n: nat, s: Seq<u8>, item: Parser<T>) -> Parsed<Seq<T>>
    decreases n,
{
    if n == 0 {
        Ok((Seq::empty(), s))
    } else {
        match item(s) {
            Err(e) => Err(e),
            Ok((x, rest)) => match parse_list((n - 1) as nat, rest, item) {
                Err(e) => Err(e),
                Ok((xs, end)) => Ok((seq![x] + xs, end)),
            },
        }
    }
}

/// The bytes of all items, one after another.
pub open spec fn joined<T>(xs: Seq<T>, item: spec_fn(T) -> Seq<u8>) -> Seq<u8>
    decreases xs.len(),
{
    if xs.len() == 0 {
        Seq::empty()
    } else {
        item(xs[0]) + joined(xs.skip(1), item)
    }
}

/// A value that must use up all of the input.
pub open spec fn parse_whole<T>(p: Parsed<T>) -> Result<T, CodecError> {
    match p {
        Err(e) => Err(e),
        Ok((x, rest)) => if rest.len() > 0 {
            Err(CodecError::TrailingBytes)
        } else {
            Ok(x)
        },
    }
}

/// A list parser's outcome with `done` put in front.
pub open spec fn after<T>(done: Seq<T>, p: Parsed<Seq<T>>) -> Parsed<Seq<T>> {
    match p {
        Err(e) => Err(e),
        Ok((xs, end)) => Ok((done + xs, end)),
    }
}

/// What a reader returned together with what it left unread.
pub open spec fn outcome<T>(r: Result<T, CodecError>, rest: Seq<u8>) -> Parsed<T> {
    match r {
        Ok(x) => Ok((x, rest)),
        Err(e) => Err(e),
    }
}

/// The same, for values with a view.
pub open spec fn outcome_view<T: View>(r: Result<T, CodecError>, rest: Seq<u8>) -> Parsed<T::V> {
    match r {
        Ok(x) => Ok((x@, rest)),
        Err(e) => Err(e),
    }
}

/// A result with its value replaced by what it holds.
pub open spec fn viewed<T: View, E>(r: Result<T, E>) -> Result<T::V, E> {
    match r {
        Ok(x) => Ok(x@),
        Err(e) => Err(e),
    }
}

/// An option with its value replaced by what it holds.
pub open spec fn viewed_option<T: View>(r: Option<T>) -> Option<T::V> {
    match r {
        Some(x) => Some(x@),
        None => None,
    }
}

// --- laws of the combinators --------------------------------------------------

/// Joining one more item appends its bytes.
pub proof fn lemma_joined_push<T>(xs: Seq<T>, x: T, item: spec_fn(T) -> Seq<u8>)
    ensures
        joined(xs.push(x), item) == joined(xs, item) + item(x),
    decreases xs.len(),
{
    let ys = xs.push(x);
    if xs.len() == 0 {
        reveal_with_fuel(joined, 2);
        assert(ys.skip(1) =~= Seq::<T>::empty());
        assert(joined(ys, item) =~= item(x) + Seq::<u8>::empty());
    } else {
        assert(ys.skip(1) =~= xs.skip(1).push(x));
        lemma_joined_push(xs.skip(1), x, item);
        assert(joined(ys, item) =~= joined(xs, item) + item(x));
    }
}

/// Taking one more item of a list appends its bytes.
pub proof fn lemma_joined_take<T>(xs: Seq<T>, i: int, item: spec_fn(T) -> Seq<u8>)
    requires
        0 <= i < xs.len(),
    ensures
        joined(xs.take(i + 1), item) == joined(xs.take(i), item) + item(xs[i]),
{
    assert(xs.take(i + 1) =~= xs.take(i).push(xs[i]));
    lemma_joined_push(xs.take(i), xs[i], item);
}

/// Items of one width stand at multiples of it.
pub proof fn lemma_joined_at<T>(xs: Seq<T>, item: spec_fn(T) -> Seq<u8>, width: nat, i: int)
    requires
        forall|j: int| 0 <= j < xs.len() ==> item(#[trigger] xs[j]).len() == width,
        0 <= i <= xs.len(),
    ensures
        joined(xs, item).len() == xs.len() * width,
        0 <= i * width <= xs.len() * width,
        i < xs.len() ==> {
            &&& i * width + width <= xs.len() * width
            &&& joined(xs, item).subrange(i * width, i * width + width) == item(xs[i])
        },
    decreases xs.len(),
{
    if xs.len() > 0 {
        let tail = xs.skip(1);
        assert forall|j: int| 0 <= j < tail.len() implies item(#[trigger] tail[j]).len()
            == width by {
            assert(tail[j] == xs[j + 1]);
        }
        let k = if i == 0 {
            0
        } else {
            i - 1
        };
        lemma_joined_at(tail, item, width, k);
        assert(item(xs[0]).len() == width);
        assert(xs.len() * width == tail.len() * width + width) by (nonlinear_arith)
            requires
                xs.len() == tail.len() + 1,
        ;
        assert(i > 0 ==> i * width == k * width + width) by (nonlinear_arith)
            requires
                i > 0 ==> i == k + 1,
        ;
        assert(0 * width == 0);
        let all = joined(xs, item);
        let rest = joined(tail, item);
        if i == 0 {
            assert(all.subrange(0, width as int) =~= item(xs[0]));
        } else if i < xs.len() {
            assert(tail[k] == xs[i]);
            assert(all.subrange(i * width, i * width + width) =~= rest.subrange(
                k * width,
                k * width + width,
            ));
        }
    } else {
        assert(0 * width == 0);
        assert(i * width == 0);
    }
}

/// If each item is read back from its bytes, so is the list.
pub proof fn lemma_list_read_back<T>(
    xs: Seq<T>,
    rest: Seq<u8>,
    write: spec_fn(T) -> Seq<u8>,
    read: Parser<T>,
)
    requires
        forall|i: int, after: Seq<u8>|
            0 <= i < xs.len() ==> #[trigger] read(write(xs[i]) + after) == Ok::<
                (T, Seq<u8>),
                CodecError,
            >((xs[i], after)),
    ensures
        parse_list(xs.len(), joined(xs, write) + rest, read) == Ok::<(Seq<T>, Seq<u8>), CodecError>(
            (xs, rest),
        ),
    decreases xs.len(),
{
    if xs.len() == 0 {
        assert(joined(xs, write) + rest =~= rest);
        assert(xs =~= Seq::empty());
    } else {
        let tail = xs.skip(1);
        let after = joined(tail, write) + rest;
        assert(joined(xs, write) + rest =~= write(xs[0]) + after);
        assert(read(write(xs[0]) + after) == Ok::<(T, Seq<u8>), CodecError>((xs[0], after)));
        assert forall|i: int, after: Seq<u8>|
            0 <= i < tail.len() implies #[trigger] read(write(tail[i]) + after) == Ok::<
            (T, Seq<u8>),
            CodecError,
        >((tail[i], after)) by {
            assert(tail[i] == xs[i + 1]);
            assert(read(write(xs[i + 1]) + after) == Ok::<(T, Seq<u8>), CodecError>(
                (xs[i + 1], after),
            ));
        }
        lemma_list_read_back(tail, rest, write, read);
        assert(seq![xs[0]] + tail =~= xs);
    }
}

/// If whatever is read spells its own bytes, so does a list.
pub proof fn lemma_list_spelled<T>(
    n: nat,
    s: Seq<u8>,
    write: spec_fn(T) -> Seq<u8>,
    read: Parser<T>,
)
    requires
        forall|s: Seq<u8>|
            (#[trigger] read(s)) matches Ok((x, rest)) ==> s == write(x) + rest,
    ensures
        parse_list(n, s, read) matches Ok((xs, rest)) ==> xs.len() == n && s == joined(xs, write)
            + rest,
    decreases n,
{
    if n == 0 {
        assert(s =~= joined(Seq::<T>::empty(), write) + s);
    } else {
        match read(s) {
            Err(_) => {},
            Ok((x, rest)) => {
                lemma_list_spelled((n - 1) as nat, rest, write, read);
                match parse_list((n - 1) as nat, rest, read) {
                    Err(_) => {},
                    Ok((xs, end)) => {
                        let all = seq![x] + xs;
                        assert(all.skip(1) =~= xs);
                        assert(joined(all, write) =~= write(x) + joined(xs, write));
                        assert(s =~= joined(all, write) + end);
                    },
                }
            },
        }
    }
}

/// What holds of every item that can be read holds of every item of a list.
pub proof fn lemma_list_holds<T>(n: nat, s: Seq<u8>, read: Parser<T>, holds: spec_fn(T) -> bool)
    requires
        forall|s: Seq<u8>| (#[trigger] read(s)) matches Ok((x, _)) ==> holds(x),
    ensures
        parse_list(n, s, read) matches Ok((xs, _)) ==> forall|i: int|
            0 <= i < xs.len() ==> holds(#[trigger] xs[i]),
    decreases n,
{
    if n > 0 {
        if let Ok((x, rest)) = read(s) {
            lemma_list_holds((n - 1) as nat, rest, read, holds);
        }
    }
}

/// One step of reading a list from the front.
pub proof fn lemma_list_step<T>(done: Seq<T>, n: nat, s: Seq<u8>, read: Parser<T>)
    requires
        n > 0,
    ensures
        after(done, parse_list(n, s, read)) == match read(s) {
            Err(e) => Err(e),
            Ok((x, rest)) => after(done.push(x), parse_list((n - 1) as nat, rest, read)),
        },
{
    match read(s) {
        Err(_) => {},
        Ok((x, rest)) => match parse_list((n - 1) as nat, rest, read) {
            Err(_) => {},
            Ok((xs, _)) => {
                assert(done + (seq![x] + xs) =~= done.push(x) + xs);
            },
        },
    }
}

/// An empty remainder of a list adds nothing.
pub proof fn lemma_list_done<T>(done: Seq<T>, s: Seq<u8>, read: Parser<T>)
    ensures
        after(done, parse_list(0, s, read)) == Ok::<(Seq<T>, Seq<u8>), CodecError>((done, s)),
{
    assert(done + Seq::<T>::empty() =~= done);
}

/// A list starts with nothing done.
pub proof fn lemma_list_start<T>(p: Parsed<Seq<T>>)
    ensures
        after(Seq::<T>::empty(), p) == p,
{
    match p {
        Err(_) => {},
        Ok((xs, _)) => {
            assert(Seq::<T>::empty() + xs =~= xs);
        },
    }
}

/// A fixed-size array is read back from its bytes.
pub proof fn lemma_array_read_back<const N: usize>(a: [u8; N], rest: Seq<u8>)
    ensures
        parse_array::<N>(a@ + rest) == Ok::<([u8; N], Seq<u8>), CodecError>((a, rest)),
{
    assert((a@ + rest).take(N as int) =~= a@);
    assert((a@ + rest).skip(N as int) =~= rest);
    bytes::lemma_arr_view(a);
}

/// A fixed-size array spells the bytes that it was read from.
pub proof fn lemma_array_spelled<const N: usize>(s: Seq<u8>)
    ensures
        parse_array::<N>(s) matches Ok((a, rest)) ==> s == a@ + rest,
{
    if s.len() >= N {
        bytes::lemma_arr::<u8, N>(s.take(N as int));
        assert(s =~= s.take(N as int) + s.skip(N as int));
    }
}

// --- input cut short ----------------------------------------------------------

/// Whether `longer` is what a parser makes of its input with `more` after it, where it
/// makes `p` of the input itself: a value stays, with `more` after what it leaves,
/// and so does every error but the end of input.
pub open spec fn carried<T>(p: Parsed<T>, longer: Parsed<T>, more: Seq<u8>) -> bool {
    match p {
        Ok((x, rest)) => longer == Ok::<(T, Seq<u8>), CodecError>((x, rest + more)),
        Err(e) => e == CodecError::UnexpectedEof || longer == Err::<(T, Seq<u8>), CodecError>(e),
    }
}

/// If a parser uses up all of its input and reads on as [`carried`] says, it runs out
/// of every strict prefix.
pub proof fn lemma_cut_short<T>(cut: Parsed<T>, whole: Parsed<T>, more: Seq<u8>)
    requires
        carried(cut, whole, more),
        more.len() > 0,
        whole matches Ok((_, rest)) && rest.len() == 0,
    ensures
        cut == Err::<(T, Seq<u8>), CodecError>(CodecError::UnexpectedEof),
{
}

pub proof fn lemma_raw_carried(s: Seq<u8>, n: nat, more: Seq<u8>)
    ensures
        carried(parse_raw(s, n), parse_raw(s + more, n), more),
{
    if s.len() >= n {
        assert((s + more).take(n as int) =~= s.take(n as int));
        assert((s + more).skip(n as int) =~= s.skip(n as int) + more);
    }
}

pub proof fn lemma_u8_carried(s: Seq<u8>, more: Seq<u8>)
    ensures
        carried(parse_u8(s), parse_u8(s + more), more),
{
    if s.len() >= 1 {
        assert((s + more).skip(1) =~= s.skip(1) + more);
    }
}

pub proof fn lemma_u32_carried(s: Seq<u8>, more: Seq<u8>)
    ensures
        carried(parse_u32(s), parse_u32(s + more), more),
{
    if s.len() >= 4 {
        assert((s + more).skip(4) =~= s.skip(4) + more);
        bytes::lemma_word_prefix(s);
        bytes::lemma_word_prefix(s + more);
        assert((s + more).take(4) =~= s.take(4));
    }
}

pub proof fn lemma_u64_carried(s: Seq<u8>, more: Seq<u8>)
    ensures
        carried(parse_u64(s), parse_u64(s + more), more),
{
    if s.len() >= 8 {
        assert((s + more).skip(8) =~= s.skip(8) + more);
        bytes::lemma_word_prefix(s);
        bytes::lemma_word_prefix(s + more);
        assert((s + more).take(8) =~= s.take(8));
    }
}

pub proof fn lemma_array_carried<const N: usize>(s: Seq<u8>, more: Seq<u8>)
    ensures
        carried(parse_array::<N>(s), parse_array::<N>(s + more), more),
{
    lemma_raw_carried(s, N as nat, more);
}

pub proof fn lemma_list_carried<T>(n: nat, s: Seq<u8>, item: Parser<T>, more: Seq<u8>)
    requires
        forall|s: Seq<u8>, more: Seq<u8>| carried(item(s), #[trigger] item(s + more), more),
    ensures
        carried(parse_list(n, s, item), parse_list(n, s + more, item), more),
    decreases n,
{
    if n > 0 {
        assert(carried(item(s), item(s + more), more));
        if let Ok((_, rest)) = item(s) {
            lemma_list_carried((n - 1) as nat, rest, item, more);
        }
    }
}

// --- telling bytes apart ------------------------------------------------------

/// Equally long beginnings of the same bytes are the same.
pub proof fn lemma_cut(a: Seq<u8>, b: Seq<u8>, ra: Seq<u8>, rb: Seq<u8>)
    requires
        a.len() == b.len(),
        a + ra == b + rb,
    ensures
        a == b,
        ra == rb,
{
    assert(a =~= (a + ra).take(a.len() as int));
    assert(b =~= (b + rb).take(b.len() as int));
    assert(ra =~= (a + ra).skip(a.len() as int));
    assert(rb =~= (b + rb).skip(b.len() as int));
}

/// Bytes that begin with a word tell the word.
pub proof fn lemma_cut_word(x: u64, y: u64, rx: Seq<u8>, ry: Seq<u8>)
    requires
        bytes::be64(x) + rx == bytes::be64(y) + ry,
    ensures
        x == y,
        rx == ry,
{
    bytes::lemma_be64_word64(x, rx);
    bytes::lemma_be64_word64(y, ry);
}

/// Lists of equally many items of one width are told apart by their bytes.
pub proof fn lemma_cut_list<S, T>(
    xs: Seq<S>,
    ys: Seq<T>,
    f: spec_fn(S) -> Seq<u8>,
    g: spec_fn(T) -> Seq<u8>,
    width: nat,
    rx: Seq<u8>,
    ry: Seq<u8>,
)
    requires
        xs.len() == ys.len(),
        forall|i: int| 0 <= i < xs.len() ==> f(#[trigger] xs[i]).len() == width,
        forall|i: int| 0 <= i < ys.len() ==> g(#[trigger] ys[i]).len() == width,
        joined(xs, f) + rx == joined(ys, g) + ry,
    ensures
        forall|i: int| 0 <= i < xs.len() ==> f(#[trigger] xs[i]) == g(ys[i]),
        rx == ry,
    decreases xs.len(),
{
    if xs.len() == 0 {
        assert(joined(xs, f) + rx =~= rx);
        assert(joined(ys, g) + ry =~= ry);
    } else {
        let (xt, yt) = (xs.skip(1), ys.skip(1));
        assert((f(xs[0]) + joined(xt, f)) + rx =~= f(xs[0]) + (joined(xt, f) + rx));
        assert((g(ys[0]) + joined(yt, g)) + ry =~= g(ys[0]) + (joined(yt, g) + ry));
        lemma_cut(f(xs[0]), g(ys[0]), joined(xt, f) + rx, joined(yt, g) + ry);
        assert forall|i: int| 0 <= i < xt.len() implies f(#[trigger] xt[i]).len() == width by {
            assert(xt[i] == xs[i + 1]);
        }
        assert forall|i: int| 0 <= i < yt.len() implies g(#[trigger] yt[i]).len() == width by {
            assert(yt[i] == ys[i + 1]);
        }
        lemma_cut_list(xt, yt, f, g, width, rx, ry);
        assert forall|i: int| 0 <= i < xs.len() implies f(#[trigger] xs[i]) == g(ys[i]) by {
            if i > 0 {
                assert(xt[i - 1] == xs[i]);
                assert(yt[i - 1] == ys[i]);
            }
        }
    }
}

// --- embeddings ---------------------------------------------------------------

/// The bytes of an embedding: each coordinate's bits, big-endian.
pub open spec fn emb_bytes(e: Embedding) -> Seq<u8> {
    joined(e@, word_bytes())
}

pub open spec fn word_bytes() -> spec_fn(u32) -> Seq<u8> {
    |x: u32| bytes::be32(x)
}

pub open spec fn word_parser() -> Parser<u32> {
    |s: Seq<u8>| parse_u32(s)
}

/// An embedding.
pub open spec fn parse_emb(s: Seq<u8>) -> Parsed<Embedding> {
    match parse_list(DIM as nat, s, word_parser()) {
        Ok((xs, rest)) => Ok((bytes::arr(xs), rest)),
        Err(e) => Err(e),
    }
}

/// An embedding with every NaN made canonical.
pub open spec fn canonical_emb(e: Embedding) -> Embedding {
    bytes::arr(e@.map_values(|x: u32| ieee::canonical(x)))
}

pub proof fn lemma_emb_read_back(e: Embedding, rest: Seq<u8>)
    ensures
        parse_emb(emb_bytes(e) + rest) == Ok::<(Embedding, Seq<u8>), CodecError>((e, rest)),
{
    assert forall|i: int, after: Seq<u8>|
        0 <= i < e@.len() implies #[trigger] word_parser()(word_bytes()(e@[i]) + after) == Ok::<
        (u32, Seq<u8>),
        CodecError,
    >((e@[i], after)) by {
        bytes::lemma_be32_word32(e@[i], after);
    }
    lemma_list_read_back(e@, rest, word_bytes(), word_parser());
    bytes::lemma_arr_view(e);
}

pub proof fn lemma_emb_spelled(s: Seq<u8>)
    ensures
        parse_emb(s) matches Ok((e, rest)) ==> s == emb_bytes(e) + rest,
{
    assert forall|s: Seq<u8>|
        (#[trigger] word_parser()(s)) matches Ok((x, rest)) ==> s == word_bytes()(x) + rest by {
        if s.len() >= 4 {
            bytes::lemma_word32_be32(s);
        }
    }
    lemma_list_spelled(DIM as nat, s, word_bytes(), word_parser());
    if let Ok((xs, rest)) = parse_list(DIM as nat, s, word_parser()) {
        bytes::lemma_arr::<u32, DIM>(xs);
    }
}

pub proof fn lemma_emb_carried(s: Seq<u8>, more: Seq<u8>)
    ensures
        carried(parse_emb(s), parse_emb(s + more), more),
{
    assert forall|s: Seq<u8>, more: Seq<u8>|
        carried(word_parser()(s), #[trigger] word_parser()(s + more), more) by {
        lemma_u32_carried(s, more);
    }
    lemma_list_carried(DIM as nat, s, word_parser(), more);
}

// --- the reader ---------------------------------------------------------------

/// A cursor over canonical bytes.
#[derive(Clone, Copy)]
pub struct Dec<'a> {
    buf: &'a [u8],
    pos: usize,
}

impl<'a> View for Dec<'a> {
    type V = Seq<u8>;

    /// The bytes that are still unread.
    closed spec fn view(&self) -> Seq<u8> {
        self.buf@.skip(self.pos as int)
    }
}

impl<'a> Dec<'a> {
    /// Whether the cursor stands inside its buffer.
    pub closed spec fn wf(&self) -> bool {
        self.pos <= self.buf@.len()
    }

    /// A cursor at the start of a buffer.
    pub fn new(buf: &'a [u8]) -> (r: Dec<'a>)
        ensures
            r.wf(),
            r@ == buf@,
    {
        let r = Dec { buf, pos: 0 };
        assert(r@ =~= buf@);
        r
    }

    /// The number of unread bytes.
    pub fn remaining(&self) -> (r: usize)
        requires
            self.wf(),
        ensures
            r == self@.len(),
    {
        self.buf.len() - self.pos
    }

    /// The next `n` bytes. After an error the cursor is where it was.
    pub fn take(&mut self, n: usize) -> (r: Result<&'a [u8], CodecError>)
        requires
            old(self).wf(),
        ensures
            final(self).wf(),
            outcome_view(r, final(self)@) == parse_raw(old(self)@, n as nat),
            r is Err ==> final(self)@ == old(self)@,
    {
        if n > self.buf.len() - self.pos {
            return Err(CodecError::UnexpectedEof);
        }
        let end: usize = self.pos + n;
        let s = vstd::slice::slice_subrange(self.buf, self.pos, end);
        assert(s@ =~= self@.take(n as int));
        let ghost before = self@;
        self.pos = end;
        assert(self@ =~= before.skip(n as int));
        Ok(s)
    }

    /// The next byte. After an error the cursor is where it was.
    pub fn u8(&mut self) -> (r: Result<u8, CodecError>)
        requires
            old(self).wf(),
        ensures
            final(self).wf(),
            outcome(r, final(self)@) == parse_u8(old(self)@),
            r is Err ==> final(self)@ == old(self)@,
    {
        match self.take(1) {
            Ok(s) => Ok(s[0]),
            Err(e) => Err(e),
        }
    }

    /// The next big-endian 32-bit word. After an error the cursor is where it was.
    pub fn u32(&mut self) -> (r: Result<u32, CodecError>)
        requires
            old(self).wf(),
        ensures
            final(self).wf(),
            outcome(r, final(self)@) == parse_u32(old(self)@),
            r is Err ==> final(self)@ == old(self)@,
    {
        match self.take(4) {
            Ok(s) => {
                proof {
                    bytes::lemma_word_prefix(old(self)@);
                }
                Ok(read_be32(s))
            },
            Err(e) => Err(e),
        }
    }

    /// The next big-endian 64-bit word. After an error the cursor is where it was.
    pub fn u64(&mut self) -> (r: Result<u64, CodecError>)
        requires
            old(self).wf(),
        ensures
            final(self).wf(),
            outcome(r, final(self)@) == parse_u64(old(self)@),
            r is Err ==> final(self)@ == old(self)@,
    {
        match self.take(8) {
            Ok(s) => {
                proof {
                    bytes::lemma_word_prefix(old(self)@);
                }
                Ok(read_be64(s))
            },
            Err(e) => Err(e),
        }
    }

    /// The next `N` bytes as an array. After an error the cursor is where it was.
    pub fn array<const N: usize>(&mut self) -> (r: Result<[u8; N], CodecError>)
        requires
            old(self).wf(),
        ensures
            final(self).wf(),
            outcome(r, final(self)@) == parse_array::<N>(old(self)@),
            r is Err ==> final(self)@ == old(self)@,
    {
        match self.take(N) {
            Ok(s) => Ok(to_array::<N>(s)),
            Err(e) => Err(e),
        }
    }

    /// The next item count. The cursor passes a count that is too large.
    pub fn count(&mut self) -> (r: Result<u64, CodecError>)
        requires
            old(self).wf(),
        ensures
            final(self).wf(),
            outcome(r, final(self)@) == parse_count(old(self)@),
            r matches Err(e) ==> final(self)@ == if e is TooManyItems {
                old(self)@.skip(8)
            } else {
                old(self)@
            },
    {
        match self.u64() {
            Ok(n) => if n > MAX_ITEMS {
                Err(CodecError::TooManyItems(n))
            } else {
                Ok(n)
            },
            Err(e) => Err(e),
        }
    }

    /// The next embedding. Where it is cut short, the cursor passes the coordinates that
    /// are there.
    pub fn emb(&mut self) -> (r: Result<Embedding, CodecError>)
        requires
            old(self).wf(),
        ensures
            final(self).wf(),
            outcome(r, final(self)@) == parse_emb(old(self)@),
            r is Err ==> final(self)@ == old(self)@.skip((old(self)@.len() / 4 * 4) as int),
    {
        let mut e: Embedding = [0u32; DIM];
        let ghost start = self@;
        let ghost whole = parse_list(DIM as nat, start, word_parser());
        let mut i: usize = 0;
        proof {
            lemma_list_start(whole);
            assert(e@.take(0) =~= Seq::<u32>::empty());
            assert(start.skip(0) =~= start);
        }
        while i < DIM
            invariant
                i <= DIM,
                self.wf(),
                whole == after(
                    e@.take(i as int),
                    parse_list((DIM - i) as nat, self@, word_parser()),
                ),
                whole == parse_list(DIM as nat, start, word_parser()),
                start == old(self)@,
                4 * i <= start.len(),
                self@ == start.skip(4 * i),
            decreases DIM - i,
        {
            proof {
                lemma_list_step(e@.take(i as int), (DIM - i) as nat, self@, word_parser());
            }
            let ghost before = e@.take(i as int);
            match self.u32() {
                Ok(x) => {
                    e[i] = x;
                    assert(e@.take(i + 1) =~= before.push(x));
                    assert(start.skip(4 * i).skip(4) =~= start.skip(4 * (i + 1)));
                },
                Err(err) => {
                    return Err(err);
                },
            }
            i += 1;
        }
        proof {
            lemma_list_done(e@.take(DIM as int), self@, word_parser());
            assert(e@.take(DIM as int) =~= e@);
            bytes::lemma_arr_view(e);
        }
        Ok(e)
    }
}

} // verus!
