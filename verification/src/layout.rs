//! How a byte string lies over fixed-size chunks, for any chunk size.
//!
//! Byte `k` of a string lives in chunk `k / c` at offset `k % c`. On the way
//! in, reads fill the tail chunk and never more; on the way out, the string
//! is cut from some position on into one slice per chunk. Either way the
//! chunk size never shows in the bytes: what has been fed in is the string
//! that came, and the slices joined again are the string from that position.

use vstd::prelude::*;

verus! {

/// A position lies in the chunk that its quotient names.
proof fn lemma_chunk_brackets(x: int, c: int)
    requires
        c >= 1,
        x >= 0,
    ensures
        0 <= x / c,
        (x / c) * c <= x < (x / c + 1) * c,
        x == (x / c) * c + x % c,
        0 <= x % c < c,
{
    vstd::arithmetic::div_mod::lemma_fundamental_div_mod(x, c);
    vstd::arithmetic::div_mod::lemma_mod_bound(x, c);
    vstd::arithmetic::div_mod::lemma_div_pos_is_pos(x, c);
    assert((x / c) * c == c * (x / c)) by (nonlinear_arith);
    assert((x / c + 1) * c == (x / c) * c + c) by (nonlinear_arith);
}

/// Multiplying by the chunk size keeps the order of chunk indices.
proof fn lemma_chunk_order(i: int, j: int, c: int)
    requires
        c >= 1,
        i <= j,
    ensures
        i * c <= j * c,
        (i + 1) * c == i * c + c,
{
    assert(i * c <= j * c) by (nonlinear_arith)
        requires
            c >= 1,
            i <= j,
    ;
    assert((i + 1) * c == i * c + c) by (nonlinear_arith);
}

/// The unused bytes of the tail chunk when `len` bytes are held, counting a
/// full tail as a whole new chunk.
pub open spec fn space(len: int, c: int) -> int {
    c - len % c
}

/// How many of `offered` bytes one read takes when `len` bytes are held: all
/// of them if they fit in the tail chunk, else as many as it has room for.
pub open spec fn portion(len: int, c: int, offered: int) -> int {
    if offered <= space(len, c) {
        offered
    } else {
        space(len, c)
    }
}

/// What is held after `bytes` have come in through reads that each fill at
/// most the tail chunk, the rest being offered again.
pub open spec fn fed(held: Seq<u8>, bytes: Seq<u8>, c: int) -> Seq<u8>
    decreases bytes.len(),
    when c >= 1
    via fed_decreases
{
    if bytes.len() == 0 {
        held
    } else {
        let n = portion(held.len() as int, c, bytes.len() as int);
        fed(held + bytes.take(n), bytes.skip(n), c)
    }
}

#[via_fn]
proof fn fed_decreases(held: Seq<u8>, bytes: Seq<u8>, c: int) {
    if bytes.len() != 0 {
        lemma_space(held.len() as int, c);
    }
}

/// The tail chunk always has room for at least one byte and at most a whole
/// chunk, and filling it ends on a chunk boundary.
pub proof fn lemma_space(len: int, c: int)
    requires
        c >= 1,
        len >= 0,
    ensures
        1 <= space(len, c) <= c,
        (len + space(len, c)) % c == 0,
{
    lemma_chunk_brackets(len, c);
    let q = len / c;
    assert((q + 1) * c == q * c + c) by (nonlinear_arith);
    vstd::arithmetic::div_mod::lemma_fundamental_div_mod_converse(len + space(len, c), c, q + 1, 0);
}

/// Chunk-boundary transparency on the way in: however many reads it takes,
/// and whatever the chunk size, what is held in the end is what was held
/// before followed by exactly the bytes that came in.
pub proof fn lemma_fed_is_whole(held: Seq<u8>, bytes: Seq<u8>, c: int)
    requires
        c >= 1,
    ensures
        fed(held, bytes, c) == held + bytes,
    decreases bytes.len(),
{
    if bytes.len() == 0 {
        assert(held + bytes =~= held);
    } else {
        lemma_space(held.len() as int, c);
        let n = portion(held.len() as int, c, bytes.len() as int);
        lemma_fed_is_whole(held + bytes.take(n), bytes.skip(n), c);
        assert(held + bytes.take(n) + bytes.skip(n) =~= held + bytes);
    }
}

/// How many chunks hold bytes at or after `from`, in a string of `len` bytes
/// laid out over chunks of `c` bytes.
pub open spec fn slice_count(len: int, c: int, from: int) -> int {
    if 0 <= from < len && c >= 1 {
        (len - 1) / c - from / c + 1
    } else {
        0
    }
}

/// Where the `j`-th slice starts: at `from` in the chunk that holds `from`,
/// at the chunk's first byte in every later one.
pub open spec fn slice_start(c: int, from: int, j: int) -> int {
    let first = (from / c + j) * c;
    if first < from {
        from
    } else {
        first
    }
}

/// Where the `j`-th slice ends: at the chunk's end, or at the end of the
/// string in the last chunk.
pub open spec fn slice_end(len: int, c: int, from: int, j: int) -> int {
    let next = (from / c + j + 1) * c;
    if next < len {
        next
    } else {
        len
    }
}

/// The bytes of `bytes` from `from` on, cut at every chunk boundary.
pub open spec fn slices(bytes: Seq<u8>, c: int, from: int) -> Seq<Seq<u8>> {
    Seq::new(
        slice_count(bytes.len() as int, c, from) as nat,
        |j: int|
            bytes.subrange(slice_start(c, from, j), slice_end(bytes.len() as int, c, from, j)),
    )
}

/// The bounds of every slice: each is non-empty, at most one chunk long,
/// starts where the one before ended, and the last ends with the string.
pub proof fn lemma_slice_bounds(len: int, c: int, from: int, j: int)
    requires
        c >= 1,
        0 <= from < len,
        0 <= j < slice_count(len, c, from),
    ensures
        from <= slice_start(c, from, j) < slice_end(len, c, from, j) <= len,
        slice_end(len, c, from, j) - slice_start(c, from, j) <= c,
        j == 0 ==> slice_start(c, from, j) == from,
        j > 0 ==> slice_start(c, from, j) == slice_end(len, c, from, j - 1),
        j == slice_count(len, c, from) - 1 ==> slice_end(len, c, from, j) == len,
{
    let first = from / c;
    let last = (len - 1) / c;
    lemma_chunk_brackets(from, c);
    lemma_chunk_brackets(len - 1, c);
    let i = first + j;
    lemma_chunk_order(first, i, c);
    lemma_chunk_order(i, last, c);
    lemma_chunk_order(i, i, c);
    lemma_chunk_order(last, last, c);
    if j > 0 {
        lemma_chunk_order(first + 1, i, c);
        lemma_chunk_order(first, first, c);
        lemma_chunk_order(i - 1, i - 1, c);
        assert((first + (j - 1) + 1) * c == i * c);
    }
    if j < slice_count(len, c, from) - 1 {
        lemma_chunk_order(i + 1, last, c);
    }
}

/// The first `k` slices, joined, are the bytes from `from` up to where the
/// `k`-th slice would start.
proof fn lemma_slices_prefix(bytes: Seq<u8>, c: int, from: int, k: int)
    requires
        c >= 1,
        0 <= from < bytes.len(),
        0 <= k <= slice_count(bytes.len() as int, c, from),
    ensures
        slices(bytes, c, from).take(k).flatten() == bytes.subrange(
            from,
            if k == 0 {
                from
            } else {
                slice_end(bytes.len() as int, c, from, k - 1)
            },
        ),
    decreases k,
{
    let all = slices(bytes, c, from);
    let len = bytes.len() as int;
    if k == 0 {
        assert(all.take(0) =~= Seq::<Seq<u8>>::empty());
        assert(all.take(0).flatten() =~= bytes.subrange(from, from));
    } else {
        lemma_slices_prefix(bytes, c, from, k - 1);
        lemma_slice_bounds(len, c, from, k - 1);
        if k > 1 {
            lemma_slice_bounds(len, c, from, k - 2);
        }
        let before = all.take(k - 1);
        assert(all.take(k) =~= before.push(all[k - 1]));
        before.lemma_flatten_push(all[k - 1]);
        let lo = slice_start(c, from, k - 1);
        let hi = slice_end(len, c, from, k - 1);
        assert(bytes.subrange(from, lo) + bytes.subrange(lo, hi) =~= bytes.subrange(from, hi));
    }
}

/// Chunk-boundary transparency: whatever the chunk size, the slices of a
/// string from `from` on, joined in order, are exactly the bytes from `from`
/// to the end. Nothing is lost, repeated or reordered at a chunk boundary.
pub proof fn lemma_slices_rejoin(bytes: Seq<u8>, c: int, from: int)
    requires
        c >= 1,
        0 <= from <= bytes.len(),
    ensures
        slices(bytes, c, from).flatten() == bytes.skip(from),
{
    let all = slices(bytes, c, from);
    let len = bytes.len() as int;
    if from == len {
        assert(all.flatten() =~= bytes.skip(from));
    } else {
        let n = slice_count(len, c, from);
        lemma_chunk_brackets(from, c);
        lemma_chunk_brackets(len - 1, c);
        vstd::arithmetic::div_mod::lemma_div_is_ordered(from, len - 1, c);
        lemma_slices_prefix(bytes, c, from, n);
        lemma_slice_bounds(len, c, from, n - 1);
        assert(all.take(n) =~= all);
        assert(bytes.subrange(from, len) =~= bytes.skip(from));
    }
}

/// Resuming after a partial write: the slices from a later position are what
/// is left of the slices from an earlier one once the bytes between the two
/// have gone out. No byte is sent twice and none is skipped.
pub proof fn lemma_slices_resume(bytes: Seq<u8>, c: int, from: int, sent: int)
    requires
        c >= 1,
        0 <= from,
        0 <= sent,
        from + sent <= bytes.len(),
    ensures
        slices(bytes, c, from).flatten() == slices(bytes, c, from).flatten().take(sent) + slices(
            bytes,
            c,
            from + sent,
        ).flatten(),
        slices(bytes, c, from).flatten().take(sent) == bytes.subrange(from, from + sent),
{
    lemma_slices_rejoin(bytes, c, from);
    lemma_slices_rejoin(bytes, c, from + sent);
    let rest = bytes.skip(from);
    assert(rest.take(sent) =~= bytes.subrange(from, from + sent));
    assert(rest =~= rest.take(sent) + bytes.skip(from + sent));
}

} // verus!
