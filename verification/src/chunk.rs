//! Byte chunks as they travel through a stream, and what a run of chunks
//! spells when read end to end.

use bytes::Bytes;
use vstd::prelude::*;

verus! {

/// `bytes::Bytes`, carried through verified code as an opaque buffer.
#[verifier::external_type_specification]
#[verifier::external_body]
pub struct ExBytes(bytes::Bytes);

/// The bytes that a buffer holds, first to last.
pub uninterp spec fn bytes_seq(b: Bytes) -> Seq<u8>;

/// `Bytes::len`: the number of bytes held.
pub assume_specification[ Bytes::len ](b: &Bytes) -> (n: usize)
    ensures
        n == bytes_seq(*b).len(),
;

/// `Bytes::split_off`: the buffer keeps its first `at` bytes and the rest is
/// handed back. The outside function panics when `at` exceeds the length.
pub assume_specification[ Bytes::split_off ](b: &mut Bytes, at: usize) -> (tail: Bytes)
    requires
        at <= bytes_seq(*old(b)).len(),
    ensures
        bytes_seq(*final(b)) == bytes_seq(*old(b)).subrange(0, at as int),
        bytes_seq(tail) == bytes_seq(*old(b)).subrange(at as int, bytes_seq(*old(b)).len() as int),
;

/// `Bytes::split_to`: the first `at` bytes are handed back and the buffer
/// keeps the rest. The outside function panics when `at` exceeds the length.
pub assume_specification[ Bytes::split_to ](b: &mut Bytes, at: usize) -> (head: Bytes)
    requires
        at <= bytes_seq(*old(b)).len(),
    ensures
        bytes_seq(head) == bytes_seq(*old(b)).subrange(0, at as int),
        bytes_seq(*final(b)) == bytes_seq(*old(b)).subrange(at as int, bytes_seq(*old(b)).len() as int),
;

/// `Bytes::from(Vec<u8>)`: a buffer that holds exactly the vector's bytes.
#[verifier::external_body]
pub(crate) fn bytes_from_vec(v: Vec<u8>) -> (b: Bytes)
    ensures
        bytes_seq(b) == v@,
{
    Bytes::from(v)
}

/// `Bytes::as_ref`: the held bytes as a slice.
#[verifier::external_body]
pub(crate) fn bytes_as_slice(b: &Bytes) -> (s: &[u8])
    ensures
        s@ == bytes_seq(*b),
{
    b.as_ref()
}

/// `Bytes::clone`: another handle on the same bytes.
#[verifier::external_body]
pub(crate) fn bytes_clone(b: &Bytes) -> (c: Bytes)
    ensures
        bytes_seq(c) == bytes_seq(*b),
{
    b.clone()
}

/// The bytes of each chunk of a run.
pub open spec fn contents(chunks: Seq<Bytes>) -> Seq<Seq<u8>> {
    Seq::new(chunks.len(), |i: int| bytes_seq(chunks[i]))
}

/// All bytes of a run of chunks, read end to end.
pub open spec fn concat(chunks: Seq<Seq<u8>>) -> Seq<u8>
    decreases chunks.len(),
{
    if chunks.len() == 0 {
        Seq::empty()
    } else {
        concat(chunks.drop_last()) + chunks.last()
    }
}

/// Appending a chunk to a run appends its bytes.
pub proof fn lemma_concat_push(chunks: Seq<Seq<u8>>, c: Seq<u8>)
    ensures
        concat(chunks.push(c)) == concat(chunks) + c,
{
    assert(chunks.push(c).drop_last() =~= chunks);
}

/// Appending a buffer to a run of buffers appends its contents.
pub proof fn lemma_contents_push(chunks: Seq<Bytes>, b: Bytes)
    ensures
        contents(chunks.push(b)) == contents(chunks).push(bytes_seq(b)),
{
    assert(contents(chunks.push(b)) =~= contents(chunks).push(bytes_seq(b)));
}

/// The bytes of the first `n` chunks are the head of the bytes of the run.
pub proof fn lemma_concat_take(chunks: Seq<Seq<u8>>, n: int)
    requires
        0 <= n <= chunks.len(),
    ensures
        concat(chunks.take(n)).len() <= concat(chunks).len(),
        concat(chunks.take(n)) == concat(chunks).take(concat(chunks.take(n)).len() as int),
    decreases chunks.len(),
{
    if n == chunks.len() {
        assert(chunks.take(n) =~= chunks);
        assert(concat(chunks) =~= concat(chunks).take(concat(chunks).len() as int));
    } else {
        let front = chunks.drop_last();
        lemma_concat_take(front, n);
        assert(front.take(n) =~= chunks.take(n));
        let head = concat(chunks.take(n));
        assert(head =~= concat(chunks).take(head.len() as int));
    }
}

/// A run whose chunks are each `extra` bytes longer than the chunks of
/// another is longer by `extra` bytes for every chunk.
pub proof fn lemma_concat_longer(short: Seq<Seq<u8>>, long: Seq<Seq<u8>>, extra: nat)
    requires
        short.len() == long.len(),
        forall|i: int| 0 <= i < short.len() ==> (#[trigger] long[i]).len() == short[i].len() + extra,
    ensures
        concat(long).len() == concat(short).len() + short.len() * extra,
    decreases short.len(),
{
    let n = short.len() as int;
    if n == 0 {
        assert(0 * extra == 0) by (nonlinear_arith);
    } else {
        let short_front = short.drop_last();
        let long_front = long.drop_last();
        assert forall|i: int| 0 <= i < short_front.len() implies (#[trigger] long_front[i]).len()
            == short_front[i].len() + extra by {
            assert(long_front[i] == long[i]);
        }
        lemma_concat_longer(short_front, long_front, extra);
        assert(long.last() == long[n - 1]);
        assert(n * extra == (n - 1) * extra + extra) by (nonlinear_arith);
    }
}

/// How many chunks of at most `k` bytes a stream of `len` bytes makes; none
/// where `k` is zero.
pub open spec fn chunk_count(len: nat, k: nat) -> nat {
    if k == 0 {
        0
    } else {
        ((len + k - 1) / k as int) as nat
    }
}

/// `data` cut into chunks of `k` bytes each, the last one holding what is left.
pub open spec fn split_chunks(data: Seq<u8>, k: nat) -> Seq<Seq<u8>> {
    Seq::new(
        chunk_count(data.len(), k),
        |i: int|
            data.subrange(
                i * k,
                if (i + 1) * k < data.len() {
                    (i + 1) * k
                } else {
                    data.len() as int
                },
            ),
    )
}

/// Whether every chunk of a run holds `k` bytes, but for the last, which holds
/// at least one byte and at most `k`.
pub open spec fn evenly_chunked(chunks: Seq<Seq<u8>>, k: nat) -> bool {
    &&& forall|i: int| 0 <= i < chunks.len() - 1 ==> (#[trigger] chunks[i]).len() == k
    &&& chunks.len() > 0 ==> 0 < chunks.last().len() <= k
}

/// Where the chunks of `len` bytes begin and end: chunk `i` starts inside the
/// data, and only the last one may stop short of `k` bytes.
pub proof fn lemma_chunk_bounds(len: nat, k: nat, i: int)
    requires
        k > 0,
        0 <= i < chunk_count(len, k),
    ensures
        0 <= i * k < len,
        i < chunk_count(len, k) - 1 ==> (i + 1) * k < len,
        i == chunk_count(len, k) - 1 ==> (i + 1) * k >= len,
        (i + 1) * k == i * k + k,
{
    let n = chunk_count(len, k) as int;
    assert(n == (len + k - 1) / k as int);
    assert(n * k <= len + k - 1 && len + k - 1 < n * k + k) by (nonlinear_arith)
        requires
            n == (len + k - 1) / k as int,
            k > 0,
    ;
    assert(0 <= i * k && (i + 1) * k == i * k + k) by (nonlinear_arith)
        requires
            0 <= i,
            k > 0,
    ;
    if i < n - 1 {
        assert((i + 1) * k <= (n - 1) * k && (n - 1) * k == n * k - k) by (nonlinear_arith)
            requires
                i + 1 <= n - 1,
                k > 0,
        ;
    }
    assert(i * k <= (n - 1) * k) by (nonlinear_arith)
        requires
            i <= n - 1,
            k > 0,
    ;
}

/// The number of chunks of a stream whose length is known as whole chunks
/// plus a rest.
pub proof fn lemma_chunk_count(full: nat, rest: nat, k: nat)
    requires
        k > 0,
        rest <= k,
    ensures
        chunk_count((full * k + rest) as nat, k) == if rest == 0 {
            full
        } else {
            full + 1
        },
{
    let len = full * k + rest;
    let q = (len + k - 1) / k as int;
    assert(q * k <= len + k - 1 && len + k - 1 < q * k + k) by (nonlinear_arith)
        requires
            q == (len + k - 1) / k as int,
            k > 0,
    ;
    if rest == 0 {
        assert(q == full) by (nonlinear_arith)
            requires
                q * k <= full * k + k - 1,
                full * k + k - 1 < q * k + k,
                k > 0,
        ;
    } else {
        assert(q == full + 1) by (nonlinear_arith)
            requires
                q * k <= full * k + rest + k - 1,
                full * k + rest + k - 1 < q * k + k,
                0 < rest <= k,
                k > 0,
        ;
    }
}

/// The chunks that `split_chunks` cuts are evenly sized.
pub proof fn lemma_split_even(data: Seq<u8>, k: nat)
    requires
        k > 0,
    ensures
        evenly_chunked(split_chunks(data, k), k),
{
    let chunks = split_chunks(data, k);
    assert forall|i: int| 0 <= i < chunks.len() - 1 implies (#[trigger] chunks[i]).len() == k by {
        lemma_chunk_bounds(data.len(), k, i);
    }
    if chunks.len() > 0 {
        lemma_chunk_bounds(data.len(), k, chunks.len() - 1);
    }
}

/// In an evenly chunked run, chunk `i` lies at byte `i * k` of the whole.
pub proof fn lemma_even_position(chunks: Seq<Seq<u8>>, k: nat, i: int)
    requires
        k > 0,
        evenly_chunked(chunks, k),
        0 <= i < chunks.len(),
    ensures
        concat(chunks).len() == (chunks.len() - 1) * k + chunks.last().len(),
        0 <= i * k,
        i * k + chunks[i].len() <= concat(chunks).len(),
        concat(chunks).subrange(i * k, i * k + chunks[i].len()) == chunks[i],
    decreases chunks.len(),
{
    reveal_with_fuel(concat, 2);
    let n = chunks.len() as int;
    let front = chunks.drop_last();
    assert(0 <= i * k && (n - 1) * k == (n - 2) * k + k && i * k <= (n - 1) * k) by (nonlinear_arith)
        requires
            0 <= i <= n - 1,
            k > 0,
    ;
    assert(concat(chunks) == concat(front) + chunks.last());
    if n == 1 {
        assert(front =~= Seq::<Seq<u8>>::empty());
        assert(concat(front) =~= Seq::<u8>::empty());
        assert(concat(chunks) =~= chunks[0]);
        assert((n - 1) * k == 0) by (nonlinear_arith)
            requires
                n == 1,
        ;
        assert(i * k == 0) by (nonlinear_arith)
            requires
                i == 0,
        ;
        assert(concat(chunks).subrange(0, chunks[0].len() as int) =~= chunks[0]);
    } else {
        assert(front.last() == chunks[n - 2]);
        assert(chunks[n - 2].len() == k);
        assert(evenly_chunked(front, k)) by {
            assert forall|j: int| 0 <= j < front.len() - 1 implies (#[trigger] front[j]).len()
                == k by {
                assert(front[j] == chunks[j]);
            }
        }
        lemma_even_position(front, k, n - 2);
        let m = front.len() as int;
        assert((m - 1) * k == (n - 2) * k) by (nonlinear_arith)
            requires
                m == n - 1,
        ;
        assert(concat(front).len() == (n - 1) * k);
        assert(concat(chunks).len() == (n - 1) * k + chunks.last().len());
        if i < n - 1 {
            lemma_even_position(front, k, i);
            assert(front[i] == chunks[i]);
            assert(chunks[i].len() == k);
            assert(i * k + k <= (n - 1) * k) by (nonlinear_arith)
                requires
                    i + 1 <= n - 1,
                    k > 0,
            ;
            assert(concat(chunks).subrange(i * k, i * k + chunks[i].len()) =~= concat(
                front,
            ).subrange(i * k, i * k + chunks[i].len()));
        } else {
            assert(i * k == (n - 1) * k) by (nonlinear_arith)
                requires
                    i == n - 1,
            ;
            assert(concat(chunks).subrange(i * k, i * k + chunks[i].len()) =~= chunks[i]);
        }
    }
}

/// A stretch of whole chunks of an evenly chunked run spells the matching
/// byte window of the whole.
pub proof fn lemma_even_subrange(chunks: Seq<Seq<u8>>, k: nat, from: int, to: int)
    requires
        k > 0,
        evenly_chunked(chunks, k),
        0 <= from <= to <= chunks.len(),
    ensures
        0 <= from * k <= to * k,
        from < chunks.len() ==> from * k < concat(chunks).len(),
        to < chunks.len() ==> to * k < concat(chunks).len(),
        to == chunks.len() ==> to * k >= concat(chunks).len(),
        concat(chunks.subrange(from, to)) == concat(chunks).subrange(
            if from * k < concat(chunks).len() {
                from * k
            } else {
                concat(chunks).len() as int
            },
            if to * k < concat(chunks).len() {
                to * k
            } else {
                concat(chunks).len() as int
            },
        ),
    decreases to - from,
{
    let n = chunks.len() as int;
    let whole = concat(chunks);
    assert(0 <= from * k <= to * k) by (nonlinear_arith)
        requires
            0 <= from <= to,
            k > 0,
    ;
    if n > 0 {
        lemma_even_position(chunks, k, n - 1);
        if from < n {
            lemma_even_position(chunks, k, from);
        }
        if to < n {
            lemma_even_position(chunks, k, to);
        }
        assert(n * k == (n - 1) * k + k) by (nonlinear_arith);
    } else {
        assert(whole =~= Seq::<u8>::empty());
    }
    if from == to {
        assert(chunks.subrange(from, to) =~= Seq::<Seq<u8>>::empty());
        assert(concat(chunks.subrange(from, to)) =~= Seq::<u8>::empty());
        let at = if from * k < whole.len() { from * k } else { whole.len() as int };
        assert(whole.subrange(at, at) =~= Seq::<u8>::empty());
    } else {
        lemma_even_subrange(chunks, k, from, to - 1);
        lemma_even_position(chunks, k, to - 1);
        let run = chunks.subrange(from, to);
        assert(run.drop_last() =~= chunks.subrange(from, to - 1));
        assert(run.last() == chunks[to - 1]);
        assert(to * k == (to - 1) * k + k) by (nonlinear_arith);
        let lo = from * k;
        let mid = (to - 1) * k;
        let hi = if to * k < whole.len() { to * k } else { whole.len() as int };
        assert(mid + chunks[to - 1].len() == hi);
        assert(concat(run) =~= whole.subrange(lo, hi));
    }
}

/// Cutting an evenly chunked run's bytes into chunks of `k` gives the run back.
pub proof fn lemma_split_of_even(chunks: Seq<Seq<u8>>, k: nat)
    requires
        k > 0,
        evenly_chunked(chunks, k),
    ensures
        split_chunks(concat(chunks), k) == chunks,
{
    let n = chunks.len();
    let whole = concat(chunks);
    if n == 0 {
        assert(whole =~= Seq::<u8>::empty());
        lemma_chunk_count(0, 0, k);
        assert(0 * k + 0 == 0) by (nonlinear_arith);
        assert(split_chunks(whole, k) =~= chunks);
    } else {
        lemma_even_position(chunks, k, n - 1);
        if chunks.last().len() == k {
            assert((n - 1) * k + k == n * k) by (nonlinear_arith);
            lemma_chunk_count(n, 0, k);
        } else {
            lemma_chunk_count((n - 1) as nat, chunks.last().len(), k);
        }
        let cut = split_chunks(whole, k);
        assert(cut.len() == n);
        assert forall|i: int| 0 <= i < n implies cut[i] == chunks[i] by {
            lemma_even_position(chunks, k, i);
            lemma_chunk_bounds(whole.len(), k, i);
        }
        assert(cut =~= chunks);
    }
}

/// The chunks cut from `data` spell `data` again.
pub proof fn lemma_concat_of_split(data: Seq<u8>, k: nat)
    requires
        k > 0,
    ensures
        concat(split_chunks(data, k)) == data,
{
    let chunks = split_chunks(data, k);
    lemma_split_even(data, k);
    let n = chunks.len() as int;
    if n == 0 {
        assert(data.len() == 0) by {
            assert((data.len() + k - 1) / k as int == 0);
            assert(data.len() + k - 1 < k) by (nonlinear_arith)
                requires
                    (data.len() + k - 1) / k as int == 0,
                    k > 0,
            ;
        }
        assert(concat(chunks) =~= data);
    } else {
        lemma_even_position(chunks, k, n - 1);
        lemma_chunk_bounds(data.len(), k, n - 1);
        assert(concat(chunks).len() == data.len());
        assert forall|j: int| 0 <= j < data.len() implies concat(chunks)[j] == data[j] by {
            let i = j / k as int;
            assert(i * k <= j < i * k + k && 0 <= i) by (nonlinear_arith)
                requires
                    i == j / k as int,
                    0 <= j,
                    k > 0,
            ;
            assert(i < n) by (nonlinear_arith)
                requires
                    i * k <= j,
                    j < data.len(),
                    (n - 1 + 1) * k >= data.len(),
                    k > 0,
            ;
            lemma_even_position(chunks, k, i);
            lemma_chunk_bounds(data.len(), k, i);
            let piece = concat(chunks).subrange(i * k, i * k + chunks[i].len());
            assert(piece[j - i * k] == concat(chunks)[j]);
            assert(chunks[i][j - i * k] == data[j]);
        }
        assert(concat(chunks) =~= data);
    }
}

} // verus!
