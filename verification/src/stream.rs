//! Single-pass transforms over a stream of chunks: cutting a byte window out
//! of it, regrouping it into chunks of a fixed size, and accounting it against
//! a bandwidth budget.

use crate::chunk::{
    bytes_as_slice, bytes_clone, bytes_from_vec, bytes_seq, chunk_count, concat, contents,
    lemma_chunk_bounds, lemma_chunk_count, lemma_concat_push, lemma_concat_take,
    lemma_contents_push, split_chunks,
};
use crate::rate_limit::RateLimit;
use bytes::Bytes;
use std::ops::Range;
use vstd::prelude::*;
use vstd::slice::slice_subrange;

verus! {

/// The part of `data` that lies in the byte window `[lo, hi)`, as far as the
/// data reaches.
pub open spec fn window(data: Seq<u8>, lo: int, hi: int) -> Seq<u8>
    recommends
        0 <= lo <= hi,
{
    let len = data.len() as int;
    data.subrange(if lo < len { lo } else { len }, if hi < len { hi } else { len })
}

/// Progress of a window cut: how many bytes are still to be discarded, and how
/// many may still be emitted after that.
#[derive(Clone, Copy, Debug, PartialEq, Eq, Structural)]
pub struct SliceState {
    pub offset: u64,
    pub limit: u64,
}

impl SliceState {
    /// How many bytes of a chunk of `len` bytes are emitted from this state.
    pub open spec fn take(self, len: nat) -> int {
        if self.limit < len - self.offset {
            self.limit as int
        } else {
            len - self.offset
        }
    }

    /// Whether a chunk of `len` bytes is discarded whole.
    pub open spec fn skips(self, len: nat) -> bool {
        self.offset > 0 && len <= self.offset
    }

    /// What the cut emits for the next chunk, if anything: the chunk without
    /// the bytes still to be discarded, cut off where the window ends.
    pub open spec fn emitted(self, chunk: Seq<u8>) -> Option<Seq<u8>> {
        if self.skips(chunk.len()) {
            None
        } else {
            Some(chunk.subrange(self.offset as int, self.offset + self.take(chunk.len())))
        }
    }

    /// The state after the next chunk.
    pub open spec fn next(self, chunk: Seq<u8>) -> SliceState {
        if self.skips(chunk.len()) {
            SliceState { offset: (self.offset - chunk.len()) as u64, limit: self.limit }
        } else {
            SliceState { offset: 0, limit: (self.limit - self.take(chunk.len())) as u64 }
        }
    }

    /// The state after a whole run of chunks; the cut stops reading once
    /// nothing more may be emitted.
    pub open spec fn after(self, chunks: Seq<Seq<u8>>) -> SliceState
        decreases chunks.len(),
    {
        if chunks.len() == 0 {
            self
        } else {
            let before = self.after(chunks.drop_last());
            if before.limit == 0 {
                before
            } else {
                before.next(chunks.last())
            }
        }
    }

    /// The chunks that the cut emits over a whole run.
    pub open spec fn output(self, chunks: Seq<Seq<u8>>) -> Seq<Seq<u8>>
        decreases chunks.len(),
    {
        if chunks.len() == 0 {
            Seq::empty()
        } else {
            let before = self.after(chunks.drop_last());
            let emitted = self.output(chunks.drop_last());
            if before.limit == 0 {
                emitted
            } else {
                match before.emitted(chunks.last()) {
                    Some(part) => emitted.push(part),
                    None => emitted,
                }
            }
        }
    }

    /// The cut of the window `range`.
    pub fn new(range: Range<u64>) -> (state: Self)
        requires
            range.start <= range.end,
        ensures
            state.offset == range.start,
            state.limit == range.end - range.start,
    {
        SliceState { offset: range.start, limit: range.end - range.start }
    }

    /// Whether the window is exhausted, so that no further chunk is needed.
    pub fn finished(&self) -> (done: bool)
        ensures
            done == (self.limit == 0),
    {
        self.limit == 0
    }

    /// Feeds the next chunk of the source and returns what is emitted for it.
    pub fn advance(&mut self, chunk: Bytes) -> (out: Option<Bytes>)
        requires
            old(self).limit > 0,
        ensures
            *final(self) == old(self).next(bytes_seq(chunk)),
            match old(self).emitted(bytes_seq(chunk)) {
                Some(part) => out is Some && bytes_seq(out->Some_0) == part,
                None => out is None,
            },
    {
        let size = chunk.len() as u64;
        if self.offset > 0 && size <= self.offset {
            self.offset = self.offset - size;
            None
        } else {
            let ghost whole = bytes_seq(chunk);
            let mut chunk = chunk;
            let mut tail = chunk.split_off(self.offset as usize);
            let ghost rest_bytes = bytes_seq(tail);
            let rest = size - self.offset;
            let take = if self.limit < rest { self.limit } else { rest };
            let part = tail.split_to(take as usize);
            proof {
                assert(bytes_seq(part) == rest_bytes.subrange(0, take as int));
                assert(bytes_seq(part) =~= old(self).emitted(whole)->Some_0);
            }
            self.offset = 0;
            self.limit = self.limit - take;
            Some(part)
        }
    }

    /// Once the window is exhausted, or the source has been read to its
    /// end, further chunks change nothing.
    pub proof fn lemma_finished_stays(self, chunks: Seq<Seq<u8>>, n: int)
        requires
            0 <= n <= chunks.len(),
            n == chunks.len() || self.after(chunks.take(n)).limit == 0,
        ensures
            self.after(chunks) == self.after(chunks.take(n)),
            self.output(chunks) == self.output(chunks.take(n)),
        decreases chunks.len(),
    {
        if n == chunks.len() {
            assert(chunks.take(n) =~= chunks);
        } else {
            let front = chunks.drop_last();
            assert(front.take(n) =~= chunks.take(n));
            self.lemma_finished_stays(front, n);
        }
    }

    /// What has been emitted after any run of chunks is the window of what
    /// has been read, and the state counts what the window still lacks.
    pub proof fn lemma_output_is_window(self, chunks: Seq<Seq<u8>>)
        ensures
            concat(self.output(chunks)) == window(
                concat(chunks),
                self.offset as int,
                self.offset + self.limit,
            ),
            self.after(chunks).limit == self.limit - concat(self.output(chunks)).len(),
            self.after(chunks).limit > 0 ==> self.after(chunks).offset == self.offset - (if self.offset
                < concat(chunks).len() {
                self.offset as int
            } else {
                concat(chunks).len() as int
            }),
        decreases chunks.len(),
    {
        if chunks.len() == 0 {
            assert(concat(self.output(chunks)) =~= window(
                concat(chunks),
                self.offset as int,
                self.offset + self.limit,
            ));
        } else {
            let front = chunks.drop_last();
            let last = chunks.last();
            self.lemma_output_is_window(front);
            let before = self.after(front);
            let lo = self.offset as int;
            let hi = self.offset + self.limit;
            let read = concat(front);
            assert(concat(chunks) == read + last);
            if before.limit == 0 {
                assert(concat(self.output(chunks)) =~= window(concat(chunks), lo, hi));
            } else {
                match before.emitted(last) {
                    Some(part) => {
                        lemma_concat_push(self.output(front), part);
                        assert(concat(self.output(chunks)) =~= window(concat(chunks), lo, hi));
                    },
                    None => {
                        assert(concat(self.output(chunks)) =~= window(concat(chunks), lo, hi));
                    },
                }
            }
        }
    }
}

/// Cuts the byte window `range` out of a stream: discards the first
/// `range.start` bytes, then emits at most `range.end - range.start` bytes,
/// splitting the chunks that cross either edge. A stream that ends early
/// gives what it has.
pub fn slice_stream(stream: Vec<Bytes>, range: Range<u64>) -> (out: Vec<Bytes>)
    requires
        range.start <= range.end,
    ensures
        contents(out@) == (SliceState {
            offset: range.start,
            limit: (range.end - range.start) as u64,
        }).output(contents(stream@)),
        concat(contents(out@)) == window(
            concat(contents(stream@)),
            range.start as int,
            range.end as int,
        ),
{
    let ghost first = SliceState { offset: range.start, limit: (range.end - range.start) as u64 };
    let ghost source = contents(stream@);
    let mut state = SliceState::new(range);
    let mut out: Vec<Bytes> = Vec::new();
    let mut i: usize = 0;
    proof {
        assert(source.take(0) =~= Seq::<Seq<u8>>::empty());
        assert(contents(out@) =~= Seq::<Seq<u8>>::empty());
    }
    while i < stream.len() && !state.finished()
        invariant
            i <= stream.len(),
            source == contents(stream@),
            state == first.after(source.take(i as int)),
            contents(out@) == first.output(source.take(i as int)),
        decreases stream.len() - i,
    {
        let chunk = bytes_clone(&stream[i]);
        let ghost before = state;
        let ghost emitted = out@;
        let part = state.advance(chunk);
        proof {
            let read = source.take(i as int + 1);
            assert(read.drop_last() =~= source.take(i as int));
            assert(read.last() == bytes_seq(stream@[i as int]));
        }
        match part {
            Some(part) => {
                proof {
                    lemma_contents_push(emitted, part);
                }
                out.push(part);
            },
            None => {},
        }
        i += 1;
    }
    proof {
        first.lemma_finished_stays(source, i as int);
        first.lemma_output_is_window(source);
    }
    out
}

/// Why a stream stopped before its end.
#[derive(Clone, Copy, Debug, PartialEq, Eq, Structural)]
pub enum StreamError {
    /// The source ended before the declared number of bytes had been read.
    UnexpectedEof,
    /// A chunk could not be sealed, or did not authenticate.
    InvalidData,
}

/// How many whole chunks of `k` bytes have been completed once `accepted` of
/// `declared` bytes are in: every full `k`, and the short last chunk as soon
/// as the declared length is reached.
pub open spec fn finished_chunks(accepted: nat, declared: nat, k: nat) -> nat {
    if k == 0 {
        0
    } else if accepted == declared {
        chunk_count(declared, k)
    } else {
        accepted / k
    }
}

/// How many bytes have left in completed chunks once `accepted` of `declared`
/// bytes are in.
pub open spec fn finished_bytes(accepted: nat, declared: nat, k: nat) -> nat {
    if k == 0 {
        0
    } else if accepted == declared {
        declared
    } else {
        ((accepted / k) * k) as nat
    }
}

/// If `s` lies in the `q`-th stretch of `k`, then `q` is `s / k`.
proof fn lemma_quotient(s: int, k: int, q: int)
    requires
        k > 0,
        q * k <= s < q * k + k,
    ensures
        s / k == q,
        s % k == s - q * k,
{
    assert(s / k == q) by (nonlinear_arith)
        requires
            k > 0,
            q * k <= s < q * k + k,
    ;
    assert(s % k == s - (s / k) * k) by (nonlinear_arith)
        requires
            k > 0,
    ;
}

/// A number lies in the stretch of `k` that its quotient names.
proof fn lemma_quotient_bounds(s: int, k: int)
    requires
        k > 0,
        s >= 0,
    ensures
        0 <= (s / k) * k <= s < (s / k) * k + k,
        0 <= s / k,
{
    assert(0 <= (s / k) * k <= s < (s / k) * k + k && 0 <= s / k) by (nonlinear_arith)
        requires
            k > 0,
            s >= 0,
    ;
}

/// Regroups a stream of a declared length into chunks of a fixed size, the
/// last chunk holding what is left. Bytes beyond the declared length are not
/// read.
pub struct Rechunker {
    size: u64,
    chunk_size: u64,
    emitted: u64,
    buffer: Vec<u8>,
    seen: Ghost<Seq<u8>>,
}

impl Rechunker {
    /// The bytes taken in so far.
    pub closed spec fn accepted(&self) -> Seq<u8> {
        self.seen@
    }

    /// The declared length of the stream.
    pub closed spec fn declared(&self) -> nat {
        self.size as nat
    }

    /// The size of the chunks to make.
    pub closed spec fn chunk_len(&self) -> nat {
        self.chunk_size as nat
    }

    /// The number of chunks handed out so far.
    pub open spec fn finished(&self) -> nat {
        finished_chunks(self.accepted().len(), self.declared(), self.chunk_len())
    }

    /// What ties the buffered bytes to the bytes taken in.
    pub closed spec fn wf(&self) -> bool {
        &&& self.seen@.len() <= self.size
        &&& self.emitted == finished_bytes(self.seen@.len(), self.size as nat, self.chunk_size as nat)
        &&& self.emitted <= self.seen@.len()
        &&& self.buffer@ == self.seen@.skip(self.emitted as int)
        &&& self.chunk_size == 0 ==> self.seen@.len() == 0
    }

    /// A regrouper for a stream of `size` bytes into chunks of `chunk_size`.
    pub fn new(size: u64, chunk_size: u64) -> (r: Self)
        ensures
            r.wf(),
            r.accepted() == Seq::<u8>::empty(),
            r.declared() == size,
            r.chunk_len() == chunk_size,
    {
        let r = Rechunker { size, chunk_size, emitted: 0, buffer: Vec::new(), seen: Ghost(Seq::empty()) };
        proof {
            if chunk_size > 0 {
                if size == 0 {
                } else {
                    lemma_quotient(0, chunk_size as int, 0);
                }
            }
            assert(r.buffer@ =~= r.seen@.skip(0));
        }
        r
    }

    /// Whether every declared byte has been handed out, so that no further
    /// input is needed. With a chunk size of zero there is nothing to do.
    pub fn is_complete(&self) -> (done: bool)
        requires
            self.wf(),
        ensures
            done == (self.chunk_len() == 0 || self.accepted().len() == self.declared()),
    {
        proof {
            if self.chunk_size > 0 && self.seen@.len() < self.size {
                lemma_quotient_bounds(self.seen@.len() as int, self.chunk_size as int);
            }
        }
        self.chunk_size == 0 || self.emitted == self.size
    }

    /// Takes in the next bytes of the source and returns the chunks that
    /// they complete.
    pub fn push(&mut self, data: &[u8]) -> (out: Vec<Bytes>)
        requires
            old(self).wf(),
        ensures
            final(self).wf(),
            final(self).declared() == old(self).declared(),
            final(self).chunk_len() == old(self).chunk_len(),
            final(self).accepted() == if old(self).chunk_len() == 0 {
                old(self).accepted()
            } else {
                (old(self).accepted() + data@).take(
                    if old(self).accepted().len() + data@.len() < old(self).declared() {
                        (old(self).accepted().len() + data@.len()) as int
                    } else {
                        old(self).declared() as int
                    },
                )
            },
            old(self).finished() <= final(self).finished(),
            contents(out@) == split_chunks(final(self).accepted(), final(self).chunk_len()).subrange(
                old(self).finished() as int,
                final(self).finished() as int,
            ),
    {
        let mut out: Vec<Bytes> = Vec::new();
        let ghost k = self.chunk_size as nat;
        let ghost first = old(self).finished();
        if self.chunk_size == 0 {
            proof {
                assert(contents(out@) =~= split_chunks(self.seen@, k).subrange(0, 0));
            }
            return out;
        }
        let mut pos: usize = 0;
        proof {
            assert(data@.take(0) =~= Seq::<u8>::empty());
            assert(self.seen@ =~= old(self).seen@ + data@.take(0));
            lemma_count_covers(self.seen@.len(), k);
            assert(contents(out@) =~= split_chunks(self.seen@, k).subrange(
                first as int,
                first as int,
            ));
            if self.seen@.len() < self.size {
                lemma_quotient_bounds(self.seen@.len() as int, k as int);
            }
        }
        while pos < data.len() && self.emitted < self.size
            invariant
                self.wf(),
                self.size == old(self).size,
                self.chunk_size == old(self).chunk_size,
                k == self.chunk_size,
                k > 0,
                pos <= data@.len(),
                self.seen@ == old(self).seen@ + data@.take(pos as int),
                first == old(self).finished(),
                first <= self.finished(),
                self.finished() <= chunk_count(self.seen@.len(), k),
                contents(out@) == split_chunks(self.seen@, k).subrange(
                    first as int,
                    self.finished() as int,
                ),
            decreases data@.len() - pos,
        {
            let ghost seen = self.seen@;
            let ghost s = seen.len() as int;
            let ghost q = s / (k as int);
            let ghost emitted_before = out@;
            proof {
                lemma_quotient_bounds(s, k as int);
            }
            assert(s < self.size);
            let left = self.size - self.emitted;
            let target = if self.chunk_size < left { self.chunk_size } else { left };
            let have = self.buffer.len() as u64;
            let need = target - have;
            let avail = data.len() - pos;
            let take: usize = if (avail as u64) < need { avail } else { need as usize };
            let piece = slice_subrange(data, pos, pos + take);
            self.buffer.extend_from_slice(piece);
            proof {
                self.seen@ = seen + piece@;
                assert(self.buffer@ =~= self.seen@.skip(self.emitted as int));
                assert(data@.take(pos as int) + piece@ =~= data@.take(pos + take));
                assert(self.seen@ =~= old(self).seen@ + data@.take(pos + take));
            }
            pos = pos + take;
            let ghost grown = self.seen@;
            let ghost grown_len = grown.len() as int;
            if self.buffer.len() as u64 == target {
                let mut full: Vec<u8> = Vec::new();
                std::mem::swap(&mut full, &mut self.buffer);
                let chunk = bytes_from_vec(full);
                proof {
                    lemma_chunk_count(q as nat, target as nat, k);
                    assert((q + 1) * k == q * k + k) by (nonlinear_arith);
                    if grown_len < self.size {
                        lemma_quotient(grown_len, k as int, q + 1);
                    }
                    assert(finished_chunks(grown_len as nat, self.size as nat, k) == q + 1);
                    assert(chunk_count(grown_len as nat, k) == q + 1);
                    lemma_chunk_bounds(grown_len as nat, k, q);
                    assert(bytes_seq(chunk) =~= split_chunks(grown, k)[q]);
                    lemma_contents_push(emitted_before, chunk);
                }
                out.push(chunk);
                self.emitted = self.emitted + target;
                proof {
                    assert(self.buffer@ =~= self.seen@.skip(self.emitted as int));
                    assert forall|j: int| first <= j < q implies split_chunks(seen, k)[j]
                        == split_chunks(grown, k)[j] by {
                        assert((j + 1) * k <= q * k) by (nonlinear_arith)
                            requires
                                j + 1 <= q,
                                k > 0,
                        ;
                        lemma_stable_chunk(seen, grown, k, j);
                    }
                    assert(contents(out@) =~= split_chunks(grown, k).subrange(
                        first as int,
                        q + 1,
                    ));
                }
            } else {
                proof {
                    lemma_quotient(grown_len, k as int, q);
                    assert(finished_chunks(grown_len as nat, self.size as nat, k) == q);
                    lemma_quotient_bounds(grown_len, k as int);
                    assert forall|j: int| first <= j < q implies split_chunks(seen, k)[j]
                        == split_chunks(grown, k)[j] by {
                        assert((j + 1) * k <= q * k) by (nonlinear_arith)
                            requires
                                j + 1 <= q,
                                k > 0,
                        ;
                        lemma_stable_chunk(seen, grown, k, j);
                    }
                    lemma_count_covers(grown_len as nat, k);
                    assert(contents(out@) =~= split_chunks(grown, k).subrange(first as int, q));
                }
            }
        }
        proof {
            let all = old(self).seen@ + data@;
            let cap = if all.len() < self.size { all.len() as int } else { self.size as int };
            if pos < data@.len() {
                assert(self.seen@.len() == self.size) by {
                    if self.seen@.len() < self.size {
                        lemma_quotient_bounds(self.seen@.len() as int, k as int);
                    }
                }
            } else {
                assert(data@.take(pos as int) =~= data@);
            }
            assert(self.seen@ =~= all.take(cap));
        }
        out
    }
}

/// A whole chunk of `data` is the same chunk of any longer stream that
/// begins with `data`.
proof fn lemma_stable_chunk(data: Seq<u8>, longer: Seq<u8>, k: nat, j: int)
    requires
        k > 0,
        data.len() <= longer.len(),
        data =~= longer.take(data.len() as int),
        0 <= j,
        (j + 1) * k <= data.len(),
    ensures
        j < chunk_count(data.len(), k),
        j < chunk_count(longer.len(), k),
        split_chunks(data, k)[j] == split_chunks(longer, k)[j],
{
    lemma_count_covers(data.len(), k);
    lemma_count_covers(longer.len(), k);
    assert((j + 1) * k == j * k + k && j * k >= 0) by (nonlinear_arith)
        requires
            j >= 0,
            k > 0,
    ;
    let n = chunk_count(data.len(), k) as int;
    let m = chunk_count(longer.len(), k) as int;
    assert(j < n) by (nonlinear_arith)
        requires
            (j + 1) * k <= data.len(),
            data.len() <= n * k,
            k > 0,
    ;
    assert(j < m) by (nonlinear_arith)
        requires
            (j + 1) * k <= longer.len(),
            longer.len() <= m * k,
            k > 0,
    ;
    assert(split_chunks(data, k)[j] =~= split_chunks(longer, k)[j]);
}

/// The chunks of a stream cover it: their count times `k` reaches its length,
/// and every whole `k` in it is one of them.
proof fn lemma_count_covers(len: nat, k: nat)
    requires
        k > 0,
    ensures
        len <= chunk_count(len, k) * k,
        len / k <= chunk_count(len, k),
{
    let n = (len + k - 1) / k as int;
    assert(n * k <= len + k - 1 && len + k - 1 < n * k + k) by (nonlinear_arith)
        requires
            n == (len + k - 1) / k as int,
            k > 0,
    ;
    lemma_quotient_bounds(len as int, k as int);
    let q = len as int / k as int;
    assert(q <= n) by (nonlinear_arith)
        requires
            q * k <= len,
            len + k - 1 < n * k + k,
            k > 0,
    ;
}

/// Appending a run of buffers to another appends their contents.
pub proof fn lemma_contents_add(a: Seq<Bytes>, b: Seq<Bytes>)
    ensures
        contents(a + b) == contents(a) + contents(b),
{
    assert(contents(a + b) =~= contents(a) + contents(b));
}

/// Regroups a stream of a declared `size` into chunks of `chunk_size` bytes,
/// the last chunk holding what is left. Fails where the source ends before
/// `size` bytes; bytes beyond `size` are left unread. A chunk size of zero
/// gives no chunks.
pub fn chunk_stream(size: u64, stream: Vec<Bytes>, chunk_size: u64) -> (r: Result<
    Vec<Bytes>,
    StreamError,
>)
    ensures
        r is Ok <==> chunk_size == 0 || concat(contents(stream@)).len() >= size,
        r is Ok ==> contents(r->Ok_0@) == split_chunks(
            window(concat(contents(stream@)), 0, size as int),
            chunk_size as nat,
        ),
        r is Err ==> r->Err_0 == StreamError::UnexpectedEof,
{
    let ghost source = contents(stream@);
    let ghost k = chunk_size as nat;
    let mut rechunker = Rechunker::new(size, chunk_size);
    let mut out: Vec<Bytes> = Vec::new();
    let mut i: usize = 0;
    proof {
        assert(source.take(0) =~= Seq::<Seq<u8>>::empty());
        assert(rechunker.accepted() =~= window(concat(source.take(0)), 0, size as int));
        if k > 0 {
            lemma_count_covers(0, k);
            lemma_chunk_count(0, 0, k);
            assert(0 * k + 0 == 0) by (nonlinear_arith);
            lemma_quotient(0, k as int, 0);
        }
        assert(rechunker.finished() == 0);
        assert(contents(out@) =~= split_chunks(rechunker.accepted(), k).take(0));
    }
    while i < stream.len() && !rechunker.is_complete()
        invariant
            i <= stream.len(),
            source == contents(stream@),
            k == chunk_size,
            rechunker.wf(),
            rechunker.declared() == size,
            rechunker.chunk_len() == k,
            k > 0 ==> rechunker.accepted() == window(concat(source.take(i as int)), 0, size as int),
            rechunker.finished() <= chunk_count(rechunker.accepted().len(), k),
            contents(out@) == split_chunks(rechunker.accepted(), k).take(
                rechunker.finished() as int,
            ),
        decreases stream.len() - i,
    {
        let ghost before = rechunker.accepted();
        let ghost done = rechunker.finished() as int;
        let ghost emitted = out@;
        let mut fresh = rechunker.push(bytes_as_slice(&stream[i]));
        proof {
            let after = rechunker.accepted();
            let read = source.take(i as int + 1);
            assert(read.drop_last() =~= source.take(i as int));
            assert(read.last() == bytes_seq(stream@[i as int]));
            assert(after =~= window(concat(read), 0, size as int));
            lemma_quotient_bounds(before.len() as int, k as int);
            assert forall|j: int| 0 <= j < done implies split_chunks(before, k)[j] == split_chunks(
                after,
                k,
            )[j] by {
                assert((j + 1) * k <= done * k) by (nonlinear_arith)
                    requires
                        j + 1 <= done,
                        k > 0,
                ;
                lemma_stable_chunk(before, after, k, j);
            }
            lemma_count_covers(after.len(), k);
            lemma_contents_add(emitted, fresh@);
            assert(contents(emitted + fresh@) =~= split_chunks(after, k).take(
                rechunker.finished() as int,
            ));
        }
        out.append(&mut fresh);
        i += 1;
    }
    proof {
        lemma_concat_take(source, i as int);
        assert(source.take(stream@.len() as int) =~= source);
    }
    if rechunker.is_complete() {
        proof {
            let all = window(concat(source), 0, size as int);
            if k > 0 {
                assert(rechunker.accepted() =~= all);
                assert(split_chunks(all, k).take(chunk_count(all.len(), k) as int) =~= split_chunks(
                    all,
                    k,
                ));
            } else {
                assert(contents(out@) =~= split_chunks(all, k));
            }
        }
        Ok(out)
    } else {
        Err(StreamError::UnexpectedEof)
    }
}

/// The whole units that are due once `length` bytes join a residual of
/// `leftover` bytes.
pub open spec fn units_due(leftover: nat, length: nat, unit: nat) -> nat {
    (leftover + length) / unit
}

/// The residual that is carried on once `length` bytes have joined a
/// residual of `leftover` bytes.
pub open spec fn residual_after(leftover: nat, length: nat, unit: nat) -> nat {
    (leftover + length) % unit
}

/// The cells to await for a number of whole units: one cell per unit, and
/// no more than the limiter can count, which is 2^32 - 1.
pub open spec fn cells_due(units: nat) -> nat {
    if units <= u32::MAX {
        units
    } else {
        u32::MAX as nat
    }
}

/// What one chunk costs: the cells to await, and the residual to carry on.
#[derive(Clone, Copy, Debug, PartialEq, Eq, Structural)]
pub struct ThrottleStep {
    /// The cells to await: one for every whole unit due.
    pub consume: u32,
    /// The bytes short of a whole unit.
    pub leftover: u64,
}

/// Accounts a chunk of `length` bytes against a residual of `leftover`
/// bytes, in units of `unit` bytes.
pub fn throttle_step(leftover: u64, length: u64, unit: u64) -> (step: ThrottleStep)
    requires
        unit > 0,
    ensures
        step.leftover == residual_after(leftover as nat, length as nat, unit as nat),
        step.consume == cells_due(units_due(leftover as nat, length as nat, unit as nat)),
{
    let total: u128 = leftover as u128 + length as u128;
    let whole: u128 = total / (unit as u128);
    let rest: u128 = total % (unit as u128);
    let consume: u32 = if whole <= 0xFFFF_FFFF { whole as u32 } else { 0xFFFF_FFFF };
    ThrottleStep { consume, leftover: rest as u64 }
}

/// The bytes of each chunk of a run, counted.
pub open spec fn lengths(chunks: Seq<Seq<u8>>) -> Seq<nat> {
    Seq::new(chunks.len(), |i: int| chunks[i].len())
}

/// The units due for each chunk of a run in turn, the residual carried from
/// one chunk to the next.
pub open spec fn units_each(leftover: nat, chunks: Seq<Seq<u8>>, unit: nat) -> Seq<nat>
    decreases chunks.len(),
{
    if chunks.len() == 0 {
        Seq::empty()
    } else {
        let before = chunks.drop_last();
        units_each(leftover, before, unit).push(
            units_due(residual_after(leftover, concat(before).len(), unit), chunks.last().len(), unit),
        )
    }
}

/// The sum of a run of numbers.
pub open spec fn sum(numbers: Seq<nat>) -> nat
    decreases numbers.len(),
{
    if numbers.len() == 0 {
        0
    } else {
        sum(numbers.drop_last()) + numbers.last()
    }
}

/// Nothing is lost between chunks: the units due chunk by chunk, and the
/// residual left at the end, account for every byte and the residual that
/// was there at the start.
pub proof fn lemma_units_add_up(leftover: nat, chunks: Seq<Seq<u8>>, unit: nat)
    requires
        unit > 0,
        leftover < unit,
    ensures
        sum(units_each(leftover, chunks, unit)) * unit + residual_after(
            leftover,
            concat(chunks).len(),
            unit,
        ) == leftover + concat(chunks).len(),
    decreases chunks.len(),
{
    if chunks.len() == 0 {
        assert(concat(chunks).len() == 0);
        assert(sum(units_each(leftover, chunks, unit)) == 0);
        assert(0 * unit == 0) by (nonlinear_arith);
        lemma_quotient(leftover as int, unit as int, 0);
    } else {
        let before = chunks.drop_last();
        let last = chunks.last().len();
        lemma_units_add_up(leftover, before, unit);
        let carried = residual_after(leftover, concat(before).len(), unit);
        let each = units_each(leftover, chunks, unit);
        assert(each.drop_last() =~= units_each(leftover, before, unit));
        assert(each.last() == units_due(carried, last, unit));
        let so_far = sum(units_each(leftover, before, unit));
        let due = units_due(carried, last, unit);
        let all = leftover + concat(chunks).len();
        assert(concat(chunks).len() == concat(before).len() + last);
        assert(carried + last == due * unit + (carried + last) % unit) by (nonlinear_arith)
            requires
                due == (carried + last) / unit,
                unit > 0,
        ;
        assert((so_far + due) * unit == so_far * unit + due * unit) by (nonlinear_arith);
        assert(all == (so_far + due) * unit + (carried + last) % unit);
        assert(0 <= (carried + last) % unit < unit) by (nonlinear_arith)
            requires
                unit > 0,
                carried + last >= 0,
        ;
        lemma_quotient(all as int, unit as int, (so_far + due) as int);
        assert(all % unit == (carried + last) % unit) by (nonlinear_arith)
            requires
                all == (so_far + due) * unit + (carried + last) % unit,
                0 <= (carried + last) % unit < unit,
                unit > 0,
                all / unit == so_far + due,
        ;
    }
}

/// The account of a bandwidth limit: the limit itself, measured in units
/// of `unit` bytes, and the bytes short of a whole unit that the chunks so
/// far have left.
#[derive(Debug)]
pub struct BandwidthLimiter {
    unit: u64,
    limit: RateLimit,
    leftover: u64,
}

impl BandwidthLimiter {
    #[verifier::type_invariant]
    spec fn valid(self) -> bool {
        self.leftover < self.unit
    }

    /// The bytes that make one cell of the limit.
    pub closed spec fn unit(self) -> nat {
        self.unit as nat
    }

    /// The bytes short of a whole unit that are carried on.
    pub closed spec fn leftover(self) -> nat {
        self.leftover as nat
    }

    /// The limit that the cells are awaited from.
    pub closed spec fn limit(self) -> RateLimit {
        self.limit
    }

    /// An account with nothing carried, for a limit in units of `unit` bytes.
    pub fn new(limit: RateLimit, unit: u64) -> (limiter: Self)
        requires
            unit > 0,
        ensures
            limiter.unit() == unit,
            limiter.leftover() == 0,
            limiter.limit() == limit,
    {
        BandwidthLimiter { unit, limit, leftover: 0 }
    }

    /// The limit that the cells are awaited from.
    pub fn rate_limit(&self) -> (limit: RateLimit)
        ensures
            limit == self.limit(),
    {
        self.limit
    }

    /// The bytes that make one cell of the limit; never zero.
    pub fn unit_size(&self) -> (unit: u64)
        ensures
            unit == self.unit(),
            unit > 0,
            self.leftover() < self.unit(),
    {
        proof {
            use_type_invariant(self);
        }
        self.unit
    }

    /// Accounts a chunk of `length` bytes and returns the cells to await
    /// for it: one for every whole unit that the chunk completes.
    pub fn throttle(&mut self, length: u64) -> (consume: u32)
        ensures
            final(self).unit() == old(self).unit(),
            final(self).limit() == old(self).limit(),
            final(self).leftover() == residual_after(old(self).leftover(), length as nat, old(self).unit()),
            consume == cells_due(units_due(old(self).leftover(), length as nat, old(self).unit())),
    {
        proof {
            use_type_invariant(&*self);
        }
        let step = throttle_step(self.leftover, length, self.unit);
        proof {
            assert(step.leftover < self.unit) by (nonlinear_arith)
                requires
                    step.leftover == (self.leftover + length) % (self.unit as int),
                    self.unit > 0,
            ;
        }
        self.leftover = step.leftover;
        step.consume
    }
}

/// A stream that has been accounted against a bandwidth limit: its chunks,
/// unchanged, and the cells to await before each of them is passed on.
pub struct Throttled {
    pub chunks: Vec<Bytes>,
    pub cells: Vec<u32>,
}

/// Accounts every chunk of a stream against a bandwidth limit. The chunks
/// pass unchanged; for each, one cell is due for every whole unit that it
/// completes together with what was carried.
pub fn throttle_stream(stream: Vec<Bytes>, limiter: &mut BandwidthLimiter) -> (out: Throttled)
    ensures
        out.chunks == stream,
        final(limiter).unit() == old(limiter).unit(),
        final(limiter).limit() == old(limiter).limit(),
        final(limiter).leftover() == residual_after(
            old(limiter).leftover(),
            concat(contents(stream@)).len(),
            old(limiter).unit(),
        ),
        out.cells@.len() == stream@.len(),
        forall|i: int|
            0 <= i < stream@.len() ==> (#[trigger] out.cells@[i]) == cells_due(
                units_each(old(limiter).leftover(), contents(stream@), old(limiter).unit())[i],
            ),
{
    let ghost source = contents(stream@);
    let ghost start = limiter.leftover();
    let unit = limiter.unit_size();
    let mut cells: Vec<u32> = Vec::new();
    let mut i: usize = 0;
    proof {
        assert(source.take(0) =~= Seq::<Seq<u8>>::empty());
        assert(concat(source.take(0)).len() == 0);
        lemma_quotient(start as int, unit as int, 0);
    }
    while i < stream.len()
        invariant
            i <= stream@.len(),
            source == contents(stream@),
            unit > 0,
            start < unit,
            limiter.unit() == unit,
            limiter.unit() == old(limiter).unit(),
            limiter.limit() == old(limiter).limit(),
            limiter.leftover() == residual_after(start, concat(source.take(i as int)).len(), unit as nat),
            cells@.len() == i,
            forall|j: int|
                0 <= j < i ==> (#[trigger] cells@[j]) == cells_due(
                    units_each(start, source.take(i as int), unit as nat)[j],
                ),
            units_each(start, source.take(i as int), unit as nat).len() == i,
        decreases stream@.len() - i,
    {
        let length = stream[i].len() as u64;
        let ghost before = cells@;
        let ghost read = source.take(i as int + 1);
        let ghost carried = limiter.leftover();
        let consume = limiter.throttle(length);
        cells.push(consume);
        proof {
            assert(read.drop_last() =~= source.take(i as int));
            assert(read.last() == source[i as int]);
            let each = units_each(start, read, unit as nat);
            assert(each.last() == units_due(carried, length as nat, unit as nat));
            assert(concat(read).len() == concat(source.take(i as int)).len() + length);
            lemma_carry(start, concat(source.take(i as int)).len(), length as nat, unit as nat);
            assert forall|j: int| 0 <= j < i + 1 implies (#[trigger] cells@[j]) == cells_due(
                each[j],
            ) by {
                if j < i {
                    assert(cells@[j] == before[j]);
                    assert(each[j] == units_each(start, source.take(i as int), unit as nat)[j]);
                }
            }
        }
        i += 1;
    }
    proof {
        assert(source.take(stream@.len() as int) =~= source);
    }
    Throttled { chunks: stream, cells }
}

/// Carrying a residual over one chunk and then over the next leaves what
/// carrying it over both at once leaves.
proof fn lemma_carry(leftover: nat, first: nat, second: nat, unit: nat)
    requires
        unit > 0,
    ensures
        residual_after(residual_after(leftover, first, unit), second, unit) == residual_after(
            leftover,
            first + second,
            unit,
        ),
{
    vstd::arithmetic::div_mod::lemma_add_mod_noop(
        (leftover + first) as int,
        second as int,
        unit as int,
    );
    vstd::arithmetic::div_mod::lemma_mod_twice((leftover + first) as int, unit as int);
    vstd::arithmetic::div_mod::lemma_add_mod_noop(
        ((leftover + first) % unit) as int,
        second as int,
        unit as int,
    );
}

} // verus!
