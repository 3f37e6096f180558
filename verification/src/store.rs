//! The blob engine: how a file's plaintext maps onto its sealed form, which
//! part of the sealed form a plaintext range needs, and the two pipelines
//! that seal an upload and open a download.

use crate::chunk::{
    chunk_count, concat, contents, evenly_chunked, lemma_chunk_bounds, lemma_concat_of_split,
    lemma_even_position, lemma_even_subrange, lemma_split_even, lemma_split_of_even, split_chunks,
};
use crate::cipher::{
    aead_fits, all_fit, all_open, decrypt_stream, encrypt_stream, opened_chunks, sealed_chunks,
    ChunkStreamCipher, SECRET_SIZE, TAG_SIZE,
};
use crate::drive::{is_alphanumeric, random_alphanumeric};
use crate::header::{Bound, RangeCustom};
use crate::stream::{chunk_stream, slice_stream, window, StreamError};
use bytes::Bytes;
use std::ops::Range;
use vstd::prelude::*;
use vstd::string::StringExecFns;

verus! {

/// Plaintext bytes per chunk: 1 MiB.
pub const CHUNK_SIZE: u64 = 1_048_576;

/// Sealed bytes per full chunk: the plaintext and its tag.
pub const ENCRYPTED_CHUNK_SIZE: u64 = 1_048_592;

/// The most files that one drive is given.
pub const DRIVE_MAX_FILE_LIMIT: u32 = 350_000;

/// The largest file the engine takes: 2^32 chunks, so that no two chunks of a
/// file share a nonce.
pub const MAX_FILE_SIZE: u64 = 0x10_0000_0000_0000;

/// Why the engine refused a request.
#[derive(Clone, Copy, Debug, PartialEq, Eq, Structural)]
pub enum Error {
    /// The content stream failed.
    Io(StreamError),
    /// The stored secret does not have the length of a key and a nonce.
    SecretInvalid,
    /// The file is larger than `MAX_FILE_SIZE`.
    SizeInvalid,
}

/// The length of the sealed form of `size` plaintext bytes: one tag more for
/// every chunk begun.
pub open spec fn encrypted_len(size: nat) -> nat {
    size + chunk_count(size, CHUNK_SIZE as nat) * TAG_SIZE as nat
}

/// The number of chunks of a file, as the engine computes it.
proof fn lemma_chunks_of(size: nat)
    ensures
        chunk_count(size, CHUNK_SIZE as nat) == if size == 0 {
            0
        } else {
            (size - 1) / (CHUNK_SIZE as int) + 1
        },
        size <= MAX_FILE_SIZE ==> chunk_count(size, CHUNK_SIZE as nat) <= 0x1_0000_0000,
{
    let k = CHUNK_SIZE as int;
    if size == 0 {
        assert((0 + k - 1) / k == 0);
    } else {
        assert((size + k - 1) / k == (size - 1) / k + 1) by (nonlinear_arith)
            requires
                k > 0,
        ;
    }
}

/// The length of the sealed form of a file of `size` plaintext bytes.
pub fn encrypted_size(size: u64) -> (r: u64)
    requires
        size <= MAX_FILE_SIZE,
    ensures
        r == encrypted_len(size as nat),
{
    proof {
        lemma_chunks_of(size as nat);
    }
    let chunks: u64 = if size == 0 { 0 } else { (size - 1) / CHUNK_SIZE + 1 };
    size + chunks * 16
}

/// Where a requested range starts.
pub open spec fn bound_start(bound: Bound<u64>) -> u64 {
    match bound {
        Bound::Included(v) => v,
        Bound::Excluded(v) => if v == u64::MAX {
            u64::MAX
        } else {
            (v + 1) as u64
        },
        Bound::Unbounded => 0,
    }
}

/// Where a requested range ends, exclusively, in a file of `size` bytes.
pub open spec fn bound_end(bound: Bound<u64>, size: u64) -> u64 {
    match bound {
        Bound::Included(v) => if v == u64::MAX {
            u64::MAX
        } else {
            (v + 1) as u64
        },
        Bound::Excluded(v) => v,
        Bound::Unbounded => size,
    }
}

/// The half-open range that a request names in a file of `size` bytes, if it
/// names a non-empty one inside the file.
pub open spec fn resolved(range: RangeCustom<u64>, size: u64) -> Option<Range<u64>> {
    let start = bound_start(range.start);
    let end = bound_end(range.end, size);
    if start < end && end <= size {
        Some(start..end)
    } else {
        None
    }
}

/// The range that is served for a request: the requested one where it
/// resolves, the whole file otherwise.
pub open spec fn served(range: Option<RangeCustom<u64>>, size: u64) -> Range<u64> {
    match range {
        Some(r) => match resolved(r, size) {
            Some(x) => x,
            None => 0..size,
        },
        None => 0..size,
    }
}

/// Resolves a requested range against a file of `size` bytes: an open start
/// is 0, an open end is `size`, an inclusive end is one more. The range is
/// accepted where it is non-empty and inside the file.
pub fn resolve_range(range: &RangeCustom<u64>, size: u64) -> (r: Option<Range<u64>>)
    ensures
        r == resolved(*range, size),
{
    let start = match range.start {
        Bound::Included(v) => v,
        Bound::Excluded(v) => v.saturating_add(1),
        Bound::Unbounded => 0,
    };
    let end = match range.end {
        Bound::Included(v) => v.saturating_add(1),
        Bound::Excluded(v) => v,
        Bound::Unbounded => size,
    };
    if start < end && end <= size {
        Some(start..end)
    } else {
        None
    }
}

/// What a download of one plaintext range needs: the range itself, in a file
/// of a known size. Every other quantity follows from these.
pub struct DownloadPlan {
    size: u64,
    start: u64,
    end: u64,
}

impl DownloadPlan {
    #[verifier::type_invariant]
    spec fn valid(self) -> bool {
        &&& self.start <= self.end <= self.size <= MAX_FILE_SIZE
        &&& self.start < self.end || self.size == 0
    }

    /// The plaintext size of the file.
    pub closed spec fn size(self) -> u64 {
        self.size
    }

    /// Where the served plaintext range starts.
    pub closed spec fn start(self) -> u64 {
        self.start
    }

    /// Where the served plaintext range ends, exclusively.
    pub closed spec fn end(self) -> u64 {
        self.end
    }

    /// The index of the first chunk that holds a byte of the range.
    pub open spec fn chunk_start(self) -> int {
        self.start() as int / CHUNK_SIZE as int
    }

    /// The index after the last chunk that holds a byte of the range.
    pub open spec fn chunk_end(self) -> int {
        (if self.end() == 0 {
            0
        } else {
            self.end() - 1
        }) / CHUNK_SIZE as int + 1
    }

    /// Where the needed sealed bytes start.
    pub open spec fn enc_start(self) -> int {
        self.chunk_start() * ENCRYPTED_CHUNK_SIZE
    }

    /// Where the needed sealed bytes end, exclusively: the end of the last
    /// needed chunk, or of the sealed file where that comes first.
    pub open spec fn enc_end(self) -> int {
        let full = self.chunk_end() * ENCRYPTED_CHUNK_SIZE;
        let all = encrypted_len(self.size() as nat) as int;
        if full < all {
            full
        } else {
            all
        }
    }

    /// Where the range starts within the opened chunks.
    pub open spec fn trim_start(self) -> int {
        self.start() - self.chunk_start() * CHUNK_SIZE
    }

    /// Where the range ends, exclusively, within the opened chunks.
    pub open spec fn trim_end(self) -> int {
        self.trim_start() + (self.end() - self.start())
    }

    /// What holds of every plan: the range lies inside the file and is
    /// non-empty unless the file is empty, and the file is no larger than the
    /// engine takes.
    pub open spec fn well_formed(self) -> bool {
        &&& self.start() <= self.end() <= self.size() <= MAX_FILE_SIZE
        &&& self.start() < self.end() || self.size() == 0
    }

    /// The sealed bytes that the plan needs, as they lie in a response that
    /// starts at byte `from` of the sealed file and holds `raw`.
    pub open spec fn needed(self, from: u64, raw: Seq<u8>) -> Seq<u8> {
        window(raw, self.enc_start() - from, self.enc_end() - from)
    }

    /// The plaintext range that is served.
    pub fn range(&self) -> (r: Range<u64>)
        ensures
            r.start == self.start(),
            r.end == self.end(),
            self.well_formed(),
    {
        proof {
            use_type_invariant(self);
        }
        self.start..self.end
    }

    /// The plaintext size of the file.
    pub fn file_size(&self) -> (r: u64)
        ensures
            r == self.size(),
    {
        self.size
    }

    /// The chunks that hold the range, as a half-open range of indices.
    pub fn chunk_range(&self) -> (r: Range<u64>)
        ensures
            r.start == self.chunk_start(),
            r.end == self.chunk_end(),
            r.start < r.end <= 0x1_0000_0000,
    {
        proof {
            use_type_invariant(self);
        }
        let start = self.start / CHUNK_SIZE;
        let end = self.end.saturating_sub(1) / CHUNK_SIZE + 1;
        start..end
    }

    /// The sealed bytes to request from the remote.
    pub fn encrypted_range(&self) -> (r: Range<u64>)
        ensures
            r.start == self.enc_start(),
            r.end == self.enc_end(),
            r.start <= r.end,
    {
        proof {
            use_type_invariant(self);
        }
        let chunks = self.chunk_range();
        let start = chunks.start * ENCRYPTED_CHUNK_SIZE;
        let full = chunks.end * ENCRYPTED_CHUNK_SIZE;
        let all = encrypted_size(self.size);
        proof {
            self.lemma_sealed_reach();
        }
        start..(if full < all { full } else { all })
    }

    /// Where the needed sealed bytes lie in the body of a response that holds
    /// the bytes `response` of the sealed file and covers what is needed.
    pub fn response_window(&self, response: &Range<u64>) -> (r: Range<u64>)
        requires
            response.start <= self.enc_start(),
            self.enc_end() <= response.end,
        ensures
            r.start == self.enc_start() - response.start,
            r.end - r.start == self.enc_end() - self.enc_start(),
    {
        let wanted = self.encrypted_range();
        let start = wanted.start - response.start;
        start..start + (wanted.end - wanted.start)
    }

    /// The window of the opened chunks that is the range.
    pub fn content_range(&self) -> (r: Range<u64>)
        ensures
            r.start == self.trim_start(),
            r.end == self.trim_end(),
            r.start <= r.end,
    {
        proof {
            use_type_invariant(self);
        }
        let start = self.start - (self.start / CHUNK_SIZE) * CHUNK_SIZE;
        let end = start + (self.end - self.start);
        start..end
    }

    /// The first needed chunk begins inside the sealed file, or at its end
    /// where the file is empty.
    pub proof fn lemma_sealed_reach(self)
        requires
            self.well_formed(),
        ensures
            0 <= self.enc_start() <= self.enc_end(),
            self.enc_start() <= encrypted_len(self.size() as nat),
    {
        let k = CHUNK_SIZE as int;
        let size = self.size as nat;
        let n = chunk_count(size, k as nat) as int;
        let cs = self.start as int / k;
        lemma_chunks_of(size);
        if self.size > 0 {
            assert(cs <= (self.size - 1) / k) by (nonlinear_arith)
                requires
                    self.start <= self.size - 1,
                    cs == self.start as int / k,
                    k > 0,
            ;
            assert(cs * k <= self.start) by (nonlinear_arith)
                requires
                    cs == self.start as int / k,
                    k > 0,
                    self.start >= 0,
            ;
            assert(cs * ENCRYPTED_CHUNK_SIZE == cs * k + cs * 16) by (nonlinear_arith)
                requires
                    k == 1_048_576,
            ;
            assert(n * TAG_SIZE == n * 16);
        }
        assert(cs * ENCRYPTED_CHUNK_SIZE <= self.chunk_end() * ENCRYPTED_CHUNK_SIZE) by (nonlinear_arith)
            requires
                cs <= self.chunk_end(),
        ;
    }
}

/// Plans the download of `range` from a file of `size` plaintext bytes. A
/// request that does not resolve to a non-empty range inside the file is
/// served the whole file.
pub fn plan_download(size: u64, range: Option<RangeCustom<u64>>) -> (r: Result<DownloadPlan, Error>)
    ensures
        r is Err <==> size > MAX_FILE_SIZE,
        r is Err ==> r->Err_0 == Error::SizeInvalid,
        r is Ok ==> r->Ok_0.size() == size,
        r is Ok ==> r->Ok_0.start() == served(range, size).start,
        r is Ok ==> r->Ok_0.end() == served(range, size).end,
{
    if size > MAX_FILE_SIZE {
        return Err(Error::SizeInvalid);
    }
    let whole = 0..size;
    let served = match range {
        Some(requested) => match resolve_range(&requested, size) {
            Some(resolved) => resolved,
            None => whole,
        },
        None => whole,
    };
    Ok(DownloadPlan { size, start: served.start, end: served.end })
}

/// Whether `sealed` is the sealed form of `plain` under `cipher`: the
/// plaintext cut into chunks of 1 MiB, each sealed under its index and 16
/// bytes longer for it, all read end to end.
pub open spec fn sealed_file(cipher: ChunkStreamCipher, plain: Seq<u8>, sealed: Seq<u8>) -> bool {
    let chunks = split_chunks(plain, CHUNK_SIZE as nat);
    let run = sealed_chunks(cipher, 0, chunks);
    &&& sealed == concat(run)
    &&& forall|i: int| 0 <= i < chunks.len() ==> (#[trigger] run[i]).len() == chunks[i].len() + TAG_SIZE
}

/// A stream of `len` bytes makes no more than `m` chunks where `m` chunks
/// can hold it.
proof fn lemma_count_bound(len: nat, k: nat, m: int)
    requires
        k > 0,
        0 <= m,
        len <= m * k,
    ensures
        chunk_count(len, k) <= m,
{
    let n = (len + k - 1) / k as int;
    assert(n <= m) by (nonlinear_arith)
        requires
            n == (len + k - 1) / k as int,
            len <= m * k,
            k > 0,
    ;
}

/// The sealed form of a file is one tag longer than its plaintext for every
/// chunk begun, and its chunks are evenly sized.
pub proof fn lemma_sealed_len(cipher: ChunkStreamCipher, plain: Seq<u8>, sealed: Seq<u8>)
    requires
        sealed_file(cipher, plain, sealed),
    ensures
        sealed.len() == encrypted_len(plain.len()),
        evenly_chunked(split_chunks(plain, CHUNK_SIZE as nat), CHUNK_SIZE as nat),
        evenly_chunked(
            sealed_chunks(cipher, 0, split_chunks(plain, CHUNK_SIZE as nat)),
            ENCRYPTED_CHUNK_SIZE as nat,
        ),
{
    let k = CHUNK_SIZE as nat;
    let ek = ENCRYPTED_CHUNK_SIZE as nat;
    let chunks = split_chunks(plain, k);
    let run = sealed_chunks(cipher, 0, chunks);
    let n = chunks.len() as int;
    lemma_split_even(plain, k);
    lemma_concat_of_split(plain, k);
    assert forall|i: int| 0 <= i < run.len() - 1 implies (#[trigger] run[i]).len() == ek by {
        assert(chunks[i].len() == k);
    }
    if n > 0 {
        assert(run.last() == run[n - 1]);
        assert(chunks.last() == chunks[n - 1]);
        lemma_even_position(chunks, k, n - 1);
        lemma_even_position(run, ek, n - 1);
        assert((n - 1) * ek == (n - 1) * k + (n - 1) * 16) by (nonlinear_arith)
            requires
                ek == k + 16,
        ;
        assert(n * TAG_SIZE == (n - 1) * 16 + 16) by (nonlinear_arith);
    } else {
        assert(concat(run) =~= Seq::<u8>::empty());
        assert(concat(chunks) =~= Seq::<u8>::empty());
    }
}

/// Sealing and opening undo each other on a whole file: the sealed form,
/// regrouped at the sealed chunk size, is the run of sealed chunks again;
/// the cipher accepts every plaintext chunk; and the plaintext chunks spell
/// the plaintext. So a stream that opens the regrouped sealed form from
/// index 0 returns the plaintext chunk by chunk.
pub proof fn lemma_sealed_regroups(cipher: ChunkStreamCipher, plain: Seq<u8>, sealed: Seq<u8>)
    requires
        sealed_file(cipher, plain, sealed),
    ensures
        split_chunks(sealed, ENCRYPTED_CHUNK_SIZE as nat) == sealed_chunks(
            cipher,
            0,
            split_chunks(plain, CHUNK_SIZE as nat),
        ),
        all_fit(split_chunks(plain, CHUNK_SIZE as nat)),
        concat(split_chunks(plain, CHUNK_SIZE as nat)) == plain,
{
    let k = CHUNK_SIZE as nat;
    let chunks = split_chunks(plain, k);
    lemma_sealed_len(cipher, plain, sealed);
    lemma_split_of_even(sealed_chunks(cipher, 0, chunks), ENCRYPTED_CHUNK_SIZE as nat);
    lemma_concat_of_split(plain, k);
    assert forall|i: int| 0 <= i < chunks.len() implies aead_fits((#[trigger] chunks[i]).len()) by {
        lemma_chunk_bounds(plain.len(), k, i);
    }
}

/// Why a download gives the requested plaintext: in a response that holds
/// the bytes `[from, to)` of a file's sealed form and covers what the plan
/// needs, the needed bytes are the sealed chunks of the range; cut at the
/// sealed chunk size they are those chunks again; and the range lies in their
/// plaintext at the plan's trim window.
pub proof fn lemma_download(
    cipher: ChunkStreamCipher,
    plan: DownloadPlan,
    plain: Seq<u8>,
    sealed: Seq<u8>,
    from: u64,
    to: u64,
) -> (held: Seq<Seq<u8>>)
    requires
        plan.well_formed(),
        plain.len() == plan.size(),
        sealed_file(cipher, plain, sealed),
        from <= plan.enc_start(),
        plan.enc_end() <= to,
    ensures
        plan.needed(from, window(sealed, from as int, to as int)).len() == plan.enc_end()
            - plan.enc_start(),
        all_fit(held),
        held.len() <= plan.chunk_end() - plan.chunk_start(),
        split_chunks(
            plan.needed(from, window(sealed, from as int, to as int)),
            ENCRYPTED_CHUNK_SIZE as nat,
        ) == sealed_chunks(cipher, plan.chunk_start() as u32, held),
        window(concat(held), plan.trim_start(), plan.trim_end()) == plain.subrange(
            plan.start() as int,
            plan.end() as int,
        ),
{
    let k = CHUNK_SIZE as nat;
    let ek = ENCRYPTED_CHUNK_SIZE as nat;
    let chunks = split_chunks(plain, k);
    let run = sealed_chunks(cipher, 0, chunks);
    let n = chunks.len() as int;
    let a = plan.start() as int;
    let b = plan.end() as int;
    let size = plan.size() as int;
    let raw = window(sealed, from as int, to as int);
    let view = plan.needed(from, raw);
    lemma_sealed_len(cipher, plain, sealed);
    lemma_chunks_of(plain.len());
    lemma_concat_of_split(plain, k);
    plan.lemma_sealed_reach();
    if size == 0 {
        let held = Seq::<Seq<u8>>::empty();
        assert(chunks.len() == 0);
        assert(sealed =~= Seq::<u8>::empty());
        assert(view =~= Seq::<u8>::empty());
        assert(chunk_count(0, ek) == 0);
        assert(split_chunks(view, ek) =~= sealed_chunks(cipher, plan.chunk_start() as u32, held));
        assert(concat(held) =~= Seq::<u8>::empty());
        assert(window(concat(held), plan.trim_start(), plan.trim_end()) =~= plain.subrange(a, b));
        held
    } else {
        let cs = plan.chunk_start();
        let ce = plan.chunk_end();
        assert(cs == a / (k as int));
        assert(ce == (b - 1) / (k as int) + 1);
        assert(n == (size - 1) / (k as int) + 1);
        assert(0 <= cs < ce <= n && cs * k <= a && b <= ce * k) by (nonlinear_arith)
            requires
                cs == a / (k as int),
                ce == (b - 1) / (k as int) + 1,
                n == (size - 1) / (k as int) + 1,
                0 <= a < b <= size,
                k > 0,
        ;
        let held = chunks.subrange(cs, ce);
        let part = run.subrange(cs, ce);
        lemma_even_subrange(run, ek, cs, ce);
        lemma_even_subrange(chunks, k, cs, ce);
        assert(concat(part) == sealed.subrange(plan.enc_start(), plan.enc_end()));
        assert(view =~= sealed.subrange(plan.enc_start(), plan.enc_end()));
        assert(evenly_chunked(part, ek)) by {
            assert forall|i: int| 0 <= i < part.len() - 1 implies (#[trigger] part[i]).len()
                == ek by {
                assert(part[i] == run[cs + i]);
            }
            assert(part.last() == run[ce - 1]);
            if ce < n {
                assert(run[ce - 1].len() == ek);
            } else {
                assert(run[ce - 1] == run.last());
            }
        }
        lemma_split_of_even(part, ek);
        assert(part =~= sealed_chunks(cipher, cs as u32, held));
        assert(all_fit(held)) by {
            assert forall|i: int| 0 <= i < held.len() implies aead_fits(
                (#[trigger] held[i]).len(),
            ) by {
                assert(held[i] == chunks[cs + i]);
                lemma_chunk_bounds(plain.len(), k, cs + i);
                assert(held[i].len() <= k);
            }
        }
        assert(window(concat(held), plan.trim_start(), plan.trim_end()) =~= plain.subrange(a, b));
        held
    }
}

/// Seals an upload: regroups `size` bytes of `content` into chunks of 1 MiB
/// and seals each under its index, counted from zero. The sealed form is one
/// tag longer than the plaintext for every chunk begun, and opening it chunk
/// by chunk gives the plaintext chunks back.
pub fn encrypt_content(size: u64, content: Vec<Bytes>, cipher: ChunkStreamCipher) -> (r: Result<
    Vec<Bytes>,
    Error,
>)
    ensures
        r is Ok <==> size <= MAX_FILE_SIZE && concat(contents(content@)).len() >= size,
        r is Err ==> r->Err_0 == if size > MAX_FILE_SIZE {
            Error::SizeInvalid
        } else {
            Error::Io(StreamError::UnexpectedEof)
        },
        r is Ok ==> ({
            let plain = window(concat(contents(content@)), 0, size as int);
            &&& contents(r->Ok_0@) == sealed_chunks(
                cipher,
                0,
                split_chunks(plain, CHUNK_SIZE as nat),
            )
            &&& sealed_file(cipher, plain, concat(contents(r->Ok_0@)))
            &&& concat(contents(r->Ok_0@)).len() == encrypted_len(size as nat)
            &&& opened_chunks(cipher, 0, contents(r->Ok_0@)) == Some(
                split_chunks(plain, CHUNK_SIZE as nat),
            )
        }),
{
    if size > MAX_FILE_SIZE {
        return Err(Error::SizeInvalid);
    }
    let ghost plain = window(concat(contents(content@)), 0, size as int);
    let chunked = match chunk_stream(size, content, CHUNK_SIZE) {
        Ok(chunked) => chunked,
        Err(e) => {
            return Err(Error::Io(e));
        },
    };
    proof {
        lemma_chunks_of(size as nat);
        assert(plain.len() == size);
        assert(chunked@.len() == contents(chunked@).len());
        assert(chunked@.len() <= 0x1_0000_0000);
        assert forall|i: int| 0 <= i < contents(chunked@).len() implies aead_fits(
            (#[trigger] contents(chunked@)[i]).len(),
        ) by {
            lemma_chunk_bounds(plain.len(), CHUNK_SIZE as nat, i);
        }
    }
    match encrypt_stream(chunked, cipher, 0) {
        Ok(sealed) => {
            proof {
                lemma_sealed_len(cipher, plain, concat(contents(sealed@)));
            }
            Ok(sealed)
        },
        Err(e) => Err(Error::Io(e)),
    }
}

/// Opens a download: cuts the needed sealed bytes out of the response, which
/// starts at byte `response_range.start` of the sealed file, regroups them
/// into sealed chunks, opens each under its index, and cuts the plaintext
/// range out of the result. Where the response holds the bytes of a file's
/// sealed form, the result is the requested range of its plaintext.
pub fn decrypt_content(
    plan: &DownloadPlan,
    response_range: Range<u64>,
    stream: Vec<Bytes>,
    cipher: ChunkStreamCipher,
) -> (r: Result<Vec<Bytes>, Error>)
    requires
        response_range.start <= plan.enc_start(),
        plan.enc_end() <= response_range.end,
    ensures
        ({
            let needed = plan.needed(response_range.start, concat(contents(stream@)));
            let sealed = split_chunks(needed, ENCRYPTED_CHUNK_SIZE as nat);
            let first = plan.chunk_start() as u32;
            &&& r is Ok <==> needed.len() == plan.enc_end() - plan.enc_start() && all_open(
                cipher,
                first,
                sealed,
            )
            &&& r is Ok ==> concat(contents(r->Ok_0@)) == window(
                concat(opened_chunks(cipher, first, sealed)->Some_0),
                plan.trim_start(),
                plan.trim_end(),
            )
            &&& r is Err ==> r->Err_0 == if needed.len() < plan.enc_end() - plan.enc_start() {
                Error::Io(StreamError::UnexpectedEof)
            } else {
                Error::Io(StreamError::InvalidData)
            }
        }),
        forall|plain: Seq<u8>, sealed: Seq<u8>|
            plain.len() == plan.size() && #[trigger] sealed_file(cipher, plain, sealed) && concat(
                contents(stream@),
            ) == window(sealed, response_range.start as int, response_range.end as int) ==> r is Ok
                && concat(contents(r->Ok_0@)) == plain.subrange(
                plan.start() as int,
                plan.end() as int,
            ),
{
    let ghost raw = concat(contents(stream@));
    let ghost needed = plan.needed(response_range.start, raw);
    let ghost from = response_range.start;
    let ghost to = response_range.end;
    let served = plan.range();
    let chunks = plan.chunk_range();
    let wanted = plan.encrypted_range();
    let trim = plan.content_range();
    let held = plan.response_window(&response_range);
    let length = held.end - held.start;
    let view = slice_stream(stream, held);
    let chunked = match chunk_stream(length, view, ENCRYPTED_CHUNK_SIZE) {
        Ok(chunked) => chunked,
        Err(e) => {
            proof {
                assert forall|plain: Seq<u8>, sealed: Seq<u8>|
                    plain.len() == plan.size() && #[trigger] sealed_file(cipher, plain, sealed)
                        && raw == window(sealed, from as int, to as int) implies false by {
                    lemma_download(cipher, *plan, plain, sealed, from, to);
                }
            }
            return Err(Error::Io(e));
        },
    };
    proof {
        assert(window(needed, 0, length as int) =~= needed);
        assert(length <= (chunks.end - chunks.start) * ENCRYPTED_CHUNK_SIZE) by (nonlinear_arith)
            requires
                length == wanted.end - wanted.start,
                wanted.start == chunks.start * ENCRYPTED_CHUNK_SIZE,
                wanted.end <= chunks.end * ENCRYPTED_CHUNK_SIZE,
        ;
        lemma_count_bound(
            length as nat,
            ENCRYPTED_CHUNK_SIZE as nat,
            chunks.end - chunks.start,
        );
    }
    let first = chunks.start as u32;
    let opened = match decrypt_stream(chunked, cipher, first) {
        Ok(opened) => opened,
        Err(e) => {
            proof {
                assert forall|plain: Seq<u8>, sealed: Seq<u8>|
                    plain.len() == plan.size() && #[trigger] sealed_file(cipher, plain, sealed)
                        && raw == window(sealed, from as int, to as int) implies false by {
                    let held = lemma_download(cipher, *plan, plain, sealed, from, to);
                    assert(contents(chunked@) == sealed_chunks(cipher, first, held));
                }
            }
            return Err(Error::Io(e));
        },
    };
    let out = slice_stream(opened, trim);
    proof {
        assert forall|plain: Seq<u8>, sealed: Seq<u8>|
            plain.len() == plan.size() && #[trigger] sealed_file(cipher, plain, sealed) && raw
                == window(sealed, from as int, to as int) implies concat(contents(out@))
            == plain.subrange(plan.start() as int, plan.end() as int) by {
            let held = lemma_download(cipher, *plan, plain, sealed, from, to);
            assert(contents(chunked@) == sealed_chunks(cipher, first, held));
            assert(contents(opened@) == held);
        }
    }
    Ok(out)
}

/// The cipher for a stored secret, which must hold exactly a key and a
/// base nonce.
pub fn cipher_for(secret: &[u8]) -> (r: Result<ChunkStreamCipher, Error>)
    ensures
        r is Ok <==> secret@.len() == SECRET_SIZE,
        r is Ok ==> r->Ok_0.key() == secret@.subrange(0, 32),
        r is Ok ==> r->Ok_0.nonce() == secret@.subrange(32, 56),
        r is Err ==> r->Err_0 == Error::SecretInvalid,
{
    if secret.len() != SECRET_SIZE {
        return Err(Error::SecretInvalid);
    }
    let mut bytes = [0u8; SECRET_SIZE];
    let mut i: usize = 0;
    while i < SECRET_SIZE
        invariant
            i <= SECRET_SIZE,
            secret@.len() == SECRET_SIZE,
            forall|j: int| 0 <= j < i ==> bytes@[j] == secret@[j],
        decreases SECRET_SIZE - i,
    {
        bytes[i] = secret[i];
        i += 1;
    }
    assert(bytes@ =~= secret@);
    Ok(ChunkStreamCipher::new(&bytes))
}

/// How many files a drive holds.
#[derive(Clone, Copy, Debug, PartialEq, Eq, Structural)]
pub struct DriveLoad {
    /// The key of the drive's record.
    pub key: i32,
    /// The number of file records that name the drive.
    pub files: u64,
}

/// Whether drive `at` may take a new file and no drive that may holds
/// fewer files, nor an earlier one as few.
pub open spec fn is_least_loaded(loads: Seq<DriveLoad>, max_files: u32, at: int) -> bool {
    &&& 0 <= at < loads.len()
    &&& loads[at].files <= max_files
    &&& forall|j: int|
        0 <= j < loads.len() && loads[j].files <= max_files ==> loads[at].files <= loads[j].files
    &&& forall|j: int| 0 <= j < at && loads[j].files <= max_files ==> loads[at].files < loads[j].files
}

/// Whether no drive may take a new file.
pub open spec fn all_full(loads: Seq<DriveLoad>, max_files: u32) -> bool {
    forall|j: int| 0 <= j < loads.len() ==> loads[j].files > max_files
}

/// Selects the drive for a new file: the one with the fewest files among
/// those that hold no more than `max_files`, the earliest of them where
/// several hold as few. `None` where every drive holds more.
pub fn select_drive(loads: &Vec<DriveLoad>, max_files: u32) -> (r: Option<usize>)
    ensures
        match r {
            Some(at) => is_least_loaded(loads@, max_files, at as int),
            None => all_full(loads@, max_files),
        },
{
    let mut best: Option<usize> = None;
    let mut i: usize = 0;
    while i < loads.len()
        invariant
            i <= loads@.len(),
            match best {
                Some(at) => at < i && is_least_loaded(loads@.take(i as int), max_files, at as int),
                None => all_full(loads@.take(i as int), max_files),
            },
        decreases loads@.len() - i,
    {
        let load = loads[i];
        let ghost seen = loads@.take(i as int);
        let ghost grown = loads@.take(i as int + 1);
        proof {
            assert forall|j: int| 0 <= j < i implies grown[j] == seen[j] by {}
            assert(grown[i as int] == load);
        }
        if load.files <= max_files as u64 {
            match best {
                Some(at) => {
                    if load.files < loads[at].files {
                        best = Some(i);
                    }
                },
                None => {
                    best = Some(i);
                },
            }
        }
        proof {
            match best {
                Some(at) => {
                    assert(is_least_loaded(grown, max_files, at as int));
                },
                None => {
                    assert(all_full(grown, max_files));
                },
            }
        }
        i += 1;
    }
    proof {
        assert(loads@.take(loads@.len() as int) =~= loads@);
    }
    best
}

/// What the allocator does for a new file.
#[derive(Clone, Copy, Debug, PartialEq, Eq, Structural)]
pub enum Allocation {
    /// The file goes to the drive with this key.
    Existing(i32),
    /// No drive may take the file: a new drive is created for it.
    Create,
}

/// Decides where a new file goes: to the least loaded drive that holds no
/// more than `max_files`, or to a new drive where there is none. A drive
/// that holds more than `max_files` is never chosen.
pub fn allocate_file(loads: &Vec<DriveLoad>, max_files: u32) -> (r: Allocation)
    ensures
        match r {
            Allocation::Existing(key) => exists|at: int|
                is_least_loaded(loads@, max_files, at) && loads@[at].key == key,
            Allocation::Create => all_full(loads@, max_files),
        },
{
    match select_drive(loads, max_files) {
        Some(at) => Allocation::Existing(loads[at].key),
        None => Allocation::Create,
    }
}

/// Whether `name` has the form of a drive name: `castella-` and ten letters
/// or digits.
pub open spec fn is_drive_name(name: Seq<char>) -> bool {
    &&& name.len() == 19
    &&& name.subrange(0, 9) == "castella-"@
    &&& forall|i: int| 9 <= i < 19 ==> is_alphanumeric(#[trigger] name[i])
}

/// A fresh name for a new drive: `castella-` and a random token of ten
/// letters or digits.
pub fn rand_drive_name() -> (name: String)
    ensures
        is_drive_name(name@),
{
    let token = random_alphanumeric(10);
    let mut name = String::from_str("castella-");
    proof {
        reveal_strlit("castella-");
    }
    name.append(token.as_str());
    proof {
        assert(name@.subrange(0, 9) =~= "castella-"@);
        assert forall|i: int| 9 <= i < 19 implies is_alphanumeric(#[trigger] name@[i]) by {
            assert(name@[i] == token@[i - 9]);
        }
    }
    name
}

/// A fresh name for a new remote file: a random token of twenty letters or
/// digits.
pub fn rand_file_name() -> (name: String)
    ensures
        name@.len() == 20,
        forall|i: int| 0 <= i < 20 ==> is_alphanumeric(#[trigger] name@[i]),
{
    random_alphanumeric(20)
}

} // verus!
