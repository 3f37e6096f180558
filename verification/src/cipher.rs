//! Per-chunk XChaCha20-Poly1305 encryption with a nonce derived from the
//! chunk index.

use chacha20poly1305::aead::{Aead, NewAead};
use chacha20poly1305::{Key, XChaCha20Poly1305, XNonce};
use crate::chunk::{
    bytes_as_slice, bytes_from_vec, concat, contents, lemma_concat_longer, lemma_contents_push,
};
use crate::stream::StreamError;
use bytes::Bytes;
use rand::RngCore;
use vstd::prelude::*;

verus! {

/// Length of the AEAD key in bytes.
pub const KEY_SIZE: usize = 32;

/// Length of the AEAD nonce in bytes.
pub const NONCE_SIZE: usize = 24;

/// Length of a file secret: the key followed by the base nonce.
pub const SECRET_SIZE: usize = 56;

/// Length of the authentication tag that closes every encrypted chunk.
pub const TAG_SIZE: usize = 16;

/// Number of leading nonce bytes that stay fixed for every chunk of a file.
pub const NONCE_PREFIX_SIZE: usize = 20;

/// The number that four bytes spell in big-endian order.
pub open spec fn be_value(b: Seq<u8>) -> int
    recommends
        b.len() == 4,
{
    b[0] as int * 0x100_0000 + b[1] as int * 0x1_0000 + b[2] as int * 0x100 + b[3] as int
}

/// The four bytes that spell `x` in big-endian order.
pub open spec fn be_bytes(x: int) -> Seq<u8>
    recommends
        0 <= x < 0x1_0000_0000,
{
    seq![
        (x / 0x100_0000) as u8,
        ((x / 0x1_0000) % 0x100) as u8,
        ((x / 0x100) % 0x100) as u8,
        (x % 0x100) as u8,
    ]
}

/// The counter that chunk `chunk_id` carries in the last four nonce bytes:
/// the base nonce's own counter plus the chunk index, wrapping at 2^32.
pub open spec fn chunk_counter(base: Seq<u8>, chunk_id: u32) -> int
    recommends
        base.len() == NONCE_SIZE,
{
    (be_value(base.subrange(20, 24)) + chunk_id as int) % 0x1_0000_0000
}

/// The nonce for chunk `chunk_id` of a file whose base nonce is `base`.
pub open spec fn chunk_nonce(base: Seq<u8>, chunk_id: u32) -> Seq<u8>
    recommends
        base.len() == NONCE_SIZE,
{
    base.subrange(0, 20) + be_bytes(chunk_counter(base, chunk_id))
}

/// Reading back what `be_bytes` wrote gives the number again.
pub proof fn lemma_be_round_trip(x: int)
    requires
        0 <= x < 0x1_0000_0000,
    ensures
        be_bytes(x).len() == 4,
        be_value(be_bytes(x)) == x,
{
    let b = be_bytes(x);
    assert(b[0] as int == x / 0x100_0000);
    assert(b[1] as int == (x / 0x1_0000) % 0x100);
    assert(b[2] as int == (x / 0x100) % 0x100);
    assert(b[3] as int == x % 0x100);
}

/// Distinct chunk indices of one file never share a nonce.
pub proof fn lemma_nonce_unique(base: Seq<u8>, i: u32, j: u32)
    requires
        base.len() == NONCE_SIZE,
        i != j,
    ensures
        chunk_nonce(base, i) != chunk_nonce(base, j),
{
    let ci = chunk_counter(base, i);
    let cj = chunk_counter(base, j);
    let s = be_value(base.subrange(20, 24));
    assert(0 <= s < 0x1_0000_0000);
    assert(ci != cj);
    lemma_be_round_trip(ci);
    lemma_be_round_trip(cj);
    if chunk_nonce(base, i) == chunk_nonce(base, j) {
        assert(chunk_nonce(base, i).subrange(20, 24) =~= be_bytes(ci));
        assert(chunk_nonce(base, j).subrange(20, 24) =~= be_bytes(cj));
        assert(be_value(be_bytes(ci)) == be_value(be_bytes(cj)));
    }
}

/// What XChaCha20-Poly1305 makes of a plaintext under a key and a nonce: the
/// encrypted bytes followed by the authentication tag.
pub uninterp spec fn aead_seal(key: Seq<u8>, nonce: Seq<u8>, plain: Seq<u8>) -> Seq<u8>;

/// What XChaCha20-Poly1305 recovers from sealed bytes under a key and a nonce,
/// or `None` where the tag does not authenticate them.
pub uninterp spec fn aead_open(key: Seq<u8>, nonce: Seq<u8>, sealed: Seq<u8>) -> Option<Seq<u8>>;

/// Whether the cipher accepts a message of `len` bytes: its keystream counter
/// covers fewer than 2^32 - 1 blocks of 64 bytes.
pub open spec fn aead_fits(len: nat) -> bool {
    len / 64 < 0xFFFF_FFFF
}

/// A chunk could not be sealed, or did not authenticate.
#[derive(Debug)]
pub struct CipherError;

/// `XChaCha20Poly1305::encrypt` under a fresh cipher for `key`. The call fails
/// only on a message too long for the keystream counter; otherwise the result
/// is the sealed message, 16 bytes longer than the plaintext, and opening it
/// under the same key and nonce gives the plaintext back.
#[verifier::external_body]
fn xchacha_seal(key: &[u8; KEY_SIZE], nonce: &[u8; NONCE_SIZE], plain: &[u8]) -> (r: Result<
    Vec<u8>,
    CipherError,
>)
    ensures
        r is Ok <==> aead_fits(plain@.len()),
        r is Ok ==> r->Ok_0@ == aead_seal(key@, nonce@, plain@),
        r is Ok ==> r->Ok_0@.len() == plain@.len() + TAG_SIZE,
        r is Ok ==> aead_open(key@, nonce@, r->Ok_0@) == Some(plain@),
{
    XChaCha20Poly1305::new(Key::from_slice(key))
        .encrypt(XNonce::from_slice(nonce), plain)
        .map_err(|_| CipherError)
}

/// `XChaCha20Poly1305::decrypt` under a fresh cipher for `key`. The call
/// succeeds exactly where the sealed bytes authenticate, and then returns the
/// plaintext, 16 bytes shorter; input shorter than a tag never authenticates;
/// whatever was sealed under the same key and nonce opens to what it was.
#[verifier::external_body]
fn xchacha_open(key: &[u8; KEY_SIZE], nonce: &[u8; NONCE_SIZE], sealed: &[u8]) -> (r: Result<
    Vec<u8>,
    CipherError,
>)
    ensures
        r is Ok <==> aead_open(key@, nonce@, sealed@) is Some,
        r is Ok ==> r->Ok_0@ == aead_open(key@, nonce@, sealed@)->Some_0,
        r is Ok ==> r->Ok_0@.len() + TAG_SIZE == sealed@.len(),
        forall|plain: Seq<u8>|
            aead_fits(plain.len()) && sealed@ == #[trigger] aead_seal(key@, nonce@, plain) ==> r is Ok
                && r->Ok_0@ == plain,
{
    XChaCha20Poly1305::new(Key::from_slice(key))
        .decrypt(XNonce::from_slice(nonce), sealed)
        .map_err(|_| CipherError)
}

/// `RngCore::fill_bytes` on the thread's generator: 56 bytes of which nothing
/// is known in advance.
#[verifier::external_body]
fn random_secret() -> (secret: [u8; SECRET_SIZE]) {
    let mut buffer = [0u8; SECRET_SIZE];
    rand::thread_rng().fill_bytes(&mut buffer);
    buffer
}

/// The cipher of one file: its key and the base nonce from which every
/// chunk's nonce is derived.
#[derive(Clone)]
pub struct ChunkStreamCipher {
    key: [u8; KEY_SIZE],
    nonce: [u8; NONCE_SIZE],
}

impl ChunkStreamCipher {
    /// The 32 key bytes.
    pub closed spec fn key(&self) -> Seq<u8> {
        self.key@
    }

    /// The 24 bytes of the base nonce.
    pub closed spec fn nonce(&self) -> Seq<u8> {
        self.nonce@
    }

    /// What sealing `chunk` as chunk number `chunk_id` gives.
    pub open spec fn sealed(&self, chunk_id: u32, chunk: Seq<u8>) -> Seq<u8> {
        aead_seal(self.key(), chunk_nonce(self.nonce(), chunk_id), chunk)
    }

    /// What opening `chunk` as chunk number `chunk_id` gives, if it authenticates.
    pub open spec fn opened(&self, chunk_id: u32, chunk: Seq<u8>) -> Option<Seq<u8>> {
        aead_open(self.key(), chunk_nonce(self.nonce(), chunk_id), chunk)
    }

    /// Key and base nonce always have their fixed lengths.
    pub proof fn lemma_lengths(&self)
        ensures
            self.key().len() == KEY_SIZE,
            self.nonce().len() == NONCE_SIZE,
    {
    }

    /// A fresh secret: key and base nonce drawn from the thread's
    /// cryptographic generator.
    pub fn gen_secret() -> (secret: Box<[u8; SECRET_SIZE]>) {
        Box::new(random_secret())
    }

    /// The cipher for a secret: the first 32 bytes are the key, the last 24
    /// the base nonce.
    pub fn new(secret: &[u8; SECRET_SIZE]) -> (cipher: Self)
        ensures
            cipher.key() == secret@.subrange(0, KEY_SIZE as int),
            cipher.nonce() == secret@.subrange(KEY_SIZE as int, SECRET_SIZE as int),
    {
        let mut key = [0u8; KEY_SIZE];
        let mut nonce = [0u8; NONCE_SIZE];
        let mut i: usize = 0;
        while i < KEY_SIZE
            invariant
                i <= KEY_SIZE,
                forall|j: int| 0 <= j < i ==> key@[j] == secret@[j],
            decreases KEY_SIZE - i,
        {
            key[i] = secret[i];
            i += 1;
        }
        let mut i: usize = 0;
        while i < NONCE_SIZE
            invariant
                i <= NONCE_SIZE,
                forall|j: int| 0 <= j < i ==> nonce@[j] == secret@[KEY_SIZE + j],
            decreases NONCE_SIZE - i,
        {
            nonce[i] = secret[KEY_SIZE + i];
            i += 1;
        }
        assert(key@ =~= secret@.subrange(0, KEY_SIZE as int));
        assert(nonce@ =~= secret@.subrange(KEY_SIZE as int, SECRET_SIZE as int));
        ChunkStreamCipher { key, nonce }
    }

    /// The nonce of chunk `chunk_id`: the base nonce with the chunk index
    /// added, wrapping, to the big-endian counter in its last four bytes.
    pub fn get_chunk_nonce(&self, chunk_id: u32) -> (nonce: [u8; NONCE_SIZE])
        ensures
            nonce@ == chunk_nonce(self.nonce(), chunk_id),
    {
        let mut buffer = [0u8; NONCE_SIZE];
        let mut i: usize = 0;
        while i < NONCE_PREFIX_SIZE
            invariant
                i <= NONCE_PREFIX_SIZE,
                forall|j: int| 0 <= j < i ==> buffer@[j] == self.nonce@[j],
            decreases NONCE_PREFIX_SIZE - i,
        {
            buffer[i] = self.nonce[i];
            i += 1;
        }
        let base: u32 = (self.nonce[20] as u32) * 0x100_0000 + (self.nonce[21] as u32) * 0x1_0000
            + (self.nonce[22] as u32) * 0x100 + (self.nonce[23] as u32);
        let counter: u32 = base.wrapping_add(chunk_id);
        buffer[20] = (counter / 0x100_0000) as u8;
        buffer[21] = ((counter / 0x1_0000) % 0x100) as u8;
        buffer[22] = ((counter / 0x100) % 0x100) as u8;
        buffer[23] = (counter % 0x100) as u8;
        proof {
            let tail = self.nonce@.subrange(20, 24);
            assert(base == be_value(tail));
            assert(counter as int == chunk_counter(self.nonce@, chunk_id));
            assert(buffer@ =~= chunk_nonce(self.nonce@, chunk_id));
        }
        buffer
    }

    /// Seals one chunk under the nonce of its index. Fails only on a chunk
    /// too long for the cipher.
    pub fn encrypt(&self, chunk_id: u32, chunk: &[u8]) -> (r: Result<Vec<u8>, CipherError>)
        ensures
            r is Ok <==> aead_fits(chunk@.len()),
            r is Ok ==> r->Ok_0@ == self.sealed(chunk_id, chunk@),
            r is Ok ==> r->Ok_0@.len() == chunk@.len() + TAG_SIZE,
            r is Ok ==> self.opened(chunk_id, r->Ok_0@) == Some(chunk@),
    {
        let nonce = self.get_chunk_nonce(chunk_id);
        xchacha_seal(&self.key, &nonce, chunk)
    }

    /// Opens one chunk under the nonce of its index. Fails exactly where the
    /// chunk does not authenticate; a chunk sealed by `encrypt` under the
    /// same index opens to its plaintext.
    pub fn decrypt(&self, chunk_id: u32, chunk: &[u8]) -> (r: Result<Vec<u8>, CipherError>)
        ensures
            r is Ok <==> self.opened(chunk_id, chunk@) is Some,
            r is Ok ==> r->Ok_0@ == self.opened(chunk_id, chunk@)->Some_0,
            r is Ok ==> r->Ok_0@.len() + TAG_SIZE == chunk@.len(),
            forall|plain: Seq<u8>|
                aead_fits(plain.len()) && chunk@ == #[trigger] self.sealed(chunk_id, plain) ==> r is Ok
                    && r->Ok_0@ == plain,
    {
        let nonce = self.get_chunk_nonce(chunk_id);
        xchacha_open(&self.key, &nonce, chunk)
    }
}

/// Whether the cipher accepts every chunk of a run.
pub open spec fn all_fit(chunks: Seq<Seq<u8>>) -> bool {
    forall|i: int| 0 <= i < chunks.len() ==> aead_fits((#[trigger] chunks[i]).len())
}

/// A run of chunks sealed one by one, the first as chunk number `first`.
pub open spec fn sealed_chunks(cipher: ChunkStreamCipher, first: u32, chunks: Seq<Seq<u8>>) -> Seq<
    Seq<u8>,
> {
    Seq::new(chunks.len(), |i: int| cipher.sealed((first + i) as u32, chunks[i]))
}

/// Whether every chunk of a run authenticates, the first as chunk number
/// `first`.
pub open spec fn all_open(cipher: ChunkStreamCipher, first: u32, chunks: Seq<Seq<u8>>) -> bool {
    forall|i: int|
        0 <= i < chunks.len() ==> (#[trigger] cipher.opened((first + i) as u32, chunks[i])) is Some
}

/// A run of chunks opened one by one, the first as chunk number `first`;
/// `None` where any chunk does not authenticate.
pub open spec fn opened_chunks(cipher: ChunkStreamCipher, first: u32, chunks: Seq<Seq<u8>>) -> Option<
    Seq<Seq<u8>>,
> {
    if all_open(cipher, first, chunks) {
        Some(Seq::new(chunks.len(), |i: int| cipher.opened((first + i) as u32, chunks[i])->Some_0))
    } else {
        None
    }
}

/// The chunk index that follows `id`, as long as there is one.
pub open spec fn following(id: u32) -> Option<u32> {
    if id < u32::MAX {
        Some((id + 1) as u32)
    } else {
        None
    }
}

/// The cipher of a stream in progress: the cipher of the file and the index
/// of the chunk that comes next. After chunk 2^32 - 1 no chunk can follow.
pub struct CipherStream {
    cipher: ChunkStreamCipher,
    next: Option<u32>,
}

impl CipherStream {
    /// The cipher of the file.
    pub closed spec fn cipher(self) -> ChunkStreamCipher {
        self.cipher
    }

    /// The index of the chunk that comes next, if one can.
    pub closed spec fn next_id(self) -> Option<u32> {
        self.next
    }

    /// A stream whose first chunk has the index `chunk_id`.
    pub fn new(cipher: ChunkStreamCipher, chunk_id: u32) -> (stream: Self)
        ensures
            stream.cipher() == cipher,
            stream.next_id() == Some(chunk_id),
    {
        CipherStream { cipher, next: Some(chunk_id) }
    }

    /// Seals the next chunk of the stream under its index and counts the
    /// index up. Fails on a chunk too long for the cipher, or where no chunk
    /// can follow; a failure leaves the index where it is.
    pub fn encrypt_next(&mut self, chunk: &[u8]) -> (r: Result<Vec<u8>, StreamError>)
        ensures
            final(self).cipher() == old(self).cipher(),
            r is Ok <==> old(self).next_id() is Some && aead_fits(chunk@.len()),
            r is Ok ==> ({
                let id = old(self).next_id()->Some_0;
                &&& r->Ok_0@ == old(self).cipher().sealed(id, chunk@)
                &&& r->Ok_0@.len() == chunk@.len() + TAG_SIZE
                &&& old(self).cipher().opened(id, r->Ok_0@) == Some(chunk@)
                &&& final(self).next_id() == following(id)
            }),
            r is Err ==> r->Err_0 == StreamError::InvalidData && final(self).next_id() == old(
                self,
            ).next_id(),
    {
        let id = match self.next {
            Some(id) => id,
            None => {
                return Err(StreamError::InvalidData);
            },
        };
        match self.cipher.encrypt(id, chunk) {
            Ok(sealed) => {
                self.next = if id < u32::MAX { Some(id + 1) } else { None };
                Ok(sealed)
            },
            Err(_) => Err(StreamError::InvalidData),
        }
    }

    /// Opens the next chunk of the stream under its index and counts the
    /// index up. Fails on a chunk that does not authenticate, or where no
    /// chunk can follow; a failure leaves the index where it is. A chunk
    /// that was sealed under the same cipher and index opens to what was
    /// sealed.
    pub fn decrypt_next(&mut self, chunk: &[u8]) -> (r: Result<Vec<u8>, StreamError>)
        ensures
            final(self).cipher() == old(self).cipher(),
            r is Ok <==> old(self).next_id() is Some && old(self).cipher().opened(
                old(self).next_id()->Some_0,
                chunk@,
            ) is Some,
            r is Ok ==> ({
                let id = old(self).next_id()->Some_0;
                &&& Some(r->Ok_0@) == old(self).cipher().opened(id, chunk@)
                &&& r->Ok_0@.len() + TAG_SIZE == chunk@.len()
                &&& final(self).next_id() == following(id)
            }),
            r is Err ==> r->Err_0 == StreamError::InvalidData && final(self).next_id() == old(
                self,
            ).next_id(),
            forall|plain: Seq<u8>|
                old(self).next_id() is Some && aead_fits(plain.len()) && chunk@
                    == #[trigger] old(self).cipher().sealed(old(self).next_id()->Some_0, plain)
                    ==> r is Ok && r->Ok_0@ == plain,
    {
        let id = match self.next {
            Some(id) => id,
            None => {
                return Err(StreamError::InvalidData);
            },
        };
        match self.cipher.decrypt(id, chunk) {
            Ok(opened) => {
                self.next = if id < u32::MAX { Some(id + 1) } else { None };
                Ok(opened)
            },
            Err(_) => Err(StreamError::InvalidData),
        }
    }
}

/// The index that is next after `done` chunks of a stream that began with
/// the index `first`.
pub open spec fn id_after(first: u32, done: int) -> Option<u32> {
    if first + done <= u32::MAX {
        Some((first + done) as u32)
    } else {
        None
    }
}

/// Seals a stream chunk by chunk, counting the chunk index up from
/// `chunk_id`. Every sealed chunk is 16 bytes longer than its plaintext, so
/// the whole is longer by 16 bytes for every chunk; opening the output under
/// the same cipher and first index gives the input back.
pub fn encrypt_stream(stream: Vec<Bytes>, cipher: ChunkStreamCipher, chunk_id: u32) -> (r: Result<
    Vec<Bytes>,
    StreamError,
>)
    requires
        chunk_id + stream@.len() <= 0x1_0000_0000,
    ensures
        r is Ok <==> all_fit(contents(stream@)),
        r is Ok ==> contents(r->Ok_0@) == sealed_chunks(cipher, chunk_id, contents(stream@)),
        r is Ok ==> opened_chunks(cipher, chunk_id, contents(r->Ok_0@)) == Some(contents(stream@)),
        r is Ok ==> r->Ok_0@.len() == stream@.len() && forall|i: int|
            0 <= i < stream@.len() ==> (#[trigger] contents(r->Ok_0@)[i]).len() == contents(
                stream@,
            )[i].len() + TAG_SIZE,
        r is Ok ==> concat(contents(r->Ok_0@)).len() == concat(contents(stream@)).len()
            + stream@.len() * TAG_SIZE,
        r is Err ==> r->Err_0 == StreamError::InvalidData,
{
    let ghost source = contents(stream@);
    let mut state = CipherStream::new(cipher, chunk_id);
    let mut out: Vec<Bytes> = Vec::new();
    let mut i: usize = 0;
    while i < stream.len()
        invariant
            i <= stream@.len(),
            chunk_id + stream@.len() <= 0x1_0000_0000,
            source == contents(stream@),
            state.cipher() == cipher,
            state.next_id() == id_after(chunk_id, i as int),
            out@.len() == i,
            forall|j: int| 0 <= j < i ==> aead_fits((#[trigger] source[j]).len()),
            forall|j: int|
                0 <= j < i ==> (#[trigger] contents(out@)[j]) == cipher.sealed(
                    (chunk_id + j) as u32,
                    source[j],
                ),
            forall|j: int|
                0 <= j < i ==> (#[trigger] cipher.opened((chunk_id + j) as u32, contents(out@)[j]))
                    == Some(source[j]),
            forall|j: int| 0 <= j < i ==> (#[trigger] contents(out@)[j]).len() == source[j].len() + TAG_SIZE,
        decreases stream@.len() - i,
    {
        let ghost sealed_before = out@;
        match state.encrypt_next(bytes_as_slice(&stream[i])) {
            Ok(sealed) => {
                let chunk = bytes_from_vec(sealed);
                proof {
                    lemma_contents_push(sealed_before, chunk);
                }
                out.push(chunk);
                proof {
                    assert forall|j: int| 0 <= j < i + 1 implies (#[trigger] contents(out@)[j])
                        == cipher.sealed((chunk_id + j) as u32, source[j]) by {
                        if j < i {
                            assert(contents(out@)[j] == contents(sealed_before)[j]);
                        }
                    }
                    assert forall|j: int| 0 <= j < i + 1 implies (#[trigger] cipher.opened(
                        (chunk_id + j) as u32,
                        contents(out@)[j],
                    )) == Some(source[j]) by {
                        if j < i {
                            assert(contents(out@)[j] == contents(sealed_before)[j]);
                        }
                    }
                    assert forall|j: int| 0 <= j < i + 1 implies (#[trigger] contents(out@)[j]).len()
                        == source[j].len() + TAG_SIZE by {
                        if j < i {
                            assert(contents(out@)[j] == contents(sealed_before)[j]);
                        }
                    }
                }
            },
            Err(e) => {
                proof {
                    assert(!aead_fits(source[i as int].len()));
                }
                return Err(e);
            },
        }
        i += 1;
    }
    proof {
        assert(contents(out@) =~= sealed_chunks(cipher, chunk_id, source));
        lemma_concat_longer(source, contents(out@), TAG_SIZE as nat);
        assert(all_open(cipher, chunk_id, contents(out@)));
        assert(opened_chunks(cipher, chunk_id, contents(out@))->Some_0 =~= source);
    }
    Ok(out)
}

/// Opens a stream chunk by chunk, counting the chunk index up from
/// `chunk_id`. One chunk that does not authenticate fails the whole stream,
/// and then no plaintext is returned. A stream that was sealed under the same
/// cipher and first index opens to what was sealed.
pub fn decrypt_stream(stream: Vec<Bytes>, cipher: ChunkStreamCipher, chunk_id: u32) -> (r: Result<
    Vec<Bytes>,
    StreamError,
>)
    requires
        chunk_id + stream@.len() <= 0x1_0000_0000,
    ensures
        r is Ok <==> all_open(cipher, chunk_id, contents(stream@)),
        r is Ok ==> Some(contents(r->Ok_0@)) == opened_chunks(cipher, chunk_id, contents(stream@)),
        r is Err ==> r->Err_0 == StreamError::InvalidData,
        forall|plain: Seq<Seq<u8>>|
            all_fit(plain) && contents(stream@) == #[trigger] sealed_chunks(cipher, chunk_id, plain)
                ==> r is Ok && contents(r->Ok_0@) == plain,
{
    let ghost source = contents(stream@);
    let mut state = CipherStream::new(cipher, chunk_id);
    let mut out: Vec<Bytes> = Vec::new();
    let mut i: usize = 0;
    while i < stream.len()
        invariant
            i <= stream@.len(),
            chunk_id + stream@.len() <= 0x1_0000_0000,
            source == contents(stream@),
            state.cipher() == cipher,
            state.next_id() == id_after(chunk_id, i as int),
            out@.len() == i,
            forall|j: int|
                0 <= j < i ==> (#[trigger] cipher.opened((chunk_id + j) as u32, source[j])) == Some(
                    contents(out@)[j],
                ),
            forall|plain: Seq<Seq<u8>>|
                all_fit(plain) && source == #[trigger] sealed_chunks(cipher, chunk_id, plain)
                    ==> contents(out@) == plain.take(i as int),
        decreases stream@.len() - i,
    {
        let ghost id = (chunk_id + i) as u32;
        let ghost opened_before = out@;
        match state.decrypt_next(bytes_as_slice(&stream[i])) {
            Ok(opened) => {
                let chunk = bytes_from_vec(opened);
                proof {
                    lemma_contents_push(opened_before, chunk);
                }
                out.push(chunk);
                proof {
                    assert forall|j: int| 0 <= j < i + 1 implies (#[trigger] cipher.opened(
                        (chunk_id + j) as u32,
                        source[j],
                    )) == Some(contents(out@)[j]) by {
                        if j < i {
                            assert(contents(out@)[j] == contents(opened_before)[j]);
                        }
                    }
                    assert forall|plain: Seq<Seq<u8>>|
                        all_fit(plain) && source == #[trigger] sealed_chunks(
                            cipher,
                            chunk_id,
                            plain,
                        ) implies contents(out@) == plain.take(i as int + 1) by {
                        assert(aead_fits(plain[i as int].len()));
                        assert(source[i as int] == cipher.sealed(id, plain[i as int]));
                        assert(contents(opened_before) == plain.take(i as int));
                        assert(contents(out@) =~= plain.take(i as int + 1));
                    }
                }
            },
            Err(e) => {
                proof {
                    assert(cipher.opened(id, source[i as int]) is None);
                    assert forall|plain: Seq<Seq<u8>>|
                        all_fit(plain) && source == #[trigger] sealed_chunks(
                            cipher,
                            chunk_id,
                            plain,
                        ) implies false by {
                        assert(aead_fits(plain[i as int].len()));
                        assert(source[i as int] == cipher.sealed(id, plain[i as int]));
                    }
                }
                return Err(e);
            },
        }
        i += 1;
    }
    proof {
        assert(all_open(cipher, chunk_id, source));
        assert(opened_chunks(cipher, chunk_id, source)->Some_0 =~= contents(out@));
        assert forall|plain: Seq<Seq<u8>>|
            all_fit(plain) && source == #[trigger] sealed_chunks(
                cipher,
                chunk_id,
                plain,
            ) implies contents(out@) == plain by {
            assert(plain.take(i as int) =~= plain);
        }
    }
    Ok(out)
}

} // verus!
