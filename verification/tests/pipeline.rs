use bytes::Bytes;
use castella::cipher::ChunkStreamCipher;
use castella::header::{Bound, RangeCustom};
use castella::store::{
    cipher_for, decrypt_content, encrypt_content, encrypted_size, plan_download, resolve_range,
    Error, CHUNK_SIZE, ENCRYPTED_CHUNK_SIZE, MAX_FILE_SIZE,
};
use castella::stream::StreamError;

fn secret() -> [u8; 56] {
    let mut s = [0u8; 56];
    for (i, b) in s.iter_mut().enumerate() {
        *b = (i as u8).wrapping_mul(7).wrapping_add(3);
    }
    s
}

fn flat(chunks: &[Bytes]) -> Vec<u8> {
    let mut out = Vec::new();
    for c in chunks {
        out.extend_from_slice(c);
    }
    out
}

fn pattern(len: usize) -> Vec<u8> {
    (0..len).map(|i| ((i * 31 + i / 251) % 256) as u8).collect()
}

fn inclusive(a: u64, b: u64) -> Option<RangeCustom<u64>> {
    Some(RangeCustom { start: Bound::Included(a), end: Bound::Included(b) })
}

fn download(sealed: &[u8], size: u64, range: Option<RangeCustom<u64>>) -> Result<Vec<u8>, Error> {
    let cipher = ChunkStreamCipher::new(&secret());
    let plan = plan_download(size, range)?;
    let wanted = plan.encrypted_range();
    let body = sealed[wanted.start as usize..wanted.end as usize].to_vec();
    let out = decrypt_content(&plan, wanted, vec![Bytes::from(body)], cipher.clone())?;
    Ok(flat(&out))
}

#[test]
fn small_file_round_trip() {
    let plain: Vec<u8> = (0..=255u8).collect();
    let cipher = ChunkStreamCipher::new(&secret());
    let sealed = encrypt_content(256, vec![Bytes::from(plain.clone())], cipher.clone()).unwrap();
    assert_eq!(sealed.len(), 1);
    assert_eq!(sealed[0].len(), 272);
    let sealed = flat(&sealed);
    assert_ne!(&sealed[..256], &plain[..]);
    assert_eq!(download(&sealed, 256, None).unwrap(), plain);
    assert_eq!(download(&sealed, 256, inclusive(100, 199)).unwrap(), plain[100..200].to_vec());
}

#[test]
fn large_file_straddles_chunk_boundary() {
    let size = 2_621_440usize;
    let plain = pattern(size);
    let cipher = ChunkStreamCipher::new(&secret());
    let chunks: Vec<Bytes> = plain.chunks(70_001).map(Bytes::copy_from_slice).collect();
    let sealed = encrypt_content(size as u64, chunks, cipher.clone()).unwrap();
    assert_eq!(sealed.len(), 3);
    assert_eq!(sealed[0].len() as u64, ENCRYPTED_CHUNK_SIZE);
    assert_eq!(sealed[1].len() as u64, ENCRYPTED_CHUNK_SIZE);
    assert_eq!(sealed[2].len(), 524_288 + 16);
    let sealed = flat(&sealed);
    assert_eq!(sealed.len(), 2_621_488);
    assert_eq!(encrypted_size(size as u64), 2_621_488);
    let got = download(&sealed, size as u64, inclusive(1_048_575, 1_048_576)).unwrap();
    assert_eq!(got, plain[1_048_575..1_048_577].to_vec());
    assert_eq!(download(&sealed, size as u64, None).unwrap(), plain);
    let got = download(&sealed, size as u64, inclusive(2_097_151, 2_621_439)).unwrap();
    assert_eq!(got, plain[2_097_151..].to_vec());
}

#[test]
fn ranges_at_every_chunk_edge() {
    let size = 2 * CHUNK_SIZE as usize + 10;
    let plain = pattern(size);
    let cipher = ChunkStreamCipher::new(&secret());
    let sealed = flat(&encrypt_content(size as u64, vec![Bytes::from(plain.clone())], cipher.clone()).unwrap());
    for k in 1..=2u64 {
        let edge = k * CHUNK_SIZE;
        let got = download(&sealed, size as u64, inclusive(edge - 1, edge)).unwrap();
        assert_eq!(got, plain[(edge - 1) as usize..(edge + 1) as usize].to_vec());
        let got = download(&sealed, size as u64, inclusive(edge, edge)).unwrap();
        assert_eq!(got, plain[edge as usize..(edge + 1) as usize].to_vec());
        let got = download(&sealed, size as u64, inclusive(edge - 1, edge - 1)).unwrap();
        assert_eq!(got, plain[(edge - 1) as usize..edge as usize].to_vec());
    }
}

#[test]
fn wider_response_is_trimmed() {
    let size = 3 * CHUNK_SIZE as usize;
    let plain = pattern(size);
    let cipher = ChunkStreamCipher::new(&secret());
    let sealed = flat(&encrypt_content(size as u64, vec![Bytes::from(plain.clone())], cipher.clone()).unwrap());
    let plan = plan_download(size as u64, inclusive(CHUNK_SIZE + 5, CHUNK_SIZE + 14)).unwrap();
    let wanted = plan.encrypted_range();
    assert_eq!(wanted, ENCRYPTED_CHUNK_SIZE..2 * ENCRYPTED_CHUNK_SIZE);
    let response = 100..sealed.len() as u64;
    assert_eq!(
        plan.response_window(&response),
        ENCRYPTED_CHUNK_SIZE - 100..2 * ENCRYPTED_CHUNK_SIZE - 100
    );
    assert_eq!(plan.response_window(&wanted), 0..ENCRYPTED_CHUNK_SIZE);
    let body: Vec<Bytes> = sealed[100..].chunks(333_333).map(Bytes::copy_from_slice).collect();
    let out = decrypt_content(&plan, response, body, cipher.clone()).unwrap();
    let from = CHUNK_SIZE as usize + 5;
    assert_eq!(flat(&out), plain[from..from + 10].to_vec());
}

#[test]
fn tampered_chunk_fails_whole_download() {
    let size = 2 * CHUNK_SIZE as usize + 7;
    let plain = pattern(size);
    let cipher = ChunkStreamCipher::new(&secret());
    let sealed = flat(&encrypt_content(size as u64, vec![Bytes::from(plain)], cipher.clone()).unwrap());
    for at in [0usize, 5, ENCRYPTED_CHUNK_SIZE as usize - 1, ENCRYPTED_CHUNK_SIZE as usize + 9, sealed.len() - 1] {
        let mut bad = sealed.clone();
        bad[at] ^= 0x10;
        assert_eq!(download(&bad, size as u64, None), Err(Error::Io(StreamError::InvalidData)));
    }
}

#[test]
fn short_response_is_unexpected_eof() {
    let plain = pattern(1000);
    let cipher = ChunkStreamCipher::new(&secret());
    let sealed = flat(&encrypt_content(1000, vec![Bytes::from(plain)], cipher.clone()).unwrap());
    let plan = plan_download(1000, None).unwrap();
    let body = vec![Bytes::copy_from_slice(&sealed[..500])];
    let got = decrypt_content(&plan, plan.encrypted_range(), body, cipher.clone());
    assert_eq!(got.map(|c| flat(&c)), Err(Error::Io(StreamError::UnexpectedEof)));
}

#[test]
fn upload_shorter_than_declared_fails() {
    let cipher = ChunkStreamCipher::new(&secret());
    let got = encrypt_content(10, vec![Bytes::from(vec![1u8, 2, 3])], cipher.clone());
    assert_eq!(got.map(|c| flat(&c)), Err(Error::Io(StreamError::UnexpectedEof)));
}

#[test]
fn upload_reads_no_more_than_declared() {
    let cipher = ChunkStreamCipher::new(&secret());
    let sealed = flat(&encrypt_content(4, vec![Bytes::from(vec![9u8; 10])], cipher.clone()).unwrap());
    assert_eq!(sealed.len(), 20);
    assert_eq!(download(&sealed, 4, None).unwrap(), vec![9u8; 4]);
}

#[test]
fn empty_file() {
    let cipher = ChunkStreamCipher::new(&secret());
    let sealed = encrypt_content(0, vec![], cipher.clone()).unwrap();
    assert!(sealed.is_empty());
    assert_eq!(encrypted_size(0), 0);
    let plan = plan_download(0, None).unwrap();
    assert_eq!(plan.range(), 0..0);
    assert_eq!(plan.encrypted_range(), 0..0);
    assert_eq!(plan.content_range(), 0..0);
    assert_eq!(download(&[], 0, inclusive(0, 10)).unwrap(), Vec::<u8>::new());
}

#[test]
fn oversized_file_is_refused() {
    let cipher = ChunkStreamCipher::new(&secret());
    assert_eq!(plan_download(MAX_FILE_SIZE + 1, None).err(), Some(Error::SizeInvalid));
    assert!(plan_download(MAX_FILE_SIZE, None).is_ok());
    let got = encrypt_content(MAX_FILE_SIZE + 1, vec![], cipher.clone());
    assert_eq!(got.map(|c| flat(&c)), Err(Error::SizeInvalid));
}

#[test]
fn encrypted_size_formula() {
    assert_eq!(encrypted_size(1), 17);
    assert_eq!(encrypted_size(256), 272);
    assert_eq!(encrypted_size(CHUNK_SIZE), CHUNK_SIZE + 16);
    assert_eq!(encrypted_size(CHUNK_SIZE + 1), CHUNK_SIZE + 1 + 32);
    assert_eq!(encrypted_size(10 * CHUNK_SIZE), 10 * ENCRYPTED_CHUNK_SIZE);
    assert_eq!(encrypted_size(MAX_FILE_SIZE), MAX_FILE_SIZE + (1u64 << 32) * 16);
}

#[test]
fn plan_follows_the_range_arithmetic() {
    let size = 5 * CHUNK_SIZE + 100;
    let plan = plan_download(size, inclusive(CHUNK_SIZE - 1, 3 * CHUNK_SIZE)).unwrap();
    assert_eq!(plan.file_size(), size);
    assert_eq!(plan.range(), CHUNK_SIZE - 1..3 * CHUNK_SIZE + 1);
    assert_eq!(plan.chunk_range(), 0..4);
    assert_eq!(plan.encrypted_range(), 0..4 * ENCRYPTED_CHUNK_SIZE);
    assert_eq!(plan.content_range(), CHUNK_SIZE - 1..3 * CHUNK_SIZE + 1);

    let plan = plan_download(size, inclusive(5 * CHUNK_SIZE + 10, 5 * CHUNK_SIZE + 19)).unwrap();
    assert_eq!(plan.chunk_range(), 5..6);
    assert_eq!(plan.encrypted_range(), 5 * ENCRYPTED_CHUNK_SIZE..encrypted_size(size));
    assert_eq!(plan.content_range(), 10..20);

    let plan = plan_download(size, inclusive(size, size + 5)).unwrap();
    assert_eq!(plan.range(), 0..size);
    let plan = plan_download(size, None).unwrap();
    assert_eq!(plan.range(), 0..size);
    assert_eq!(plan.chunk_range(), 0..6);
    assert_eq!(plan.encrypted_range(), 0..encrypted_size(size));
}

#[test]
fn resolve_range_cases() {
    let r = |start, end| RangeCustom { start, end };
    assert_eq!(resolve_range(&r(Bound::Included(5), Bound::Included(10)), 100), Some(5..11));
    assert_eq!(resolve_range(&r(Bound::Unbounded, Bound::Included(10)), 100), Some(0..11));
    assert_eq!(resolve_range(&r(Bound::Included(5), Bound::Unbounded), 100), Some(5..100));
    assert_eq!(resolve_range(&r(Bound::Unbounded, Bound::Unbounded), 100), Some(0..100));
    assert_eq!(resolve_range(&r(Bound::Excluded(5), Bound::Excluded(10)), 100), Some(6..10));
    assert_eq!(resolve_range(&r(Bound::Included(5), Bound::Included(99)), 100), Some(5..100));
    assert_eq!(resolve_range(&r(Bound::Included(5), Bound::Included(100)), 100), None);
    assert_eq!(resolve_range(&r(Bound::Included(10), Bound::Included(5)), 100), None);
    assert_eq!(resolve_range(&r(Bound::Included(10), Bound::Excluded(10)), 100), None);
    assert_eq!(resolve_range(&r(Bound::Unbounded, Bound::Unbounded), 0), None);
    assert_eq!(resolve_range(&r(Bound::Excluded(u64::MAX), Bound::Unbounded), u64::MAX), None);
    assert_eq!(
        resolve_range(&r(Bound::Included(0), Bound::Included(u64::MAX)), u64::MAX),
        Some(0..u64::MAX)
    );
}

#[test]
fn cipher_for_checks_the_secret_length() {
    assert_eq!(cipher_for(&[0u8; 55]).err(), Some(Error::SecretInvalid));
    assert_eq!(cipher_for(&[0u8; 57]).err(), Some(Error::SecretInvalid));
    assert_eq!(cipher_for(&[]).err(), Some(Error::SecretInvalid));
    let s = secret();
    let a = cipher_for(&s).unwrap();
    let b = ChunkStreamCipher::new(&s);
    assert_eq!(a.encrypt(3, b"hello").unwrap(), b.encrypt(3, b"hello").unwrap());
}
