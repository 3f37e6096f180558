use bytes::Bytes;
use castella::cipher::{
    decrypt_stream, encrypt_stream, ChunkStreamCipher, CipherStream, KEY_SIZE, NONCE_SIZE,
    SECRET_SIZE, TAG_SIZE,
};
use castella::stream::StreamError;

fn secret_with_counter(counter: [u8; 4]) -> [u8; 56] {
    let mut s = [0u8; 56];
    for (i, b) in s.iter_mut().enumerate() {
        *b = i as u8;
    }
    s[52..].copy_from_slice(&counter);
    s
}

#[test]
fn sizes() {
    assert_eq!(KEY_SIZE, 32);
    assert_eq!(NONCE_SIZE, 24);
    assert_eq!(SECRET_SIZE, 56);
    assert_eq!(TAG_SIZE, 16);
}

#[test]
fn nonce_adds_the_chunk_index_to_the_last_four_bytes() {
    let cipher = ChunkStreamCipher::new(&secret_with_counter([0, 0, 1, 0xFE]));
    let base: Vec<u8> = (32..52).collect();
    let n = cipher.get_chunk_nonce(0);
    assert_eq!(&n[..20], &base[..]);
    assert_eq!(&n[20..], &[0, 0, 1, 0xFE]);
    assert_eq!(&cipher.get_chunk_nonce(1)[20..], &[0, 0, 1, 0xFF]);
    assert_eq!(&cipher.get_chunk_nonce(2)[20..], &[0, 0, 2, 0x00]);
    assert_eq!(&cipher.get_chunk_nonce(0x0102_0304)[20..], &[1, 2, 5, 0x02]);
    assert_eq!(&cipher.get_chunk_nonce(u32::MAX)[..20], &base[..]);
}

#[test]
fn nonce_counter_wraps() {
    let cipher = ChunkStreamCipher::new(&secret_with_counter([0xFF, 0xFF, 0xFF, 0xFF]));
    assert_eq!(&cipher.get_chunk_nonce(0)[20..], &[0xFF, 0xFF, 0xFF, 0xFF]);
    assert_eq!(&cipher.get_chunk_nonce(1)[20..], &[0, 0, 0, 0]);
    assert_eq!(&cipher.get_chunk_nonce(u32::MAX)[20..], &[0xFF, 0xFF, 0xFF, 0xFE]);
}

#[test]
fn nonces_of_distinct_chunks_differ() {
    let cipher = ChunkStreamCipher::new(&secret_with_counter([0xFF, 0xFF, 0xFF, 0xF0]));
    let ids = [0u32, 1, 2, 15, 16, 17, 255, 256, 65_535, 65_536, 1 << 24, u32::MAX - 1, u32::MAX];
    for (i, a) in ids.iter().enumerate() {
        for b in &ids[i + 1..] {
            assert_ne!(cipher.get_chunk_nonce(*a), cipher.get_chunk_nonce(*b));
        }
    }
}

#[test]
fn secrets_are_fresh() {
    let a = ChunkStreamCipher::gen_secret();
    let b = ChunkStreamCipher::gen_secret();
    assert_eq!(a.len(), 56);
    assert_ne!(a, b);
    assert_ne!(*a, [0u8; 56]);
}

#[test]
fn chunk_round_trip() {
    let cipher = ChunkStreamCipher::new(&secret_with_counter([0, 0, 0, 0]));
    for plain in [&b""[..], b"a", b"hello world", &[7u8; 4096]] {
        let sealed = cipher.encrypt(5, plain).unwrap();
        assert_eq!(sealed.len(), plain.len() + 16);
        if !plain.is_empty() {
            assert_ne!(&sealed[..plain.len()], plain);
        }
        assert_eq!(cipher.decrypt(5, &sealed).unwrap(), plain);
        assert!(cipher.decrypt(6, &sealed).is_err());
    }
}

#[test]
fn chunk_index_and_key_change_the_sealed_bytes() {
    let a = ChunkStreamCipher::new(&secret_with_counter([0, 0, 0, 0]));
    let mut other = secret_with_counter([0, 0, 0, 0]);
    other[0] ^= 1;
    let b = ChunkStreamCipher::new(&other);
    assert_ne!(a.encrypt(0, b"same").unwrap(), a.encrypt(1, b"same").unwrap());
    assert_ne!(a.encrypt(0, b"same").unwrap(), b.encrypt(0, b"same").unwrap());
    assert_eq!(a.encrypt(0, b"same").unwrap(), a.encrypt(0, b"same").unwrap());
    assert!(b.decrypt(0, &a.encrypt(0, b"same").unwrap()).is_err());
}

#[test]
fn known_answer() {
    let mut secret = [0u8; 56];
    for (i, b) in secret.iter_mut().enumerate().take(32) {
        *b = 0x80 + i as u8;
    }
    for (i, b) in secret.iter_mut().enumerate().skip(32) {
        *b = 0x40 + (i - 32) as u8;
    }
    let cipher = ChunkStreamCipher::new(&secret);
    assert_eq!(cipher.get_chunk_nonce(0).to_vec(), (0x40..0x58).collect::<Vec<u8>>());
    let sealed = cipher.encrypt(0, b"").unwrap();
    assert_eq!(sealed.len(), 16);
    assert_eq!(cipher.decrypt(0, &sealed).unwrap(), b"");
}

#[test]
fn short_or_tampered_chunks_do_not_open() {
    let cipher = ChunkStreamCipher::new(&secret_with_counter([0, 0, 0, 0]));
    assert!(cipher.decrypt(0, b"").is_err());
    assert!(cipher.decrypt(0, &[0u8; 15]).is_err());
    let sealed = cipher.encrypt(0, b"payload").unwrap();
    for at in 0..sealed.len() {
        for bit in 0..8 {
            let mut bad = sealed.clone();
            bad[at] ^= 1 << bit;
            assert!(cipher.decrypt(0, &bad).is_err());
        }
    }
    assert!(cipher.decrypt(0, &sealed[..sealed.len() - 1]).is_err());
}

#[test]
fn stream_counts_the_chunk_index_up() {
    let cipher = ChunkStreamCipher::new(&secret_with_counter([0xFF, 0xFF, 0xFF, 0xFE]));
    let plain = vec![Bytes::from_static(b"one"), Bytes::from_static(b""), Bytes::from_static(b"three")];
    let sealed = encrypt_stream(plain.clone(), cipher.clone(), 7).unwrap();
    assert_eq!(sealed.len(), 3);
    for (i, chunk) in sealed.iter().enumerate() {
        assert_eq!(chunk.to_vec(), cipher.encrypt(7 + i as u32, &plain[i]).unwrap());
    }
    assert_eq!(decrypt_stream(sealed.clone(), cipher.clone(), 7).unwrap(), plain);
    assert_eq!(decrypt_stream(sealed.clone(), cipher.clone(), 8).err(), Some(StreamError::InvalidData));
    let swapped = vec![sealed[1].clone(), sealed[0].clone(), sealed[2].clone()];
    assert_eq!(decrypt_stream(swapped, cipher.clone(), 7).err(), Some(StreamError::InvalidData));
    assert_eq!(decrypt_stream(sealed[1..].to_vec(), cipher.clone(), 8).unwrap(), plain[1..].to_vec());
    assert!(encrypt_stream(vec![], cipher.clone(), u32::MAX).unwrap().is_empty());
    let last = encrypt_stream(vec![Bytes::from_static(b"x")], cipher.clone(), u32::MAX).unwrap();
    assert_eq!(decrypt_stream(last, cipher.clone(), u32::MAX).unwrap(), vec![Bytes::from_static(b"x")]);
}

#[test]
fn cipher_stream_steps() {
    let cipher = ChunkStreamCipher::new(&secret_with_counter([0, 0, 0, 9]));
    let mut sealing = CipherStream::new(cipher.clone(), u32::MAX - 1);
    let a = sealing.encrypt_next(b"first").unwrap();
    let b = sealing.encrypt_next(b"second").unwrap();
    assert_eq!(a, cipher.encrypt(u32::MAX - 1, b"first").unwrap());
    assert_eq!(b, cipher.encrypt(u32::MAX, b"second").unwrap());
    assert_eq!(sealing.encrypt_next(b"third"), Err(StreamError::InvalidData));

    let mut opening = CipherStream::new(cipher.clone(), u32::MAX - 1);
    assert_eq!(opening.decrypt_next(&b), Err(StreamError::InvalidData));
    assert_eq!(opening.decrypt_next(&a).unwrap(), b"first");
    assert_eq!(opening.decrypt_next(&b).unwrap(), b"second");
    assert_eq!(opening.decrypt_next(&a), Err(StreamError::InvalidData));
}
