use bytes::Bytes;
use castella::rate_limit::RateLimit;
use castella::stream::{
    chunk_stream, slice_stream, throttle_step, throttle_stream, BandwidthLimiter, Rechunker,
    SliceState, StreamError, ThrottleStep,
};

fn chunks(parts: &[&[u8]]) -> Vec<Bytes> {
    parts.iter().map(|p| Bytes::copy_from_slice(p)).collect()
}

fn views(chunks: &[Bytes]) -> Vec<Vec<u8>> {
    chunks.iter().map(|c| c.to_vec()).collect()
}

#[test]
fn slice_splits_the_crossing_chunks() {
    let source = chunks(&[b"abc", b"defg", b"hi", b"jklmn"]);
    let out = slice_stream(source, 2..10);
    assert_eq!(views(&out), vec![b"c".to_vec(), b"defg".to_vec(), b"hi".to_vec(), b"j".to_vec()]);
}

#[test]
fn slice_within_one_chunk_honours_the_limit() {
    let out = slice_stream(chunks(&[b"0123456789"]), 3..6);
    assert_eq!(views(&out), vec![b"345".to_vec()]);
    let whole: Vec<u8> = (0..=255u8).collect();
    let out = slice_stream(vec![Bytes::from(whole.clone())], 100..200);
    assert_eq!(views(&out), vec![whole[100..200].to_vec()]);
}

#[test]
fn slice_ends_cleanly_on_a_short_source() {
    let out = slice_stream(chunks(&[b"abc", b"de"]), 4..100);
    assert_eq!(views(&out), vec![b"e".to_vec()]);
    let out = slice_stream(chunks(&[b"abc", b"de"]), 5..100);
    assert!(out.is_empty());
    let out = slice_stream(chunks(&[b"abc", b"de"]), 50..100);
    assert!(out.is_empty());
    let out = slice_stream(vec![], 0..100);
    assert!(out.is_empty());
}

#[test]
fn slice_of_an_empty_window_emits_nothing() {
    assert!(slice_stream(chunks(&[b"abc", b"de"]), 0..0).is_empty());
    assert!(slice_stream(chunks(&[b"abc", b"de"]), 2..2).is_empty());
}

#[test]
fn slice_starting_at_a_chunk_edge() {
    let out = slice_stream(chunks(&[b"abc", b"de", b"f"]), 3..6);
    assert_eq!(views(&out), vec![b"de".to_vec(), b"f".to_vec()]);
    let out = slice_stream(chunks(&[b"abc", b"", b"de"]), 0..4);
    assert_eq!(views(&out), vec![b"abc".to_vec(), b"".to_vec(), b"d".to_vec()]);
}

#[test]
fn slice_state_steps() {
    let mut state = SliceState::new(4..9);
    assert_eq!(state, SliceState { offset: 4, limit: 5 });
    assert!(!state.finished());
    assert_eq!(state.advance(Bytes::from_static(b"abc")), None);
    assert_eq!(state, SliceState { offset: 1, limit: 5 });
    assert_eq!(state.advance(Bytes::from_static(b"defg")), Some(Bytes::from_static(b"efg")));
    assert_eq!(state, SliceState { offset: 0, limit: 2 });
    assert_eq!(state.advance(Bytes::from_static(b"hijk")), Some(Bytes::from_static(b"hi")));
    assert!(state.finished());
}

#[test]
fn rechunk_emits_fixed_chunks_and_a_rest() {
    let source = chunks(&[b"ab", b"cdefg", b"", b"hij", b"k"]);
    let out = chunk_stream(11, source, 4).unwrap();
    assert_eq!(views(&out), vec![b"abcd".to_vec(), b"efgh".to_vec(), b"ijk".to_vec()]);
}

#[test]
fn rechunk_of_a_whole_multiple_has_a_full_last_chunk() {
    let out = chunk_stream(8, chunks(&[b"abcdefgh"]), 4).unwrap();
    assert_eq!(views(&out), vec![b"abcd".to_vec(), b"efgh".to_vec()]);
    let out = chunk_stream(3, chunks(&[b"a", b"b", b"c"]), 4).unwrap();
    assert_eq!(views(&out), vec![b"abc".to_vec()]);
}

#[test]
fn rechunk_leaves_bytes_beyond_the_size_unread() {
    let out = chunk_stream(5, chunks(&[b"abcdefgh", b"ijk"]), 2).unwrap();
    assert_eq!(views(&out), vec![b"ab".to_vec(), b"cd".to_vec(), b"e".to_vec()]);
}

#[test]
fn rechunk_fails_on_a_short_source() {
    assert_eq!(chunk_stream(9, chunks(&[b"abcdefgh"]), 4).err(), Some(StreamError::UnexpectedEof));
    assert_eq!(chunk_stream(1, vec![], 4).err(), Some(StreamError::UnexpectedEof));
}

#[test]
fn rechunk_of_nothing() {
    assert!(chunk_stream(0, chunks(&[b"abc"]), 4).unwrap().is_empty());
    assert!(chunk_stream(0, vec![], 4).unwrap().is_empty());
    assert!(chunk_stream(5, chunks(&[b"abc"]), 0).unwrap().is_empty());
}

#[test]
fn rechunker_steps() {
    let mut r = Rechunker::new(7, 3);
    assert!(!r.is_complete());
    assert!(r.push(b"ab").is_empty());
    assert_eq!(views(&r.push(b"cdefg")), vec![b"abc".to_vec(), b"def".to_vec(), b"g".to_vec()]);
    assert!(r.is_complete());
    assert!(r.push(b"more").is_empty());
    assert!(Rechunker::new(0, 3).is_complete());
    assert!(Rechunker::new(5, 0).is_complete());
}

#[test]
fn throttle_step_formula() {
    let mib = 1u64 << 20;
    assert_eq!(throttle_step(0, 100, mib), ThrottleStep { consume: 0, leftover: 100 });
    assert_eq!(throttle_step(mib - 1, 1, mib), ThrottleStep { consume: 1, leftover: 0 });
    assert_eq!(throttle_step(5, 3 * mib + 7, mib), ThrottleStep { consume: 3, leftover: 12 });
    assert_eq!(throttle_step(0, 0, mib), ThrottleStep { consume: 0, leftover: 0 });
    assert_eq!(
        throttle_step(u64::MAX - 1, u64::MAX, 1u64 << 40),
        ThrottleStep { consume: (1 << 25) - 1, leftover: (1u64 << 40) - 3 }
    );
    assert_eq!(throttle_step(0, u64::MAX, 1), ThrottleStep { consume: u32::MAX, leftover: 0 });
}

#[test]
fn cells_saturate_where_the_units_do_not_fit() {
    assert_eq!(throttle_step(0, (1 << 32) - 1, 1), ThrottleStep { consume: u32::MAX, leftover: 0 });
    assert_eq!(throttle_step(0, 1 << 32, 1), ThrottleStep { consume: u32::MAX, leftover: 0 });
    assert_eq!(throttle_step(1, 1 << 33, 2), ThrottleStep { consume: u32::MAX, leftover: 1 });
    assert_eq!(
        throttle_step(u64::MAX, u64::MAX, 3),
        ThrottleStep { consume: u32::MAX, leftover: 0 }
    );
    let limit = RateLimit::from_str("1/1").unwrap();
    let mut limiter = BandwidthLimiter::new(limit, 1);
    assert_eq!(limiter.throttle(1 << 32), u32::MAX);
    assert_eq!(limiter.throttle(5), 5);
}

#[test]
fn throttle_accounts_every_byte() {
    let limit = RateLimit::from_str("1/1").unwrap();
    let mut limiter = BandwidthLimiter::new(limit, 10);
    assert_eq!(limiter.unit_size(), 10);
    let source = chunks(&[b"abcd", b"efghijk", b"", b"lmnopqrstuvwxyz0123456789", b"!"]);
    let out = throttle_stream(source.clone(), &mut limiter);
    assert_eq!(out.chunks, source);
    assert_eq!(out.cells, vec![0, 1, 0, 2, 0]);
    let total: usize = source.iter().map(|c| c.len()).sum();
    let cells: u64 = out.cells.iter().map(|c| *c as u64).sum();
    let rest = limiter.throttle(0);
    assert_eq!(rest, 0);
    assert_eq!(cells * 10 + 7, total as u64);
    assert_eq!(limiter.throttle(3), 1);
    assert_eq!(limiter.throttle(9), 0);
    assert_eq!(limiter.throttle(1), 1);
}

#[test]
fn ten_mib_at_one_mib_per_cell_costs_ten_cells() {
    let limit = RateLimit::from_str("1/1").unwrap();
    let mut limiter = BandwidthLimiter::new(limit, 1 << 20);
    let mut cells = 0u64;
    for _ in 0..160 {
        cells += limiter.throttle(65_536) as u64;
    }
    assert_eq!(cells, 10);
    assert_eq!(limiter.rate_limit().burst_size(), 1);
    assert_eq!(limiter.rate_limit().replenish_interval(), (1, 0));
}
