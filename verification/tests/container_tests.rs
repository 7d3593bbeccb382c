use fast_compress::container::{
    build_output_header, decode_header_words, decode_token_ids, encode_header_words,
    encode_token_ids, validate_header, HeaderError, HEADER_MAGIC, HEADER_VERSION, HEADER_WORDS,
};
use fast_compress::disabled::disabled_ids_to_set;
use fast_compress::windows::compress_stream;

fn fresh_header(count: u32) -> Vec<u32> {
    let mut words = vec![0u32; HEADER_WORDS];
    words[0] = HEADER_MAGIC;
    words[1] = HEADER_VERSION;
    words[2] = count;
    words
}

#[test]
fn header_round_trip() {
    // Writing magic 20240520, version 1 and a count, then reading the bytes
    // back, yields the same values.
    let words = fresh_header(12345);
    let bytes = encode_header_words(&words);
    assert_eq!(bytes.len(), 1024);
    let back = decode_header_words(&bytes);
    assert_eq!(back, words);
    assert_eq!(back[0], 20240520);
    assert_eq!(back[1], 1);
    assert_eq!(back[2], 12345);
}

#[test]
fn header_word_bytes_are_little_endian() {
    let words = vec![20240520u32];
    let bytes = encode_header_words(&words);
    assert_eq!(bytes, vec![0x88, 0xD8, 0x34, 0x01]);
}

#[test]
fn token_ids_round_trip() {
    let ids: Vec<usize> = vec![0, 1, 1337, 65535, 50256];
    let bytes = encode_token_ids(&ids);
    assert_eq!(bytes.len(), 10);
    assert_eq!(&bytes[4..6], &[0x39, 0x05]);
    let back = decode_token_ids(&bytes);
    assert_eq!(back, ids);
}

#[test]
fn validate_header_accepts_exact_magic_and_version() {
    let words = fresh_header(42);
    assert_eq!(validate_header(&words), Ok(42));
}

#[test]
fn validate_header_rejects_short_header() {
    let words = vec![HEADER_MAGIC, HEADER_VERSION, 7];
    assert_eq!(validate_header(&words), Err(HeaderError::TooShort));
}

#[test]
fn validate_header_rejects_wrong_magic() {
    let mut words = fresh_header(7);
    words[0] = 20240521;
    assert_eq!(validate_header(&words), Err(HeaderError::BadMagic));
}

#[test]
fn validate_header_rejects_wrong_version() {
    let mut words = fresh_header(7);
    words[1] = 2;
    assert_eq!(validate_header(&words), Err(HeaderError::BadVersion));
}

#[test]
fn output_header_keeps_untouched_slots() {
    let mut words = fresh_header(100);
    words[200] = 777;
    let out = build_output_header(&words, 64, 2, 4, 3);
    assert_eq!(out.len(), HEADER_WORDS);
    assert_eq!(out[0], HEADER_MAGIC);
    assert_eq!(out[1], HEADER_VERSION);
    assert_eq!(out[2], 64);
    assert_eq!(out[3], 2);
    assert_eq!(out[4], 4);
    assert_eq!(out[5], 3);
    assert_eq!(out[200], 777);
}

#[test]
fn stream_tiles_into_full_windows() {
    let ids: Vec<usize> = vec![0, 1, 1, 0, 1, 1, 0, 1, 1, 0, 1, 1];
    let set = disabled_ids_to_set(Some(vec![0]));
    let out = compress_stream(&ids, 12, 10, 4, 3, 4, 0, &set);
    let (compressed, tables, windows, _) = out.expect("every window fills exactly");
    assert_eq!(windows, 3);
    assert_eq!(compressed, vec![0, 1, 1, 0, 0, 1, 1, 0, 0, 1, 1, 0]);
    assert_eq!(tables.len(), 3 * 4 * 3);
}

#[test]
fn stream_aborts_on_a_short_window() {
    // Six repeated tokens compress into four IDs, short of the five-ID
    // window, and no partial window is admitted.
    let ids: Vec<usize> = vec![7, 7, 7, 7, 7, 7];
    let set = disabled_ids_to_set(Some(vec![0]));
    assert!(compress_stream(&ids, 6, 10, 4, 3, 5, 0, &set).is_none());
}

#[test]
fn stream_rejects_out_of_vocabulary_input() {
    let ids: Vec<usize> = vec![0, 1, 2, 99, 1, 2, 0, 1, 2];
    let set = disabled_ids_to_set(Some(vec![0]));
    assert!(compress_stream(&ids, 9, 10, 4, 3, 4, 0, &set).is_none());
}

#[test]
fn stream_shorter_than_one_window_yields_nothing() {
    let ids: Vec<usize> = vec![0, 1, 2];
    let set = disabled_ids_to_set(Some(vec![0]));
    let out = compress_stream(&ids, 3, 10, 4, 3, 4, 0, &set);
    let (compressed, tables, windows, _) = out.expect("an empty tiling is still a tiling");
    assert_eq!(windows, 0);
    assert!(compressed.is_empty());
    assert!(tables.is_empty());
}
