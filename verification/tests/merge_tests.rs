use fast_compress::codebook::Codebook;
use fast_compress::disabled::disabled_ids_to_set;
use fast_compress::merge::{compress, compress_span, find_next_boundary, push_to_compressed_ids};

fn decode(compressed: &[usize], rows: &[Vec<usize>], vocab: usize, eot: usize) -> Vec<usize> {
    let mut out = Vec::new();
    for &c in compressed {
        if c < vocab {
            out.push(c);
        } else {
            // Phrases never hold the marker, so padding is where it begins.
            for &v in rows[c - vocab].iter().take_while(|&&v| v != eot) {
                out.push(v);
            }
        }
    }
    out
}

#[test]
fn repeated_pair_learns_short_phrases() {
    // initial_vocab_size=100, max_codebook_size=4, max_subtokens=3,
    // max_out_seq_length=10, boundary marker 0.
    let ids: Vec<usize> = vec![5, 6, 5, 6, 5, 6, 5, 6, 5, 6];
    let set = disabled_ids_to_set(Some(vec![0]));
    let (compressed, book, consumed) = compress(&ids, 0, 10, 100, 4, 3, 10, 0, &set);
    assert_eq!(consumed, 10);
    // Strictly shorter than the input, using only substitute IDs 100..104.
    assert!(compressed.len() < ids.len());
    assert_eq!(compressed, vec![0, 5, 6, 100, 102, 101, 6]);
    for &c in &compressed {
        assert!(c < 104);
    }
    // Every registered phrase has length <= 3.
    let rows = book.serialize_rows(0);
    assert_eq!(rows.len(), 4);
    assert_eq!(rows[0], vec![5, 6, 0]);
    assert_eq!(rows[1], vec![6, 5, 0]);
    assert_eq!(rows[2], vec![5, 6, 5]);
    assert_eq!(rows[3], vec![6, 5, 6]);
}

#[test]
fn repeated_pair_round_trips() {
    let ids: Vec<usize> = vec![5, 6, 5, 6, 5, 6, 5, 6, 5, 6];
    let set = disabled_ids_to_set(Some(vec![0]));
    let (compressed, book, consumed) = compress(&ids, 0, 10, 100, 4, 3, 10, 0, &set);
    assert_eq!(consumed, 10);
    let rows = book.serialize_rows(0);
    // The window head is the forced marker; what follows decodes to the input.
    assert_eq!(compressed[0], 0);
    let decoded = decode(&compressed[1..], &rows, 100, 0);
    assert_eq!(decoded, ids);
}

#[test]
fn boundary_marker_passes_through_unmerged() {
    // The marker mid-stream stays in place and no phrase spans across it.
    let ids: Vec<usize> = vec![5, 6, 0, 5, 6];
    let set = disabled_ids_to_set(Some(vec![0]));
    let (compressed, book, consumed) = compress(&ids, 0, 5, 100, 4, 3, 10, 0, &set);
    assert_eq!(consumed, 5);
    assert_eq!(compressed, vec![0, 5, 6, 0, 100]);
    let rows = book.serialize_rows(0);
    assert_eq!(rows[0], vec![5, 6, 0]);
    for row in rows.iter().skip(1) {
        assert_eq!(row, &vec![0, 0, 0]);
    }
    // The marker occurs in the compressed output exactly as often as in the
    // input, and in the same places after decoding.
    let marker_in = ids.iter().filter(|&&v| v == 0).count();
    let marker_out = compressed[1..].iter().filter(|&&v| v == 0).count();
    assert_eq!(marker_in, marker_out);
}

#[test]
fn window_starting_at_marker_gets_no_extra_marker() {
    let ids: Vec<usize> = vec![0, 7, 7];
    let set = disabled_ids_to_set(Some(vec![0]));
    let (compressed, _book, consumed) = compress(&ids, 0, 3, 100, 4, 3, 10, 0, &set);
    assert_eq!(consumed, 3);
    assert_eq!(compressed, vec![0, 7, 7]);
}

#[test]
fn output_never_exceeds_window_capacity() {
    let ids: Vec<usize> = vec![1, 2, 3, 4, 5, 6, 7, 8, 9, 1, 2, 3];
    let set = disabled_ids_to_set(Some(vec![0]));
    let (compressed, _book, _consumed) = compress(&ids, 0, 12, 100, 4, 3, 5, 0, &set);
    assert_eq!(compressed.len(), 5);
}

#[test]
fn compress_span_reports_remaining_documents() {
    let ids: Vec<usize> = vec![1, 0, 2, 0, 3];
    let set = disabled_ids_to_set(Some(vec![0]));
    let (compressed, rows, remaining) = compress_span(&ids, 100, 4, 3, 2, 0, &set).unwrap();
    assert_eq!(compressed, vec![0, 1]);
    assert_eq!(rows.len(), 4);
    for row in &rows {
        assert_eq!(row.len(), 3);
    }
    assert_eq!(remaining, Some(vec![0, 3]));
}

#[test]
fn compress_span_exhausts_stream_without_boundary() {
    let ids: Vec<usize> = vec![5, 6, 0, 5, 6];
    let set = disabled_ids_to_set(Some(vec![0]));
    let (compressed, _rows, remaining) = compress_span(&ids, 100, 4, 3, 10, 0, &set).unwrap();
    assert_eq!(compressed, vec![0, 5, 6, 0, 100]);
    assert_eq!(remaining, None);
}

#[test]
fn compress_span_of_empty_input() {
    let ids: Vec<usize> = Vec::new();
    let set = disabled_ids_to_set(Some(vec![0]));
    let (compressed, rows, remaining) = compress_span(&ids, 100, 4, 3, 10, 0, &set).unwrap();
    assert!(compressed.is_empty());
    assert_eq!(rows.len(), 4);
    for row in &rows {
        assert_eq!(row, &vec![0, 0, 0]);
    }
    assert_eq!(remaining, None);
}

#[test]
fn empty_disabled_set_lets_every_raw_id_merge() {
    let ids: Vec<usize> = vec![5, 6, 5, 6];
    let set = disabled_ids_to_set(None);
    let (compressed, book, consumed) = compress(&ids, 0, 4, 100, 4, 3, 10, 0, &set);
    assert_eq!(consumed, 4);
    assert_eq!(compressed, vec![0, 5, 6, 100]);
    assert_eq!(book.len(), 2);
}

#[test]
fn compress_span_rejects_out_of_vocabulary_input() {
    // 200 is neither below the vocabulary size nor disabled.
    let ids: Vec<usize> = vec![5, 200, 6];
    let set = disabled_ids_to_set(Some(vec![0]));
    assert!(compress_span(&ids, 100, 4, 3, 10, 0, &set).is_none());
}

#[test]
fn find_next_boundary_picks_first_marker() {
    let ids: Vec<usize> = vec![3, 4, 0, 5, 0];
    assert_eq!(find_next_boundary(&ids, 0, 5, 0), Some(2));
    assert_eq!(find_next_boundary(&ids, 3, 5, 0), Some(4));
    assert_eq!(find_next_boundary(&ids, 0, 2, 0), None);
}

#[test]
fn push_to_compressed_ids_respects_capacity() {
    let mut out: Vec<usize> = vec![1, 2];
    push_to_compressed_ids(&mut out, 3, 3);
    assert_eq!(out, vec![1, 2, 3]);
    push_to_compressed_ids(&mut out, 4, 3);
    assert_eq!(out, vec![1, 2, 3]);
}

#[test]
fn codebook_refuses_inserts_past_capacity() {
    let mut book = Codebook::new(100, 2, 3);
    assert_eq!(book.try_insert(&vec![1, 2]), Some(100));
    assert_eq!(book.try_insert(&vec![2, 3]), Some(101));
    assert_eq!(book.try_insert(&vec![3, 4]), None);
    assert_eq!(book.len(), 2);
    assert_eq!(book.lookup(&vec![2, 3]), 101);
    assert_eq!(book.lookup(&vec![9]), 9);
    assert!(book.contains(&vec![1, 2]));
    assert!(book.contains(&vec![42]));
    assert!(!book.contains(&vec![104]));
    assert!(!book.contains(&vec![3, 4]));
}

#[test]
fn serialized_table_is_padded_and_stable() {
    let mut book = Codebook::new(100, 2, 3);
    book.try_insert(&vec![7, 8]);
    book.try_insert(&vec![7, 8, 9]);
    let table = book.serialize(0);
    assert_eq!(table, vec![7, 8, 0, 7, 8, 9]);
    // A fully padded table re-serializes to the exact same shape.
    let again = book.serialize(0);
    assert_eq!(again.len(), 2 * 3);
    assert_eq!(again, table);
}
