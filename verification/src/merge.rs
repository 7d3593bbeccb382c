//! The streaming greedy phrase merger: one pass over a slice of raw IDs that
//! learns bounded-length phrases into a window-local codebook and emits the
//! compressed-ID sequence for one fixed-capacity output window.

use vstd::prelude::*;
use crate::codebook::Codebook;
use crate::disabled::{set_contains, set_contents};
use crate::model::{
    all_raw,
    decode_ids,
    expand_one,
    lemma_decode_book_grow,
    lemma_decode_push,
    lemma_prefix_extend,
    lemma_sum_prefix,
    valid_code,
};

verus! {

/// The forced document alignment at the start of a window: when the window's
/// first raw ID is not the boundary marker, the marker is emitted ahead of it.
pub open spec fn window_head(first: usize, eot_token_id: usize) -> Seq<usize> {
    if first == eot_token_id {
        Seq::<usize>::empty()
    } else {
        seq![eot_token_id]
    }
}

/// Appends to an output window, dropping the ID once the window is full.
pub fn push_to_compressed_ids(
    compressed_ids: &mut Vec<usize>,
    id: usize,
    max_out_seq_length: usize,
)
    ensures
        old(compressed_ids)@.len() < max_out_seq_length ==> final(compressed_ids)@ == old(
            compressed_ids,
        )@.push(id),
        old(compressed_ids)@.len() >= max_out_seq_length ==> final(compressed_ids)@ == old(
            compressed_ids,
        )@,
{
    if compressed_ids.len() < max_out_seq_length {
        compressed_ids.push(id);
    }
}

/// Compresses one window starting at `ids[offset]`: greedily grows a candidate
/// phrase, registering each newly seen extension in the codebook (while it has
/// capacity) and emitting the substitute ID of the already-known prefix, until
/// the input (capped at `num_tokens`) runs out or the window holds
/// `max_out_seq_length` IDs. Disabled IDs flush the candidate and pass through
/// unchanged; a window whose first ID is not the boundary marker is prefixed
/// with the marker. Returns the window, the finalized codebook and the count
/// of raw IDs consumed.
///
/// When every consumed ID is a raw-vocabulary ID and the window was not cut
/// off at its capacity, decoding the window through the returned codebook
/// reproduces the consumed input exactly (behind the forced marker).
#[verifier::loop_isolation(false)]
#[verifier::rlimit(100)]
pub fn compress(
    ids: &Vec<usize>,
    offset: usize,
    num_tokens: usize,
    initial_vocab_size: usize,
    max_codebook_size: usize,
    max_subtokens: usize,
    max_out_seq_length: usize,
    eot_token_id: usize,
    disabled_ids: &fastset::Set,
) -> (r: (Vec<usize>, Codebook, usize))
    requires
        offset < num_tokens <= ids@.len(),
        max_subtokens >= 1,
        max_out_seq_length >= 1,
        initial_vocab_size + max_codebook_size <= usize::MAX,
        eot_token_id < initial_vocab_size,
        forall|k: int|
            offset <= k < num_tokens ==> (#[trigger] ids@[k]) < initial_vocab_size || set_contents(
                *disabled_ids,
            ).contains(ids@[k]),
    ensures
        r.1.wf(),
        r.1.vocab() == initial_vocab_size,
        r.1.capacity() == max_codebook_size,
        r.1.phrase_cap() == max_subtokens,
        1 <= r.0@.len() <= max_out_seq_length,
        ids@[offset as int] != eot_token_id || set_contents(*disabled_ids).contains(eot_token_id)
            ==> r.0@[0] == eot_token_id,
        r.2 <= num_tokens - offset,
        r.2 == num_tokens - offset || r.0@.len() == max_out_seq_length,
        max_out_seq_length >= 2 ==> r.2 >= 1,
        forall|k: int| 0 <= k < r.1@.len() ==> (#[trigger] r.1@[k]).len() >= 2,
        forall|k: int, j: int|
            0 <= k < r.1@.len() && 0 <= j < r.1@[k].len() ==> (#[trigger] r.1@[k][j])
                < initial_vocab_size && !set_contents(*disabled_ids).contains(r.1@[k][j]),
        forall|k: int|
            0 <= k < r.0@.len() ==> valid_code(r.1@, initial_vocab_size as int, #[trigger] r.0@[k])
                || set_contents(*disabled_ids).contains(r.0@[k]),
        all_raw(ids@, offset as int, offset + r.2, initial_vocab_size as int) && r.0@.len()
            < max_out_seq_length ==> decode_ids(r.1@, initial_vocab_size as int, r.0@)
            == window_head(ids@[offset as int], eot_token_id) + ids@.subrange(
            offset as int,
            offset + r.2,
        ),
        all_raw(ids@, offset as int, offset + r.2, initial_vocab_size as int) ==> decode_ids(
            r.1@,
            initial_vocab_size as int,
            r.0@,
        ).is_prefix_of(
            window_head(ids@[offset as int], eot_token_id) + ids@.subrange(
                offset as int,
                offset + r.2,
            ),
        ),
{
    let ghost dset = set_contents(*disabled_ids);
    let ghost vocab = initial_vocab_size as int;
    let mut compressed_ids: Vec<usize> = Vec::new();
    let mut codebook = Codebook::new(initial_vocab_size, max_codebook_size, max_subtokens);
    let mut ids_to_merge: Vec<usize> = Vec::new();
    let ghost head = window_head(ids@[offset as int], eot_token_id);
    let ghost mut lossless: bool = true;

    if ids[offset] != eot_token_id {
        compressed_ids.push(eot_token_id);
        proof {
            lemma_decode_push(codebook@, vocab, Seq::<usize>::empty(), eot_token_id);
            assert(compressed_ids@ =~= Seq::<usize>::empty().push(eot_token_id));
            assert(expand_one(codebook@, vocab, eot_token_id) =~= head);
        }
    }
    proof {
        assert(decode_ids(codebook@, vocab, compressed_ids@) =~= head);
        assert(ids@.subrange(offset as int, offset as int) =~= Seq::<usize>::empty());
        assert(decode_ids(codebook@, vocab, compressed_ids@) + ids_to_merge@ =~= head
            + ids@.subrange(offset as int, offset as int));
        lemma_sum_prefix(
            decode_ids(codebook@, vocab, compressed_ids@),
            ids_to_merge@,
            head + ids@.subrange(offset as int, offset as int),
        );
    }

    let mut i: usize = 0;
    while offset + i < num_tokens && compressed_ids.len() < max_out_seq_length
        invariant
            i <= num_tokens - offset,
            compressed_ids@.len() <= max_out_seq_length,
            codebook.wf(),
            codebook.vocab() == initial_vocab_size,
            codebook.capacity() == max_codebook_size,
            codebook.phrase_cap() == max_subtokens,
            ids_to_merge@.len() < max_subtokens,
            forall|k: int|
                0 <= k < ids_to_merge@.len() ==> (#[trigger] ids_to_merge@[k])
                    < initial_vocab_size && !dset.contains(ids_to_merge@[k]),
            ids_to_merge@.len() >= 2 ==> codebook.contains_spec(ids_to_merge@),
            forall|k: int| 0 <= k < codebook@.len() ==> (#[trigger] codebook@[k]).len() >= 2,
            forall|k: int, j: int|
                0 <= k < codebook@.len() && 0 <= j < codebook@[k].len() ==> (
                #[trigger] codebook@[k][j]) < initial_vocab_size && !dset.contains(
                    codebook@[k][j],
                ),
            forall|k: int|
                0 <= k < compressed_ids@.len() ==> valid_code(
                    codebook@,
                    vocab,
                    #[trigger] compressed_ids@[k],
                ) || dset.contains(compressed_ids@[k]),
            all_raw(ids@, offset as int, offset + i, vocab) ==> forall|k: int|
                0 <= k < compressed_ids@.len() ==> valid_code(
                    codebook@,
                    vocab,
                    #[trigger] compressed_ids@[k],
                ),
            all_raw(ids@, offset as int, offset + i, vocab) && lossless ==> decode_ids(
                codebook@,
                vocab,
                compressed_ids@,
            ) + ids_to_merge@ == head + ids@.subrange(offset as int, offset + i),
            all_raw(ids@, offset as int, offset + i, vocab) ==> decode_ids(
                codebook@,
                vocab,
                compressed_ids@,
            ).is_prefix_of(head + ids@.subrange(offset as int, offset + i)),
            !lossless ==> compressed_ids@.len() == max_out_seq_length,
            i == 0 ==> compressed_ids@.len() <= 1,
            i == 0 ==> ids_to_merge@.len() == 0,
            i >= 1 ==> compressed_ids@.len() >= 1 || ids_to_merge@.len() >= 1,
            ids@[offset as int] != eot_token_id || dset.contains(eot_token_id) ==> (
            compressed_ids@.len() >= 1 ==> compressed_ids@[0] == eot_token_id) && (i >= 1
                ==> compressed_ids@.len() >= 1),
        decreases num_tokens - offset - i,
    {
        let id = ids[offset + i];
        let ghost prev_sub = ids@.subrange(offset as int, offset + i);
        let ghost book0 = codebook@;
        let ghost codes0 = compressed_ids@;
        let ghost merge0 = ids_to_merge@;
        let ghost lossless0 = lossless;
        proof {
            assert(ids@.subrange(offset as int, offset + i + 1) =~= prev_sub.push(
                ids@[offset + i],
            ));
        }

        if set_contains(disabled_ids, id) {
            if ids_to_merge.len() > 0 {
                let ghost merge_pre = ids_to_merge@;
                let code = codebook.lookup(&ids_to_merge);
                let ghost pre = compressed_ids@;
                push_to_compressed_ids(&mut compressed_ids, code, max_out_seq_length);
                proof {
                    if ids_to_merge@.len() == 1 {
                        assert(expand_one(codebook@, vocab, code) =~= ids_to_merge@);
                    }
                    assert(expand_one(codebook@, vocab, code) == merge_pre);
                    if pre.len() < max_out_seq_length {
                        lemma_decode_push(codebook@, vocab, pre, code);
                        assert(decode_ids(codebook@, vocab, compressed_ids@) == decode_ids(
                            codebook@,
                            vocab,
                            pre,
                        ) + merge_pre);
                    } else {
                        lossless = false;
                    }
                }
                ids_to_merge.clear();
                proof {
                    if all_raw(ids@, offset as int, offset + i, vocab) && lossless {
                        assert(decode_ids(codebook@, vocab, compressed_ids@) + ids_to_merge@ =~= head
                            + prev_sub);
                    }
                }
            }
            let ghost pre2 = compressed_ids@;
            push_to_compressed_ids(&mut compressed_ids, id, max_out_seq_length);
            proof {
                if pre2.len() < max_out_seq_length {
                    lemma_decode_push(codebook@, vocab, pre2, id);
                } else {
                    lossless = false;
                }
                if all_raw(ids@, offset as int, offset + i + 1, vocab) && lossless {
                    assert(id < initial_vocab_size);
                    assert(expand_one(codebook@, vocab, id) =~= seq![id]);
                    assert(decode_ids(codebook@, vocab, pre2) + ids_to_merge@ == head + prev_sub);
                    assert(decode_ids(codebook@, vocab, pre2) =~= head + prev_sub);
                    assert(decode_ids(codebook@, vocab, compressed_ids@) + ids_to_merge@ =~= (head
                        + prev_sub) + seq![id]);
                    assert((head + prev_sub) + seq![id] =~= head + prev_sub.push(id));
                    assert(decode_ids(codebook@, vocab, compressed_ids@) + ids_to_merge@ == head
                        + prev_sub.push(id));
                }
            }
            proof {
                if all_raw(ids@, offset as int, offset + i + 1, vocab) {
                    let target0 = head + prev_sub;
                    let target1 = head + prev_sub.push(id);
                    assert(target1 =~= target0 + seq![id]);
                    let d = decode_ids(codebook@, vocab, compressed_ids@);
                    if lossless {
                        lemma_sum_prefix(d, ids_to_merge@, target1);
                    } else {
                        let d0 = decode_ids(codebook@, vocab, codes0);
                        if lossless0 {
                            if d0 + merge0 == target0 {
                                lemma_sum_prefix(d0, merge0, target0);
                                if d == target0 {
                                    assert(d + Seq::<usize>::empty() =~= d);
                                    lemma_sum_prefix(d, Seq::<usize>::empty(), target0);
                                }
                            }
                            if d == d0 && d0 + merge0.push(id) == target1 {
                                lemma_sum_prefix(d0, merge0.push(id), target1);
                            }
                        }
                        if d.is_prefix_of(target0) {
                            lemma_prefix_extend(d, target0, seq![id]);
                        }
                        assert(d.is_prefix_of(target1));
                    }
                }
            }
            i += 1;
        } else {
            assert(id < initial_vocab_size);
            let ghost merge_before = ids_to_merge@;
            ids_to_merge.push(id);
            proof {
                if all_raw(ids@, offset as int, offset + i + 1, vocab) && lossless {
                    assert(all_raw(ids@, offset as int, offset + i, vocab));
                    let d = decode_ids(codebook@, vocab, compressed_ids@);
                    assert(d + merge_before == head + prev_sub);
                    assert(d + ids_to_merge@ =~= (d + merge_before).push(id));
                    assert(head + prev_sub.push(id) =~= (head + prev_sub).push(id));
                    assert(d + ids_to_merge@ == head + prev_sub.push(id));
                }
            }

            let is_in = codebook.contains(&ids_to_merge);
            if !is_in {
                assert(ids_to_merge@.len() >= 2) by {
                    if ids_to_merge@.len() == 1 {
                        assert(ids_to_merge@[0] == id);
                    }
                }
                let ghost prev_book = codebook@;
                let _ = codebook.try_insert(&ids_to_merge);
                proof {
                    if codebook@ != prev_book {
                        assert(codebook@ == prev_book.push(merge_before.push(id)));
                        if all_raw(ids@, offset as int, offset + i, vocab) {
                            lemma_decode_book_grow(
                                prev_book,
                                merge_before.push(id),
                                vocab,
                                compressed_ids@,
                            );
                            assert(decode_ids(codebook@, vocab, compressed_ids@) == decode_ids(
                                prev_book,
                                vocab,
                                compressed_ids@,
                            ));
                            assert forall|k: int|
                                0 <= k < compressed_ids@.len() implies valid_code(
                                codebook@,
                                vocab,
                                #[trigger] compressed_ids@[k],
                            ) by {
                                assert(valid_code(prev_book, vocab, compressed_ids@[k]));
                            };
                        }
                        if merge_before.len() >= 2 {
                            let w = choose|k: int|
                                0 <= k < prev_book.len() && prev_book[k] == merge_before;
                            assert(codebook@[w] == merge_before);
                        }
                    }
                    if all_raw(ids@, offset as int, offset + i + 1, vocab) && lossless {
                        assert(decode_ids(codebook@, vocab, compressed_ids@) + ids_to_merge@ == head
                            + prev_sub.push(id));
                    }
                }
                ids_to_merge.pop();
                proof {
                    assert(ids_to_merge@ =~= merge_before);
                }
                let code = codebook.lookup(&ids_to_merge);
                let ghost pre = compressed_ids@;
                push_to_compressed_ids(&mut compressed_ids, code, max_out_seq_length);
                proof {
                    if ids_to_merge@.len() == 1 {
                        assert(expand_one(codebook@, vocab, code) =~= ids_to_merge@);
                    }
                    assert(expand_one(codebook@, vocab, code) == merge_before);
                    if pre.len() < max_out_seq_length {
                        lemma_decode_push(codebook@, vocab, pre, code);
                        assert(decode_ids(codebook@, vocab, compressed_ids@) == decode_ids(
                            codebook@,
                            vocab,
                            pre,
                        ) + merge_before);
                    } else {
                        lossless = false;
                    }
                }
                ids_to_merge.clear();
                ids_to_merge.push(id);
                proof {
                    assert(ids_to_merge@ =~= seq![id]);
                    if all_raw(ids@, offset as int, offset + i + 1, vocab) && lossless {
                        let d = decode_ids(codebook@, vocab, pre);
                        assert(d + merge_before.push(id) == head + prev_sub.push(id));
                        assert((d + merge_before) + ids_to_merge@ =~= d + merge_before.push(id));
                        assert(decode_ids(codebook@, vocab, compressed_ids@) + ids_to_merge@ == head
                            + prev_sub.push(id));
                    }
                }
            }

            if ids_to_merge.len() == max_subtokens {
                let ghost merge_full = ids_to_merge@;
                let code = codebook.lookup(&ids_to_merge);
                let ghost pre = compressed_ids@;
                push_to_compressed_ids(&mut compressed_ids, code, max_out_seq_length);
                proof {
                    if ids_to_merge@.len() == 1 {
                        assert(expand_one(codebook@, vocab, code) =~= ids_to_merge@);
                    }
                    assert(expand_one(codebook@, vocab, code) == merge_full);
                    if pre.len() < max_out_seq_length {
                        lemma_decode_push(codebook@, vocab, pre, code);
                        assert(decode_ids(codebook@, vocab, compressed_ids@) == decode_ids(
                            codebook@,
                            vocab,
                            pre,
                        ) + merge_full);
                    } else {
                        lossless = false;
                    }
                }
                ids_to_merge.clear();
                proof {
                    if all_raw(ids@, offset as int, offset + i + 1, vocab) && lossless {
                        let d = decode_ids(codebook@, vocab, pre);
                        assert(d + merge_full == head + prev_sub.push(id));
                        assert(decode_ids(codebook@, vocab, compressed_ids@) + ids_to_merge@ =~= d
                            + merge_full);
                        assert(decode_ids(codebook@, vocab, compressed_ids@) + ids_to_merge@ == head
                            + prev_sub.push(id));
                    }
                }
            }

            proof {
                if all_raw(ids@, offset as int, offset + i + 1, vocab) {
                    let target0 = head + prev_sub;
                    let target1 = head + prev_sub.push(id);
                    assert(target1 =~= target0 + seq![id]);
                    let d = decode_ids(codebook@, vocab, compressed_ids@);
                    if lossless {
                        lemma_sum_prefix(d, ids_to_merge@, target1);
                    } else {
                        let d0 = decode_ids(codebook@, vocab, codes0);
                        if lossless0 {
                            if d0 + merge0 == target0 {
                                lemma_sum_prefix(d0, merge0, target0);
                                if d == target0 {
                                    assert(d + Seq::<usize>::empty() =~= d);
                                    lemma_sum_prefix(d, Seq::<usize>::empty(), target0);
                                }
                            }
                            if d == d0 && d0 + merge0.push(id) == target1 {
                                lemma_sum_prefix(d0, merge0.push(id), target1);
                            }
                        }
                        if d.is_prefix_of(target0) {
                            lemma_prefix_extend(d, target0, seq![id]);
                        }
                        assert(d.is_prefix_of(target1));
                    }
                }
            }
            i += 1;
            proof {
                if all_raw(ids@, offset as int, offset + i, vocab) && lossless {
                    assert(decode_ids(codebook@, vocab, compressed_ids@) + ids_to_merge@ == head
                        + ids@.subrange(offset as int, offset + i));
                }
            }
        }
    }

    // Defensive split from the algorithm's end-of-input flush; the loop
    // invariant keeps the candidate strictly short, so this never runs.
    if ids_to_merge.len() > max_subtokens {
        ids_to_merge.pop();
        let code = codebook.lookup(&ids_to_merge);
        push_to_compressed_ids(&mut compressed_ids, code, max_out_seq_length);
        ids_to_merge.clear();
    }

    let ghost exit_codes = compressed_ids@;
    let ghost exit_merge = ids_to_merge@;
    if ids_to_merge.len() > 0 {
        let code = codebook.lookup(&ids_to_merge);
        let ghost pre = compressed_ids@;
        push_to_compressed_ids(&mut compressed_ids, code, max_out_seq_length);
        proof {
            if ids_to_merge@.len() == 1 {
                assert(expand_one(codebook@, vocab, code) =~= ids_to_merge@);
            }
            assert(expand_one(codebook@, vocab, code) == ids_to_merge@);
            if pre.len() < max_out_seq_length {
                lemma_decode_push(codebook@, vocab, pre, code);
            } else {
                lossless = false;
            }
        }
    } else {
        proof {
            if all_raw(ids@, offset as int, offset + i, vocab) && lossless {
                assert(decode_ids(codebook@, vocab, compressed_ids@) =~= head + ids@.subrange(
                    offset as int,
                    offset + i,
                ));
            }
        }
    }
    proof {
        if all_raw(ids@, offset as int, offset + i, vocab) {
            let target = head + ids@.subrange(offset as int, offset + i as int);
            let d = decode_ids(codebook@, vocab, compressed_ids@);
            if lossless {
                assert(d == target);
                assert(d + Seq::<usize>::empty() =~= d);
                lemma_sum_prefix(d, Seq::<usize>::empty(), target);
            } else {
                let d_exit = decode_ids(codebook@, vocab, exit_codes);
                assert(d == d_exit);
                if d_exit + exit_merge == target {
                    lemma_sum_prefix(d_exit, exit_merge, target);
                }
                assert(d.is_prefix_of(target));
            }
        }
    }

    (compressed_ids, codebook, i)
}

/// Whether every ID of `ids[lo..hi]` can enter compression: each one is a
/// raw-vocabulary ID or a disabled ID. Anything else makes phrase lookup
/// fail, which is a defect, not a recoverable input.
#[verifier::loop_isolation(false)]
pub fn ids_compressible(
    ids: &Vec<usize>,
    lo: usize,
    hi: usize,
    initial_vocab_size: usize,
    disabled_ids: &fastset::Set,
) -> (r: bool)
    requires
        lo <= hi <= ids@.len(),
    ensures
        r == (forall|k: int|
            lo <= k < hi ==> (#[trigger] ids@[k]) < initial_vocab_size || set_contents(
                *disabled_ids,
            ).contains(ids@[k])),
{
    let mut k: usize = lo;
    while k < hi
        invariant
            lo <= k <= hi,
            forall|j: int|
                lo <= j < k ==> (#[trigger] ids@[j]) < initial_vocab_size || set_contents(
                    *disabled_ids,
                ).contains(ids@[j]),
        decreases hi - k,
    {
        if ids[k] >= initial_vocab_size && !set_contains(disabled_ids, ids[k]) {
            return false;
        }
        k += 1;
    }
    true
}

/// What one single-call compression of `ids` guarantees, witnessed by the
/// window's codebook `book` and the count of raw IDs `consumed`: the rows are
/// the padded serialization of that codebook, its phrases are short, raw and
/// never disabled, decoding the window through it reproduces the consumed
/// prefix (exactly when the window was not cut at `max_out`, as a prefix
/// always), and the remainder is reported from the first boundary marker at
/// or after the consumed prefix — `None` exactly when none remains.
pub open spec fn span_post(
    ids: Seq<usize>,
    vocab: int,
    mst: int,
    max_out: int,
    eot: usize,
    dset: Set<usize>,
    compressed: Seq<usize>,
    rows: Seq<Vec<usize>>,
    remaining: Option<Vec<usize>>,
    book: Seq<Seq<usize>>,
    consumed: int,
) -> bool {
    &&& 0 <= consumed <= ids.len()
    &&& consumed == ids.len() || compressed.len() == max_out
    &&& book.len() <= rows.len()
    &&& forall|k: int| 0 <= k < book.len() ==> 2 <= (#[trigger] book[k]).len() <= mst
    &&& forall|k: int, j: int|
        0 <= k < book.len() && 0 <= j < book[k].len() ==> (#[trigger] book[k][j]) < vocab
            && !dset.contains(book[k][j])
    &&& forall|k: int|
        0 <= k < rows.len() ==> (#[trigger] rows[k])@ == crate::model::pad_phrase(
            if k < book.len() {
                book[k]
            } else {
                Seq::<usize>::empty()
            },
            mst,
            eot,
        )
    &&& ids.len() >= 1 && all_raw(ids, 0, consumed, vocab) && compressed.len() < max_out
        ==> decode_ids(book, vocab, compressed) == window_head(ids[0], eot) + ids.subrange(
        0,
        consumed,
    )
    &&& ids.len() >= 1 && all_raw(ids, 0, consumed, vocab) ==> decode_ids(
        book,
        vocab,
        compressed,
    ).is_prefix_of(window_head(ids[0], eot) + ids.subrange(0, consumed))
    &&& (remaining is None <==> forall|j: int| consumed <= j < ids.len() ==> ids[j] != eot)
    &&& (remaining matches Some(rest) ==> exists|j: int|
        consumed <= j < ids.len() && #[trigger] ids[j] == eot && (forall|j2: int|
            consumed <= j2 < j ==> ids[j2] != eot) && rest@ == ids.subrange(j, ids.len() as int))
}

/// Single-call interface: compresses one raw-ID array from its start into one
/// window, with the same conventions as `compress`. Returns the compressed
/// IDs, the codebook serialized as padded phrase rows, and — when a document
/// boundary remains at or beyond the consumed region — the untouched suffix
/// of the input from that boundary on (`None` when the stream is exhausted).
/// An input holding an ID that is neither raw nor disabled is rejected whole.
#[verifier::loop_isolation(false)]
pub fn compress_span(
    ids: &Vec<usize>,
    initial_vocab_size: usize,
    max_codebook_size: usize,
    max_subtokens: usize,
    max_out_seq_length: usize,
    eot_token_id: usize,
    disabled_ids: &fastset::Set,
) -> (r: Option<(Vec<usize>, Vec<Vec<usize>>, Option<Vec<usize>>)>)
    requires
        max_subtokens >= 1,
        max_out_seq_length >= 1,
        initial_vocab_size + max_codebook_size <= usize::MAX,
        eot_token_id < initial_vocab_size,
    ensures
        r is Some <==> (forall|k: int|
            0 <= k < ids@.len() ==> (#[trigger] ids@[k]) < initial_vocab_size || set_contents(
                *disabled_ids,
            ).contains(ids@[k])),
        r matches Some(out) ==> out.0@.len() <= max_out_seq_length,
        r matches Some(out) ==> out.1@.len() == max_codebook_size,
        r matches Some(out) ==> forall|k: int|
            0 <= k < out.1@.len() ==> (#[trigger] out.1@[k])@.len() == max_subtokens,
        ids@.len() == 0 ==> (r matches Some(out) ==> out.0@.len() == 0 && out.2 is None),
        ids@.len() >= 1 ==> (r matches Some(out) ==> out.0@.len() >= 1),
        r matches Some(out) ==> (ids@.len() >= 1 && (ids@[0] != eot_token_id || set_contents(
            *disabled_ids,
        ).contains(eot_token_id)) ==> out.0@[0] == eot_token_id),
        r matches Some(out) ==> exists|book: Seq<Seq<usize>>, consumed: int|
            #[trigger] span_post(
                ids@,
                initial_vocab_size as int,
                max_subtokens as int,
                max_out_seq_length as int,
                eot_token_id,
                set_contents(*disabled_ids),
                out.0@,
                out.1@,
                out.2,
                book,
                consumed,
            ),
{
    if !ids_compressible(ids, 0, ids.len(), initial_vocab_size, disabled_ids) {
        return None;
    }
    if ids.len() == 0 {
        let book = Codebook::new(initial_vocab_size, max_codebook_size, max_subtokens);
        let rows = book.serialize_rows(eot_token_id);
        proof {
            assert forall|k: int| 0 <= k < rows@.len() implies (#[trigger] rows@[k])@.len()
                == max_subtokens by {
                assert(rows@[k]@ == crate::model::pad_phrase(
                    Seq::<usize>::empty(),
                    max_subtokens as int,
                    eot_token_id,
                ));
            };
        }
        let empty_out: Vec<usize> = Vec::new();
        proof {
            assert(span_post(
                ids@,
                initial_vocab_size as int,
                max_subtokens as int,
                max_out_seq_length as int,
                eot_token_id,
                set_contents(*disabled_ids),
                empty_out@,
                rows@,
                None::<Vec<usize>>,
                book@,
                0,
            ));
        }
        return Some((empty_out, rows, None));
    }
    let (compressed_ids, book, consumed) = compress(
        ids,
        0,
        ids.len(),
        initial_vocab_size,
        max_codebook_size,
        max_subtokens,
        max_out_seq_length,
        eot_token_id,
        disabled_ids,
    );
    let rows = book.serialize_rows(eot_token_id);
    proof {
        assert forall|k: int| 0 <= k < rows@.len() implies (#[trigger] rows@[k])@.len()
            == max_subtokens by {
            if k < book@.len() {
                assert(book@[k].len() <= max_subtokens);
            }
        };
    }
    let remaining = match find_next_boundary(ids, consumed, ids.len(), eot_token_id) {
        None => None,
        Some(j) => {
            let mut rest: Vec<usize> = Vec::new();
            let mut t: usize = j;
            while t < ids.len()
                invariant
                    j <= t <= ids@.len(),
                    rest@ == ids@.subrange(j as int, t as int),
                decreases ids@.len() - t,
            {
                rest.push(ids[t]);
                proof {
                    assert(ids@.subrange(j as int, t + 1 as int) =~= ids@.subrange(
                        j as int,
                        t as int,
                    ).push(ids@[t as int]));
                }
                t += 1;
            }
            Some(rest)
        },
    };
    proof {
        assert(span_post(
            ids@,
            initial_vocab_size as int,
            max_subtokens as int,
            max_out_seq_length as int,
            eot_token_id,
            set_contents(*disabled_ids),
            compressed_ids@,
            rows@,
            remaining,
            book@,
            consumed as int,
        ));
    }
    Some((compressed_ids, rows, remaining))
}

/// The position of the next document boundary at or after `from`, if the
/// boundary marker occurs again before `num_tokens`.
#[verifier::loop_isolation(false)]
pub fn find_next_boundary(
    ids: &Vec<usize>,
    from: usize,
    num_tokens: usize,
    eot_token_id: usize,
) -> (r: Option<usize>)
    requires
        from <= num_tokens <= ids@.len(),
    ensures
        r matches Some(j) ==> from <= j < num_tokens && ids@[j as int] == eot_token_id && forall|
            k: int,
        | from <= k < j ==> ids@[k] != eot_token_id,
        r is None ==> forall|k: int| from <= k < num_tokens ==> ids@[k] != eot_token_id,
{
    let mut j: usize = from;
    while j < num_tokens
        invariant
            from <= j <= num_tokens,
            forall|k: int| from <= k < j ==> ids@[k] != eot_token_id,
        decreases num_tokens - j,
    {
        if ids[j] == eot_token_id {
            return Some(j);
        }
        j += 1;
    }
    None
}

} // verus!
