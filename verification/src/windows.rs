//! The window orchestrator: tiles one token stream into consecutive
//! fixed-size output windows, resuming each window where the previous one
//! stopped consuming, and pairing every window with its own serialized
//! codebook table.

use vstd::prelude::*;
use crate::disabled::set_contents;
use crate::merge::{compress, ids_compressible, window_head};
use crate::model::{all_raw, decode_ids, table_slot};

verus! {

/// What window `w` of a tiling guarantees, given the whole compressed-ID
/// stream and table stream, the window's own codebook `book`, and the input
/// segment `[off, end)` it consumed: the window's slice begins with the
/// boundary marker, its table slice is the padded serialization of `book`,
/// the codebook holds only short raw never-disabled phrases, and decoding the
/// slice through `book` reproduces a prefix of the consumed segment (behind
/// the forced marker).
pub open spec fn window_post(
    ids: Seq<usize>,
    vocab: int,
    mcs: int,
    mst: int,
    max_out: int,
    eot: usize,
    dset: Set<usize>,
    all_codes: Seq<usize>,
    all_tables: Seq<usize>,
    book: Seq<Seq<usize>>,
    off: int,
    end: int,
    w: int,
) -> bool {
    let codes = all_codes.subrange(w * max_out, (w + 1) * max_out);
    let table = all_tables.subrange(w * (mcs * mst), (w + 1) * (mcs * mst));
    &&& 0 <= off < end <= ids.len()
    &&& 0 <= w
    &&& max_out >= 1
    &&& (w + 1) * max_out <= all_codes.len()
    &&& (w + 1) * (mcs * mst) <= all_tables.len()
    &&& (ids[off] != eot || dset.contains(eot) ==> codes[0] == eot)
    &&& book.len() <= mcs
    &&& forall|k: int| 0 <= k < book.len() ==> 2 <= (#[trigger] book[k]).len() <= mst
    &&& forall|k: int, j: int|
        0 <= k < book.len() && 0 <= j < book[k].len() ==> (#[trigger] book[k][j]) < vocab
            && !dset.contains(book[k][j])
    &&& forall|k: int, j: int|
        0 <= k < mcs && 0 <= j < mst ==> table[k * mst + j] == #[trigger] table_slot(
            book,
            eot,
            k,
            j,
        )
    &&& all_raw(ids, off, end, vocab) ==> decode_ids(book, vocab, codes).is_prefix_of(
        window_head(ids[off], eot) + ids.subrange(off, end),
    )
}

/// What a successful tiling guarantees, witnessed by the windows' start
/// offsets (one more entry than windows: the last is the final consumed
/// offset) and each window's codebook: offsets start at zero and strictly
/// advance, every window began while more than one window's worth of raw IDs
/// remained, the run stopped once at most one window's worth remained (that
/// tail dropped, never compressed), and every window meets `window_post`.
pub open spec fn stream_post(
    ids: Seq<usize>,
    num_tokens: int,
    vocab: int,
    mcs: int,
    mst: int,
    max_out: int,
    eot: usize,
    dset: Set<usize>,
    all_codes: Seq<usize>,
    all_tables: Seq<usize>,
    windows: int,
    offs: Seq<int>,
    books: Seq<Seq<Seq<usize>>>,
) -> bool {
    &&& offs.len() == windows + 1
    &&& books.len() == windows
    &&& offs[0] == 0
    &&& forall|w: int| 0 <= w < windows ==> #[trigger] offs[w] < offs[w + 1]
    &&& forall|w: int| 0 <= w < windows ==> num_tokens - #[trigger] offs[w] > max_out
    &&& 0 <= offs[windows as int] <= num_tokens
    &&& num_tokens - offs[windows as int] <= max_out
    &&& forall|w: int|
        0 <= w < windows ==> window_post(
            ids,
            vocab,
            mcs,
            mst,
            max_out,
            eot,
            dset,
            all_codes,
            all_tables,
            #[trigger] books[w],
            offs[w],
            offs[w + 1],
            w,
        )
}

/// Compresses a whole token stream into full windows. Each window is exactly
/// `max_out_seq_length` compressed IDs paired with a serialized codebook
/// table of exactly `max_codebook_size * max_subtokens` IDs; windows are
/// produced only while more than one full window's worth of raw IDs remains
/// (the short tail is dropped, never compressed). The run yields `None` when
/// a window comes out short — the fixed-shape output format admits no
/// partial window — or when the stream holds an ID that is neither a
/// raw-vocabulary ID nor a disabled one.
#[verifier::loop_isolation(false)]
#[verifier::rlimit(100)]
pub fn compress_stream(
    ids: &Vec<usize>,
    num_tokens: usize,
    initial_vocab_size: usize,
    max_codebook_size: usize,
    max_subtokens: usize,
    max_out_seq_length: usize,
    eot_token_id: usize,
    disabled_ids: &fastset::Set,
) -> (r: Option<(Vec<usize>, Vec<usize>, usize, Ghost<(Seq<int>, Seq<Seq<Seq<usize>>>)>)>)
    requires
        num_tokens <= ids@.len(),
        max_subtokens >= 1,
        max_out_seq_length >= 2,
        initial_vocab_size + max_codebook_size <= usize::MAX,
        max_codebook_size * max_subtokens <= usize::MAX,
        eot_token_id < initial_vocab_size,
    ensures
        (forall|k: int|
            0 <= k < num_tokens ==> (#[trigger] ids@[k]) < initial_vocab_size || set_contents(
                *disabled_ids,
            ).contains(ids@[k])) && num_tokens <= max_out_seq_length ==> r is Some,
        (forall|k: int|
            0 <= k < num_tokens ==> (#[trigger] ids@[k]) < initial_vocab_size || set_contents(
                *disabled_ids,
            ).contains(ids@[k])) && num_tokens > max_out_seq_length ==> (r matches Some(out)
            ==> out.2 >= 1),
        r matches Some(out) ==> out.0@.len() == out.2 * max_out_seq_length,
        r matches Some(out) ==> out.1@.len() == out.2 * (max_codebook_size * max_subtokens),
        r matches Some(out) ==> out.2 <= num_tokens,
        num_tokens <= max_out_seq_length ==> (r matches Some(out) ==> out.2 == 0),
        r matches Some(out) ==> stream_post(
            ids@,
            num_tokens as int,
            initial_vocab_size as int,
            max_codebook_size as int,
            max_subtokens as int,
            max_out_seq_length as int,
            eot_token_id,
            set_contents(*disabled_ids),
            out.0@,
            out.1@,
            out.2 as int,
            out.3@.0,
            out.3@.1,
        ),
{
    if !ids_compressible(ids, 0, num_tokens, initial_vocab_size, disabled_ids) {
        return None;
    }
    let ghost vocab = initial_vocab_size as int;
    let ghost dset = set_contents(*disabled_ids);
    let ghost tbl: int = (max_codebook_size * max_subtokens) as int;
    let mut compressed_ids: Vec<usize> = Vec::new();
    let mut codebook_tables: Vec<usize> = Vec::new();
    let mut windows: usize = 0;
    let mut i: usize = 0;
    let ghost mut offs: Seq<int> = seq![0int];
    let ghost mut books: Seq<Seq<Seq<usize>>> = Seq::empty();

    while i < num_tokens && num_tokens - i > max_out_seq_length
        invariant
            i <= num_tokens,
            windows <= i,
            compressed_ids@.len() == windows * max_out_seq_length,
            codebook_tables@.len() == windows * tbl,
            num_tokens <= max_out_seq_length ==> windows == 0,
            windows == 0 ==> i == 0,
            offs.len() == windows + 1,
            books.len() == windows as int,
            offs[0] == 0,
            offs[windows as int] == i as int,
            forall|w: int| 0 <= w < windows ==> #[trigger] offs[w] < offs[w + 1],
            forall|w: int|
                0 <= w < windows ==> num_tokens - #[trigger] offs[w] > max_out_seq_length,
            forall|w: int| 0 <= w <= windows ==> 0 <= #[trigger] offs[w] <= i,
            forall|w: int|
                0 <= w < windows ==> window_post(
                    ids@,
                    vocab,
                    max_codebook_size as int,
                    max_subtokens as int,
                    max_out_seq_length as int,
                    eot_token_id,
                    dset,
                    compressed_ids@,
                    codebook_tables@,
                    #[trigger] books[w],
                    offs[w],
                    offs[w + 1],
                    w,
                ),
        decreases num_tokens - i,
    {
        let ghost w0 = windows as int;
        let ghost codes0 = compressed_ids@;
        let ghost tables0 = codebook_tables@;
        let (mut c_ids, book, consumed) = compress(
            ids,
            i,
            num_tokens,
            initial_vocab_size,
            max_codebook_size,
            max_subtokens,
            max_out_seq_length,
            eot_token_id,
            disabled_ids,
        );
        if c_ids.len() != max_out_seq_length {
            return None;
        }
        let ghost cw = c_ids@;
        let mut table = book.serialize(eot_token_id);
        let ghost tw = table@;
        proof {
            assert((windows + 1) * max_out_seq_length == windows * max_out_seq_length
                + max_out_seq_length) by (nonlinear_arith);
            assert((windows + 1) * tbl == windows * tbl + tbl) by (nonlinear_arith);
        }
        compressed_ids.append(&mut c_ids);
        codebook_tables.append(&mut table);
        i += consumed;
        windows += 1;
        proof {
            offs = offs.push(i as int);
            books = books.push(book@);
            assert forall|w: int| 0 <= w < windows implies window_post(
                ids@,
                vocab,
                max_codebook_size as int,
                max_subtokens as int,
                max_out_seq_length as int,
                eot_token_id,
                dset,
                compressed_ids@,
                codebook_tables@,
                #[trigger] books[w],
                offs[w],
                offs[w + 1],
                w,
            ) by {
                assert((w + 1) * max_out_seq_length <= (w0 + 1) * max_out_seq_length)
                    by (nonlinear_arith)
                    requires
                        w + 1 <= w0 + 1,
                        max_out_seq_length >= 0,
                ;
                assert((w + 1) * tbl <= (w0 + 1) * tbl) by (nonlinear_arith)
                    requires
                        w + 1 <= w0 + 1,
                        tbl >= 0,
                ;
                assert(0 <= w * max_out_seq_length && 0 <= w * tbl) by (nonlinear_arith)
                    requires
                        w >= 0,
                        max_out_seq_length >= 0,
                        tbl >= 0,
                ;
                assert((w + 1) * max_out_seq_length == w * max_out_seq_length
                    + max_out_seq_length) by (nonlinear_arith);
                assert((w + 1) * tbl == w * tbl + tbl) by (nonlinear_arith);
                if w < w0 {
                    assert((w + 1) * max_out_seq_length <= w0 * max_out_seq_length)
                        by (nonlinear_arith)
                        requires
                            w + 1 <= w0,
                            max_out_seq_length >= 0,
                    ;
                    assert((w + 1) * tbl <= w0 * tbl) by (nonlinear_arith)
                        requires
                            w + 1 <= w0,
                            tbl >= 0,
                    ;
                    assert(compressed_ids@.subrange(
                        w * max_out_seq_length,
                        (w + 1) * max_out_seq_length,
                    ) =~= codes0.subrange(w * max_out_seq_length, (w + 1) * max_out_seq_length));
                    assert(codebook_tables@.subrange(w * tbl, (w + 1) * tbl) =~= tables0.subrange(
                        w * tbl,
                        (w + 1) * tbl,
                    ));
                } else {
                    assert(w == w0);
                    assert((w0 + 1) * max_out_seq_length == w0 * max_out_seq_length
                        + max_out_seq_length) by (nonlinear_arith);
                    assert((w0 + 1) * tbl == w0 * tbl + tbl) by (nonlinear_arith);
                    assert(compressed_ids@.subrange(
                        w0 * max_out_seq_length,
                        (w0 + 1) * max_out_seq_length,
                    ) =~= cw);
                    assert(codebook_tables@.subrange(w0 * tbl, (w0 + 1) * tbl) =~= tw);
                }
            };
        }
    }
    proof {
        assert(stream_post(
            ids@,
            num_tokens as int,
            vocab,
            max_codebook_size as int,
            max_subtokens as int,
            max_out_seq_length as int,
            eot_token_id,
            dset,
            compressed_ids@,
            codebook_tables@,
            windows as int,
            offs,
            books,
        ));
    }
    Some((compressed_ids, codebook_tables, windows, Ghost((offs, books))))
}

} // verus!
