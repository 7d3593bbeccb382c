//! The mathematical model of the codec: what a compressed ID denotes given a
//! window's codebook, how a compressed sequence decodes back to raw IDs, and
//! the padding operator used to serialize codebook tables.

use vstd::prelude::*;

verus! {

/// What one compressed ID stands for, given a window's codebook and the raw
/// vocabulary size: an ID below `vocab` stands for itself, a substitute ID
/// for the phrase registered under it.
pub open spec fn expand_one(book: Seq<Seq<usize>>, vocab: int, c: usize) -> Seq<usize> {
    if (c as int) < vocab {
        seq![c]
    } else if c - vocab < book.len() {
        book[c - vocab]
    } else {
        Seq::<usize>::empty()
    }
}

/// A compressed ID that the codebook can make sense of: a raw ID, or a
/// substitute ID with a registered phrase.
pub open spec fn valid_code(book: Seq<Seq<usize>>, vocab: int, c: usize) -> bool {
    (c as int) < vocab || c - vocab < book.len()
}

/// The raw-ID sequence that a compressed sequence denotes: each compressed ID
/// replaced by the phrase it stands for.
pub open spec fn decode_ids(book: Seq<Seq<usize>>, vocab: int, codes: Seq<usize>) -> Seq<usize>
    decreases codes.len(),
{
    if codes.len() == 0 {
        Seq::<usize>::empty()
    } else {
        expand_one(book, vocab, codes[0]) + decode_ids(book, vocab, codes.drop_first())
    }
}

/// Every ID of `ids` in `[lo, hi)` is a raw-vocabulary ID.
pub open spec fn all_raw(ids: Seq<usize>, lo: int, hi: int, vocab: int) -> bool {
    forall|k: int| lo <= k < hi ==> (#[trigger] ids[k] as int) < vocab
}

/// How often `x` occurs in `s`.
pub open spec fn count_of(s: Seq<usize>, x: usize) -> nat
    decreases s.len(),
{
    if s.len() == 0 {
        0
    } else {
        (if s[0] == x {
            1nat
        } else {
            0nat
        }) + count_of(s.drop_first(), x)
    }
}

/// A phrase slot padded on the right with `fill` up to `n` entries; a slot
/// already that long is left as it is.
pub open spec fn pad_phrase(p: Seq<usize>, n: int, fill: usize) -> Seq<usize> {
    if p.len() >= n {
        p
    } else {
        p + Seq::new((n - p.len()) as nat, |j: int| fill)
    }
}

/// The ID that belongs at slot `(k, j)` of a serialized codebook table:
/// phrase entry where one exists, the padding `fill` everywhere else.
pub open spec fn table_slot(book: Seq<Seq<usize>>, fill: usize, k: int, j: int) -> usize {
    if k < book.len() && j < book[k].len() {
        book[k][j]
    } else {
        fill
    }
}

pub proof fn lemma_decode_push(book: Seq<Seq<usize>>, vocab: int, codes: Seq<usize>, c: usize)
    ensures
        decode_ids(book, vocab, codes.push(c)) == decode_ids(book, vocab, codes) + expand_one(
            book,
            vocab,
            c,
        ),
    decreases codes.len(),
{
    if codes.len() == 0 {
        assert(codes.push(c)[0] == c);
        assert(codes =~= Seq::<usize>::empty());
        assert(codes.push(c).drop_first() =~= Seq::<usize>::empty());
        assert(decode_ids(book, vocab, Seq::<usize>::empty()) =~= Seq::<usize>::empty());
        assert(decode_ids(book, vocab, codes.push(c)) =~= decode_ids(book, vocab, codes)
            + expand_one(book, vocab, c));
    } else {
        let a = expand_one(book, vocab, codes[0]);
        let b = decode_ids(book, vocab, codes.drop_first());
        let e = expand_one(book, vocab, c);
        assert(codes.push(c)[0] == codes[0]);
        assert(codes.push(c).drop_first() =~= codes.drop_first().push(c));
        lemma_decode_push(book, vocab, codes.drop_first(), c);
        assert(decode_ids(book, vocab, codes.push(c)) == a + (b + e));
        assert(decode_ids(book, vocab, codes) == a + b);
        assert(a + (b + e) =~= (a + b) + e);
    }
}

/// Growing the codebook does not change what already-valid compressed IDs
/// decode to.
pub proof fn lemma_decode_book_grow(
    book: Seq<Seq<usize>>,
    p: Seq<usize>,
    vocab: int,
    codes: Seq<usize>,
)
    requires
        forall|k: int| 0 <= k < codes.len() ==> valid_code(book, vocab, #[trigger] codes[k]),
    ensures
        decode_ids(book.push(p), vocab, codes) == decode_ids(book, vocab, codes),
    decreases codes.len(),
{
    if codes.len() > 0 {
        assert(valid_code(book, vocab, codes[0]));
        assert(expand_one(book.push(p), vocab, codes[0]) == expand_one(book, vocab, codes[0]));
        assert(forall|k: int|
            0 <= k < codes.drop_first().len() ==> valid_code(
                book,
                vocab,
                #[trigger] codes.drop_first()[k],
            ));
        lemma_decode_book_grow(book, p, vocab, codes.drop_first());
    }
}

pub proof fn lemma_count_append(a: Seq<usize>, b: Seq<usize>, x: usize)
    ensures
        count_of(a + b, x) == count_of(a, x) + count_of(b, x),
    decreases a.len(),
{
    if a.len() == 0 {
        assert(a + b =~= b);
    } else {
        assert((a + b)[0] == a[0]);
        assert((a + b).drop_first() =~= a.drop_first() + b);
        lemma_count_append(a.drop_first(), b, x);
    }
}

pub proof fn lemma_count_zero(s: Seq<usize>, x: usize)
    requires
        forall|j: int| 0 <= j < s.len() ==> s[j] != x,
    ensures
        count_of(s, x) == 0,
    decreases s.len(),
{
    if s.len() > 0 {
        lemma_count_zero(s.drop_first(), x);
    }
}

pub proof fn lemma_count_single(c: usize, x: usize)
    ensures
        count_of(seq![c], x) == (if c == x {
            1nat
        } else {
            0nat
        }),
{
    assert(seq![c].len() == 1);
    assert(seq![c][0] == c);
    assert(seq![c].drop_first() =~= Seq::<usize>::empty());
    lemma_count_zero(seq![c].drop_first(), x);
}

/// Law: a disabled/boundary-marker ID is never merged into a phrase, so it
/// occurs in the decoded raw stream exactly as often as in the compressed
/// stream — compression passes each of its occurrences through unchanged.
pub proof fn lemma_disabled_passthrough(
    book: Seq<Seq<usize>>,
    vocab: int,
    codes: Seq<usize>,
    d: usize,
)
    requires
        (d as int) < vocab,
        forall|k: int, j: int|
            0 <= k < book.len() && 0 <= j < book[k].len() ==> #[trigger] book[k][j] != d,
    ensures
        count_of(decode_ids(book, vocab, codes), d) == count_of(codes, d),
    decreases codes.len(),
{
    if codes.len() > 0 {
        let c = codes[0];
        let chunk = expand_one(book, vocab, c);
        lemma_count_append(chunk, decode_ids(book, vocab, codes.drop_first()), d);
        lemma_disabled_passthrough(book, vocab, codes.drop_first(), d);
        if (c as int) < vocab {
            lemma_count_single(c, d);
        } else {
            assert(c != d);
            assert(forall|j: int| 0 <= j < chunk.len() ==> chunk[j] != d);
            lemma_count_zero(chunk, d);
        }
    }
}

/// What fills a target up to a remainder is a prefix of that target.
pub proof fn lemma_sum_prefix(a: Seq<usize>, m: Seq<usize>, b: Seq<usize>)
    requires
        a + m == b,
    ensures
        a.is_prefix_of(b),
{
    assert(a =~= b.subrange(0, a.len() as int));
}

/// Extending the reference stream keeps an existing prefix a prefix.
pub proof fn lemma_prefix_extend(a: Seq<usize>, b: Seq<usize>, c: Seq<usize>)
    requires
        a.is_prefix_of(b),
    ensures
        a.is_prefix_of(b + c),
{
    assert(a =~= (b + c).subrange(0, a.len() as int));
}

/// Law: padding is idempotent — a fully padded phrase slot pads to itself, so
/// re-serializing a padded codebook table yields a table of the same exact
/// shape.
pub proof fn lemma_pad_idempotent(p: Seq<usize>, n: int, fill: usize)
    ensures
        pad_phrase(pad_phrase(p, n, fill), n, fill) == pad_phrase(p, n, fill),
{
}

} // verus!
