//! The window-local codebook: a capacity-bounded, append-only mapping from
//! phrases (ordered sequences of raw token IDs) to substitute IDs. Entry `k`
//! holds the phrase registered under substitute ID `initial_vocab_size + k`;
//! single raw IDs are implicitly self-mapped and never stored.

use vstd::prelude::*;

verus! {

pub struct Codebook {
    phrases: Vec<Vec<usize>>,
    initial_vocab_size: usize,
    max_codebook_size: usize,
    max_subtokens: usize,
}

/// Element-by-element comparison of two ID vectors.
#[verifier::loop_isolation(false)]
fn ids_eq(a: &Vec<usize>, b: &Vec<usize>) -> (r: bool)
    ensures
        r == (a@ == b@),
{
    if a.len() != b.len() {
        assert(a@ != b@);
        return false;
    }
    let mut k: usize = 0;
    while k < a.len()
        invariant
            k <= a@.len(),
            a@.len() == b@.len(),
            forall|j: int| 0 <= j < k ==> a@[j] == b@[j],
        decreases a@.len() - k,
    {
        if a[k] != b[k] {
            assert(a@ != b@);
            return false;
        }
        k += 1;
    }
    assert(a@ =~= b@);
    true
}

/// A fresh copy of an ID vector.
#[verifier::loop_isolation(false)]
fn clone_ids(a: &Vec<usize>) -> (r: Vec<usize>)
    ensures
        r@ == a@,
{
    let mut r: Vec<usize> = Vec::new();
    let mut k: usize = 0;
    while k < a.len()
        invariant
            k <= a@.len(),
            r@ == a@.subrange(0, k as int),
        decreases a@.len() - k,
    {
        r.push(a[k]);
        assert(r@ =~= a@.subrange(0, k + 1 as int));
        k += 1;
    }
    assert(r@ =~= a@);
    r
}

impl View for Codebook {
    type V = Seq<Seq<usize>>;

    /// The stored phrases, in substitute-ID assignment order.
    closed spec fn view(&self) -> Seq<Seq<usize>> {
        self.phrases@.map_values(|p: Vec<usize>| p@)
    }
}

impl Codebook {
    /// Raw-vocabulary size: IDs below it stand for themselves.
    pub closed spec fn vocab(&self) -> int {
        self.initial_vocab_size as int
    }

    /// How many phrases the codebook will ever admit.
    pub closed spec fn capacity(&self) -> int {
        self.max_codebook_size as int
    }

    /// The longest phrase the codebook will ever admit.
    pub closed spec fn phrase_cap(&self) -> int {
        self.max_subtokens as int
    }

    pub open spec fn wf(&self) -> bool {
        &&& self@.len() <= self.capacity()
        &&& forall|k: int| 0 <= k < self@.len() ==> 1 <= (#[trigger] self@[k]).len() <= self.phrase_cap()
        &&& forall|j: int, k: int| 0 <= j < k < self@.len() ==> self@[j] != self@[k]
    }

    /// A phrase the codebook can already encode: a single raw ID encodes as
    /// itself, a longer phrase only if it is stored.
    pub open spec fn contains_spec(&self, p: Seq<usize>) -> bool {
        if p.len() == 1 {
            (p[0] as int) < self.vocab()
        } else {
            exists|k: int| 0 <= k < self@.len() && self@[k] == p
        }
    }

    pub fn new(initial_vocab_size: usize, max_codebook_size: usize, max_subtokens: usize) -> (book:
        Codebook)
        ensures
            book.wf(),
            book@.len() == 0,
            book.vocab() == initial_vocab_size,
            book.capacity() == max_codebook_size,
            book.phrase_cap() == max_subtokens,
    {
        Codebook { phrases: Vec::new(), initial_vocab_size, max_codebook_size, max_subtokens }
    }

    /// How many phrases are stored.
    pub fn len(&self) -> (n: usize)
        ensures
            n == self@.len(),
    {
        self.phrases.len()
    }

    #[verifier::loop_isolation(false)]
    pub fn contains(&self, ids: &Vec<usize>) -> (r: bool)
        requires
            self.wf(),
            ids@.len() >= 1,
        ensures
            r == self.contains_spec(ids@),
    {
        if ids.len() == 1 {
            ids[0] < self.initial_vocab_size
        } else {
            let mut k: usize = 0;
            while k < self.phrases.len()
                invariant
                    k <= self@.len(),
                    forall|j: int| 0 <= j < k ==> self@[j] != ids@,
                decreases self@.len() - k,
            {
                if ids_eq(&self.phrases[k], ids) {
                    assert(self@[k as int] == ids@);
                    return true;
                }
                k += 1;
            }
            false
        }
    }

    /// The substitute (or self) ID a contained phrase encodes as.
    #[verifier::loop_isolation(false)]
    pub fn lookup(&self, ids: &Vec<usize>) -> (r: usize)
        requires
            self.wf(),
            ids@.len() >= 1,
            self.contains_spec(ids@),
            self.vocab() + self.capacity() <= usize::MAX,
        ensures
            ids@.len() == 1 ==> r == ids@[0],
            ids@.len() != 1 ==> self.vocab() <= r < self.vocab() + self@.len() && self@[r
                - self.vocab()] == ids@,
    {
        if ids.len() == 1 {
            ids[0]
        } else {
            let mut k: usize = 0;
            while k < self.phrases.len()
                invariant
                    k <= self@.len(),
                    forall|j: int| 0 <= j < k ==> self@[j] != ids@,
                decreases self@.len() - k,
            {
                if ids_eq(&self.phrases[k], ids) {
                    assert(self@[k as int] == ids@);
                    return self.initial_vocab_size + k;
                }
                k += 1;
            }
            proof {
                let w = choose|j: int| 0 <= j < self@.len() && self@[j] == ids@;
                assert(self@[w] != ids@);
            }
            0
        }
    }

    /// Registers a phrase not yet stored, while there is capacity: inserts it
    /// and returns its fresh substitute ID, or refuses silently when the
    /// codebook is full.
    #[verifier::loop_isolation(false)]
    pub fn try_insert(&mut self, ids: &Vec<usize>) -> (r: Option<usize>)
        requires
            old(self).wf(),
            1 <= ids@.len() <= old(self).phrase_cap(),
            forall|k: int| 0 <= k < old(self)@.len() ==> old(self)@[k] != ids@,
            old(self).vocab() + old(self).capacity() <= usize::MAX,
        ensures
            final(self).wf(),
            final(self).vocab() == old(self).vocab(),
            final(self).capacity() == old(self).capacity(),
            final(self).phrase_cap() == old(self).phrase_cap(),
            old(self)@.len() < old(self).capacity() ==> final(self)@ == old(self)@.push(ids@) && r
                == Some((old(self).vocab() + old(self)@.len()) as usize),
            old(self)@.len() >= old(self).capacity() ==> final(self)@ == old(self)@ && r is None,
    {
        if self.phrases.len() < self.max_codebook_size {
            let id = self.initial_vocab_size + self.phrases.len();
            let copy = clone_ids(ids);
            self.phrases.push(copy);
            assert(self@ =~= old(self)@.push(ids@));
            Some(id)
        } else {
            None
        }
    }

    /// The flat serialized table: exactly `capacity` phrase slots of exactly
    /// `phrase_cap` IDs each, phrases in substitute-ID order, each slot and
    /// the unused table tail padded with `fill` (the boundary marker).
    #[verifier::loop_isolation(false)]
    pub fn serialize(&self, fill: usize) -> (table: Vec<usize>)
        requires
            self.wf(),
            self.capacity() * self.phrase_cap() <= usize::MAX,
        ensures
            table@.len() == self.capacity() * self.phrase_cap(),
            forall|k: int, j: int|
                0 <= k < self.capacity() && 0 <= j < self.phrase_cap() ==> table@[k
                    * self.phrase_cap() + j] == #[trigger] crate::model::table_slot(
                    self@,
                    fill,
                    k,
                    j,
                ),
    {
        let mut table: Vec<usize> = Vec::new();
        let mut k: usize = 0;
        while k < self.max_codebook_size
            invariant
                k <= self.capacity(),
                table@.len() == k * self.phrase_cap(),
                forall|k2: int, j: int|
                    0 <= k2 < k && 0 <= j < self.phrase_cap() ==> table@[k2 * self.phrase_cap() + j]
                        == #[trigger] crate::model::table_slot(self@, fill, k2, j),
            decreases self.capacity() - k,
        {
            proof {
                assert((k + 1) * self.phrase_cap() == k * self.phrase_cap() + self.phrase_cap())
                    by (nonlinear_arith);
                assert((k + 1) * self.phrase_cap() <= self.capacity() * self.phrase_cap())
                    by (nonlinear_arith)
                    requires
                        0 <= k + 1 <= self.capacity(),
                        self.phrase_cap() >= 0,
                ;
            }
            let mut j: usize = 0;
            while j < self.max_subtokens
                invariant
                    k < self.capacity(),
                    j <= self.phrase_cap(),
                    k * self.phrase_cap() + self.phrase_cap() <= usize::MAX,
                    table@.len() == k * self.phrase_cap() + j,
                    forall|k2: int, j2: int|
                        0 <= k2 < k && 0 <= j2 < self.phrase_cap() ==> table@[k2 * self.phrase_cap()
                            + j2] == #[trigger] crate::model::table_slot(self@, fill, k2, j2),
                    forall|j2: int|
                        0 <= j2 < j ==> table@[k * self.phrase_cap() + j2]
                            == #[trigger] crate::model::table_slot(self@, fill, k as int, j2),
                decreases self.phrase_cap() - j,
            {
                if k < self.phrases.len() && j < self.phrases[k].len() {
                    let v = self.phrases[k][j];
                    assert(self@[k as int] == self.phrases@[k as int]@);
                    table.push(v);
                } else {
                    assert(k < self@.len() ==> self@[k as int] == self.phrases@[k as int]@);
                    table.push(fill);
                }
                proof {
                    assert forall|k2: int, j2: int|
                        0 <= k2 < k && 0 <= j2 < self.phrase_cap() implies table@[k2
                        * self.phrase_cap() + j2] == #[trigger] crate::model::table_slot(
                        self@,
                        fill,
                        k2,
                        j2,
                    ) by {
                        assert(k2 * self.phrase_cap() + self.phrase_cap() <= k * self.phrase_cap())
                            by (nonlinear_arith)
                            requires
                                0 <= k2 < k,
                                0 <= self.phrase_cap(),
                        ;
                    };
                }
                j += 1;
            }
            k += 1;
        }
        table
    }

    /// The serialized table as phrase rows: exactly `capacity` rows, each the
    /// corresponding phrase (or an unused slot) padded with `fill` to exactly
    /// `phrase_cap` IDs.
    #[verifier::loop_isolation(false)]
    pub fn serialize_rows(&self, fill: usize) -> (rows: Vec<Vec<usize>>)
        requires
            self.wf(),
        ensures
            rows@.len() == self.capacity(),
            forall|k: int|
                0 <= k < self.capacity() ==> (#[trigger] rows@[k])@ == crate::model::pad_phrase(
                    if k < self@.len() {
                        self@[k]
                    } else {
                        Seq::<usize>::empty()
                    },
                    self.phrase_cap(),
                    fill,
                ),
    {
        let mut rows: Vec<Vec<usize>> = Vec::new();
        let mut k: usize = 0;
        while k < self.max_codebook_size
            invariant
                k <= self.capacity(),
                rows@.len() == k,
                forall|k2: int|
                    0 <= k2 < k ==> (#[trigger] rows@[k2])@ == crate::model::pad_phrase(
                        if k2 < self@.len() {
                            self@[k2]
                        } else {
                            Seq::<usize>::empty()
                        },
                        self.phrase_cap(),
                        fill,
                    ),
            decreases self.capacity() - k,
        {
            let ghost base: Seq<usize> = if k < self@.len() {
                self@[k as int]
            } else {
                Seq::<usize>::empty()
            };
            let mut row: Vec<usize> = Vec::new();
            let mut j: usize = 0;
            while j < self.max_subtokens
                invariant
                    k < self.capacity(),
                    j <= self.phrase_cap(),
                    base == (if k < self@.len() {
                        self@[k as int]
                    } else {
                        Seq::<usize>::empty()
                    }),
                    base.len() <= self.phrase_cap(),
                    row@.len() == j,
                    forall|j2: int|
                        0 <= j2 < j ==> row@[j2] == (if j2 < base.len() {
                            base[j2]
                        } else {
                            fill
                        }),
                decreases self.phrase_cap() - j,
            {
                if k < self.phrases.len() && j < self.phrases[k].len() {
                    let v = self.phrases[k][j];
                    assert(self@[k as int] == self.phrases@[k as int]@);
                    row.push(v);
                } else {
                    assert(k < self@.len() ==> self@[k as int] == self.phrases@[k as int]@);
                    row.push(fill);
                }
                j += 1;
            }
            assert(row@ =~= crate::model::pad_phrase(base, self.phrase_cap(), fill));
            rows.push(row);
            k += 1;
        }
        rows
    }
}

} // verus!
