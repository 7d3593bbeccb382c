//! The never-merge (disabled) ID set, held in `fastset::Set`: IDs in it pass
//! through compression unchanged and force a flush of any in-progress phrase.
//! The set itself is an outside collection, used through trusted wrappers.

use vstd::prelude::*;

verus! {

#[verifier::external_type_specification]
#[verifier::external_body]
pub struct ExFastSet(fastset::Set);

/// The IDs a `fastset::Set` holds.
pub uninterp spec fn set_contents(s: fastset::Set) -> Set<usize>;

/// The largest value a `fastset::Set` accepts without growing: the `max`
/// field its constructor fixes.
pub uninterp spec fn set_limit(s: fastset::Set) -> usize;

/// Relies on fastset::Set::with_capacity: builds an empty set whose `max`
/// field (the largest storable value) is exactly `capacity`.
#[verifier::external_body]
fn set_with_capacity(capacity: usize) -> (s: fastset::Set)
    ensures
        set_contents(s) == Set::<usize>::empty(),
        set_limit(s) == capacity,
{
    fastset::Set::with_capacity(capacity)
}

/// Relies on fastset::Set::insert: a value not above the set's `max` field
/// takes the in-bounds path and is recorded; nothing else changes. The `max`
/// bound keeps the method's own `max + 1` comparison from overflowing.
#[verifier::external_body]
fn set_insert(s: &mut fastset::Set, value: usize)
    requires
        value <= set_limit(*old(s)),
        set_limit(*old(s)) < usize::MAX,
    ensures
        set_contents(*final(s)) == set_contents(*old(s)).insert(value),
        set_limit(*final(s)) == set_limit(*old(s)),
{
    s.insert(value);
}

/// Relies on fastset::Set::contains: reads the membership indicator, with a
/// bounds check that reports out-of-range values as absent.
#[verifier::external_body]
pub(crate) fn set_contains(s: &fastset::Set, value: usize) -> (r: bool)
    ensures
        r == set_contents(*s).contains(value),
{
    s.contains(&value)
}

/// Builds the disabled-ID set: every listed ID and nothing else, or the empty
/// set when no list is given.
#[verifier::loop_isolation(false)]
pub fn disabled_ids_to_set(disabled_ids: Option<Vec<usize>>) -> (s: fastset::Set)
    requires
        disabled_ids matches Some(d) ==> d@.len() >= 1 && forall|k: int|
            0 <= k < d@.len() ==> #[trigger] d@[k] < usize::MAX - 1,
    ensures
        disabled_ids matches Some(d) ==> set_contents(s) == d@.to_set(),
        disabled_ids is None ==> set_contents(s) == Set::<usize>::empty(),
{
    match disabled_ids {
        None => set_with_capacity(0),
        Some(d_ids) => {
            let mut max: usize = d_ids[0];
            let mut k: usize = 1;
            while k < d_ids.len()
                invariant
                    1 <= k <= d_ids@.len(),
                    exists|j: int| 0 <= j < k && max == d_ids@[j],
                    forall|j: int| 0 <= j < k ==> #[trigger] d_ids@[j] <= max,
                decreases d_ids@.len() - k,
            {
                if d_ids[k] > max {
                    max = d_ids[k];
                }
                k += 1;
            }
            let mut s = set_with_capacity(max + 1);
            let mut i: usize = 0;
            while i < d_ids.len()
                invariant
                    i <= d_ids@.len(),
                    set_limit(s) == max + 1,
                    max < usize::MAX - 1,
                    forall|j: int| 0 <= j < d_ids@.len() ==> #[trigger] d_ids@[j] <= max,
                    set_contents(s) == d_ids@.subrange(0, i as int).to_set(),
                decreases d_ids@.len() - i,
            {
                let ghost pre = d_ids@.subrange(0, i as int);
                set_insert(&mut s, d_ids[i]);
                proof {
                    assert(d_ids@.subrange(0, i + 1 as int) =~= pre.push(d_ids@[i as int]));
                    pre.lemma_push_to_set_commute(d_ids@[i as int]);
                }
                i += 1;
            }
            proof {
                assert(d_ids@.subrange(0, d_ids@.len() as int) =~= d_ids@);
            }
            s
        },
    }
}

} // verus!
