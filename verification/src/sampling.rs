//! The rejection sampler: candidates drawn at random, canonicalized, and kept
//! only when they are no first- or second-tier match of a historical draw and
//! no repeat within the batch.

use vstd::prelude::*;

use rand::seq::SliceRandom;

use crate::exclusion::ExclusionSet;
use crate::model::covers;
use crate::model::valid_combo;
use crate::model::valid_required;
use crate::model::is_sorted_u8;
use crate::sorting::check_values;
use crate::sorting::contains_value;
use crate::sorting::lemma_multiset_no_duplicates;
use crate::sorting::lemma_multiset_same_membership;
use crate::sorting::lemma_sorted_multiset_unique;
use crate::sorting::lemma_sorted_version_exists;
use crate::sorting::sort_numbers;
use crate::sorting::vecs_equal;

verus! {

/// Relies on rand's `SliceRandom::choose_multiple` (seeded by `thread_rng`):
/// it draws `min(k, pool.len())` elements of the slice at distinct positions,
/// without repetition, so with a duplicate-free pool the drawn values are
/// distinct and every one of them comes from the pool. Which elements come
/// out is left open: the draw is random.
#[verifier::external_body]
fn draw_distinct(pool: &Vec<u8>, k: usize) -> (r: Vec<u8>)
    requires
        pool@.no_duplicates(),
    ensures
        r@.len() == if k <= pool@.len() {
            k as int
        } else {
            pool@.len() as int
        },
        forall|i: int| 0 <= i < r@.len() ==> pool@.contains(#[trigger] r@[i]),
        r@.no_duplicates(),
{
    let mut rng = rand::thread_rng();
    pool.choose_multiple(&mut rng, k).cloned().collect()
}

/// A well-formed required set: one to six values, each in [1, 45], no repeats.
pub(crate) fn check_required(req: &Vec<u8>) -> (r: bool)
    ensures
        r == valid_required(req@),
{
    req.len() >= 1 && req.len() <= 6 && check_values(req)
}

/// The candidate pool: every number of [1, 45] that is not in `skip`, in
/// ascending order.
pub(crate) fn build_pool(skip: &Vec<u8>) -> (r: Vec<u8>)
    ensures
        r@.no_duplicates(),
        forall|i: int| 0 <= i < r@.len() ==> 1 <= #[trigger] r@[i] <= 45,
        forall|x: u8| r@.contains(x) <==> (1 <= x <= 45 && !skip@.contains(x)),
{
    let mut r: Vec<u8> = Vec::new();
    let mut n: u8 = 1;
    while n <= 45
        invariant
            1 <= n <= 46,
            forall|i: int, j: int| #![trigger r@[i], r@[j]] 0 <= i < j < r@.len() ==> r@[i] < r@[j],
            forall|i: int| 0 <= i < r@.len() ==> 1 <= #[trigger] r@[i] < n,
            forall|i: int| 0 <= i < r@.len() ==> !skip@.contains(#[trigger] r@[i]),
            forall|x: u8| 1 <= x < n && !skip@.contains(x) ==> r@.contains(x),
        decreases 46 - n,
    {
        if !contains_value(skip, n) {
            let ghost before = r@;
            r.push(n);
            proof {
                assert(r@[r@.len() - 1] == n);
                assert forall|x: u8| 1 <= x < n + 1 && !skip@.contains(x) implies r@.contains(
                    x,
                ) by {
                    if x < n {
                        let i = choose|i: int| 0 <= i < before.len() && before[i] == x;
                        assert(r@[i] == x);
                    } else {
                        assert(r@[r@.len() - 1] == x);
                    }
                }
            }
        }
        n += 1;
    }
    proof {
        assert forall|x: u8| r@.contains(x) implies (1 <= x <= 45 && !skip@.contains(x)) by {
            let i = choose|i: int| 0 <= i < r@.len() && r@[i] == x;
        }
    }
    r
}

/// Does the batch already hold this combination?
fn batch_contains(batch: &Vec<Vec<u8>>, c: &Vec<u8>) -> (r: bool)
    ensures
        r == exists|i: int| 0 <= i < batch@.len() && #[trigger] batch@[i]@ == c@,
{
    let mut i: usize = 0;
    while i < batch.len()
        invariant
            i <= batch@.len(),
            forall|k: int| 0 <= k < i ==> #[trigger] batch@[k]@ != c@,
        decreases batch@.len() - i,
    {
        if vecs_equal(&batch[i], c) {
            return true;
        }
        i += 1;
    }
    false
}

/// The rejection-sampling core, shared by the unconstrained and the
/// constrained entry points. Each attempt draws `6 - base.len()` numbers from
/// `pool`, joins them with `base`, sorts the result into canonical form, and
/// keeps it when it is a six-number combination outside the exclusion set and
/// not yet in the batch. The attempt budget is `count * 1000`; the batch that
/// was reached within it comes back, `count` entries or fewer.
///
/// With a full base of six numbers nothing is drawn, so the outcome is
/// determined: the base's canonical form itself is the only candidate, and
/// the batch holds it once when it is not excluded, nothing otherwise.
pub(crate) fn sample_batch(
    excl: &ExclusionSet,
    base: &Vec<u8>,
    pool: &Vec<u8>,
    count: usize,
) -> (r: Vec<Vec<u8>>)
    requires
        base@.no_duplicates(),
        pool@.no_duplicates(),
        forall|i: int| 0 <= i < base@.len() ==> 1 <= #[trigger] base@[i] <= 45,
        forall|i: int| 0 <= i < pool@.len() ==> 1 <= #[trigger] pool@[i] <= 45,
        forall|x: u8| pool@.contains(x) ==> !base@.contains(x),
        base@.len() <= 6,
        count <= usize::MAX / 1000,
    ensures
        r@.len() <= count,
        forall|i: int| 0 <= i < r@.len() ==> valid_combo(#[trigger] r@[i]@),
        forall|i: int| 0 <= i < r@.len() ==> !excl@.contains(#[trigger] r@[i]@),
        forall|i: int| 0 <= i < r@.len() ==> covers(#[trigger] r@[i]@, base@),
        forall|i: int, j: int| #![trigger r@[i], r@[j]] 0 <= i < j < r@.len() ==> r@[i]@ != r@[j]@,
        base@.len() == 6 ==> forall|c: Seq<u8>| #![trigger c.to_multiset()]
            is_sorted_u8(c) && c.to_multiset() == base@.to_multiset() ==> {
                &&& (excl@.contains(c) ==> r@.len() == 0)
                &&& (!excl@.contains(c) && count >= 1 ==> r@.len() == 1 && r@[0]@ == c)
            },
{
    let ghost canon = choose|c: Seq<u8>|
        is_sorted_u8(c) && c.to_multiset() == base@.to_multiset();
    proof {
        let t = lemma_sorted_version_exists(base@);
        assert(is_sorted_u8(t) && t.to_multiset() == base@.to_multiset());
        assert(is_sorted_u8(canon) && canon.to_multiset() == base@.to_multiset());
    }
    let needed: usize = 6 - base.len();
    let mut results: Vec<Vec<u8>> = Vec::new();
    let mut attempts: usize = 0;
    let max_attempts: usize = count * 1000;
    while results.len() < count && attempts < max_attempts
        invariant
            base@.no_duplicates(),
            pool@.no_duplicates(),
            forall|i: int| 0 <= i < base@.len() ==> 1 <= #[trigger] base@[i] <= 45,
            forall|i: int| 0 <= i < pool@.len() ==> 1 <= #[trigger] pool@[i] <= 45,
            forall|x: u8| pool@.contains(x) ==> !base@.contains(x),
            base@.len() <= 6,
            needed == 6 - base@.len(),
            attempts <= max_attempts,
            max_attempts == count * 1000,
            is_sorted_u8(canon),
            canon.to_multiset() == base@.to_multiset(),
            base@.len() == 6 ==> forall|i: int| #![trigger results@[i]]
                0 <= i < results@.len() ==> results@[i]@ == canon,
            base@.len() == 6 && !excl@.contains(canon) && attempts >= 1 ==> results@.len() >= 1,
            results@.len() <= count,
            forall|i: int| 0 <= i < results@.len() ==> valid_combo(#[trigger] results@[i]@),
            forall|i: int| 0 <= i < results@.len() ==> !excl@.contains(#[trigger] results@[i]@),
            forall|i: int| 0 <= i < results@.len() ==> covers(#[trigger] results@[i]@, base@),
            forall|i: int, j: int| #![trigger results@[i], results@[j]]
                0 <= i < j < results@.len() ==> results@[i]@ != results@[j]@,
        decreases max_attempts - attempts,
    {
        attempts += 1;

        // assemble one candidate: the base values plus a fresh random draw
        let mut selected: Vec<u8> = Vec::new();
        let mut b: usize = 0;
        while b < base.len()
            invariant
                b <= base@.len(),
                selected@ == base@.subrange(0, b as int),
            decreases base@.len() - b,
        {
            selected.push(base[b]);
            proof {
                assert(selected@ =~= base@.subrange(0, b + 1 as int));
            }
            b += 1;
        }
        proof {
            assert(selected@ =~= base@);
        }
        let mut additional = draw_distinct(pool, needed);
        let ghost add = additional@;
        selected.append(&mut additional);
        proof {
            assert(selected@ == base@ + add);
            assert forall|i: int, j: int| #![trigger selected@[i], selected@[j]]
                0 <= i < selected@.len() && 0 <= j < selected@.len() && i != j implies selected@[i]
                != selected@[j] by {
                let bl = base@.len() as int;
                if i < bl && j < bl {
                    assert(selected@[i] == base@[i] && selected@[j] == base@[j]);
                } else if i >= bl && j >= bl {
                    assert(selected@[i] == add[i - bl] && selected@[j] == add[j - bl]);
                } else if i < bl && j >= bl {
                    assert(selected@[j] == add[j - bl]);
                    assert(pool@.contains(add[j - bl]));
                    assert(base@.contains(base@[i]));
                } else {
                    assert(selected@[i] == add[i - bl]);
                    assert(pool@.contains(add[i - bl]));
                    assert(base@.contains(base@[j]));
                }
            }
        }
        let candidate = sort_numbers(&selected);
        proof {
            lemma_multiset_no_duplicates(selected@, candidate@);
            lemma_multiset_same_membership(selected@, candidate@);
            assert forall|i: int| 0 <= i < candidate@.len() implies 1 <= #[trigger] candidate@[i]
                <= 45 by {
                let x = candidate@[i];
                assert(candidate@.contains(x));
                assert(selected@.contains(x));
                let q = choose|q: int| 0 <= q < selected@.len() && selected@[q] == x;
                let bl = base@.len() as int;
                if q < bl {
                    assert(x == base@[q]);
                } else {
                    assert(x == add[q - bl]);
                    assert(pool@.contains(x));
                    let p = choose|p: int| 0 <= p < pool@.len() && pool@[p] == x;
                }
            }
            assert forall|i: int, j: int| #![trigger candidate@[i], candidate@[j]]
                0 <= i < j < candidate@.len() implies candidate@[i] < candidate@[j] by {
                assert(candidate@[i] <= candidate@[j]);
                assert(candidate@[i] != candidate@[j]);
            }
            assert forall|q: int| 0 <= q < base@.len() implies candidate@.contains(
                #[trigger] base@[q],
            ) by {
                assert(selected@[q] == base@[q]);
                assert(selected@.contains(base@[q]));
            }
            if base@.len() == 6 {
                // nothing was drawn: the candidate is the base's canonical form
                assert(add.len() == 0);
                assert(selected@ =~= base@);
                assert(candidate@.to_multiset() == canon.to_multiset());
                lemma_sorted_multiset_unique(candidate@, canon);
                assert(candidate@ == canon);
                assert(candidate@.len() == 6);
            }
        }
        if candidate.len() == 6 {
            if !excl.contains(&candidate) {
                if !batch_contains(&results, &candidate) {
                    proof {
                        assert(valid_combo(candidate@));
                    }
                    let ghost before = results@;
                    results.push(candidate);
                    proof {
                        assert forall|i: int, j: int| #![trigger results@[i], results@[j]]
                            0 <= i < j < results@.len() implies results@[i]@ != results@[j]@ by {
                            if j < before.len() {
                                assert(results@[i] == before[i] && results@[j] == before[j]);
                            } else {
                                assert(results@[i] == before[i]);
                            }
                        }
                    }
                }
            }
        }
    }
    proof {
        if base@.len() == 6 {
            assert forall|c: Seq<u8>| #![trigger c.to_multiset()] is_sorted_u8(c)
                && c.to_multiset() == base@.to_multiset() implies {
                &&& (excl@.contains(c) ==> results@.len() == 0)
                &&& (!excl@.contains(c) && count >= 1 ==> results@.len() == 1 && results@[0]@ == c)
            } by {
                lemma_sorted_multiset_unique(c, canon);
                if excl@.contains(canon) && results@.len() >= 1 {
                    assert(results@[0]@ == canon);
                    assert(!excl@.contains(results@[0]@));
                    assert(false);
                }
                if !excl@.contains(canon) && count >= 1 {
                    if results@.len() < count {
                        assert(attempts == max_attempts);
                        assert(max_attempts >= 1000);
                        assert(results@.len() >= 1);
                    }
                    if results@.len() >= 2 {
                        assert(results@[0]@ == canon && results@[1]@ == canon);
                        assert(results@[0]@ != results@[1]@);
                        assert(false);
                    }
                    assert(results@.len() == 1);
                    assert(results@[0]@ == canon);
                }
            }
        }
    }
    results
}

} // verus!
