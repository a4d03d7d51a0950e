//! The exclusion set: every combination that an already-drawn result matches
//! in the first tier (the six main numbers) or the second tier (five main
//! numbers plus the bonus), and the laws such a set obeys.

use vstd::prelude::*;

use crate::model::DrawingModel;
use crate::model::combo_excluded;
use crate::model::combo_excluded_by;
use crate::model::exclusion_exact;
use crate::model::is_sorted_u8;
use crate::sorting::vecs_equal;

verus! {

/// A set of canonical combinations derived from a store. Held as a vector
/// without repeats; viewed as the set of its members. It is valid only for
/// the store state it was built from and is recomputed after any mutation.
pub struct ExclusionSet {
    combos: Vec<Vec<u8>>,
}

impl View for ExclusionSet {
    type V = Set<Seq<u8>>;

    closed spec fn view(&self) -> Set<Seq<u8>> {
        self.combos@.map_values(|c: Vec<u8>| c@).to_set()
    }
}

impl ExclusionSet {
    /// The empty exclusion set.
    pub(crate) fn new() -> (r: ExclusionSet)
        ensures
            r@ == Set::<Seq<u8>>::empty(),
    {
        let r = ExclusionSet { combos: Vec::new() };
        proof {
            assert(r@ =~= Set::<Seq<u8>>::empty());
        }
        r
    }

    /// Is the combination a member?
    pub fn contains(&self, c: &Vec<u8>) -> (r: bool)
        ensures
            r == self@.contains(c@),
    {
        let ghost members = self.combos@.map_values(|x: Vec<u8>| x@);
        let mut i: usize = 0;
        while i < self.combos.len()
            invariant
                i <= self.combos@.len(),
                members == self.combos@.map_values(|x: Vec<u8>| x@),
                forall|k: int| 0 <= k < i ==> members[k] != c@,
            decreases self.combos@.len() - i,
        {
            if vecs_equal(&self.combos[i], c) {
                proof {
                    assert(members[i as int] == c@);
                    assert(members.contains(c@));
                }
                return true;
            }
            i += 1;
        }
        proof {
            assert(!members.contains(c@));
        }
        false
    }

    /// Add a combination; adding a member again changes nothing. The set is
    /// derived from a store, so only the builder fills it.
    pub(crate) fn insert(&mut self, c: Vec<u8>)
        ensures
            final(self)@ == old(self)@.insert(c@),
    {
        let ghost members = self.combos@.map_values(|x: Vec<u8>| x@);
        if !self.contains(&c) {
            let ghost cv = c@;
            self.combos.push(c);
            proof {
                let members2 = self.combos@.map_values(|x: Vec<u8>| x@);
                assert(members2 =~= members.push(cv));
                assert forall|x: Seq<u8>| members2.contains(x) <==> (members.contains(x) || x
                    == cv) by {
                    if members2.contains(x) {
                        let i = choose|i: int| 0 <= i < members2.len() && members2[i] == x;
                        if i < members.len() {
                            assert(members[i] == x);
                        }
                    }
                    if members.contains(x) {
                        let i = choose|i: int| 0 <= i < members.len() && members[i] == x;
                        assert(members2[i] == x);
                    }
                    if x == cv {
                        assert(members2[members2.len() - 1] == x);
                    }
                }
                assert(final(self)@ =~= old(self)@.insert(cv));
            }
        } else {
            proof {
                assert(final(self)@ =~= old(self)@.insert(c@));
            }
        }
    }
}

/// Idempotence of exclusion-set construction: any two sets built from the
/// same, unmutated store have exactly the same members. Membership is a pure
/// function of the store's records.
pub proof fn lemma_exclusion_build_idempotent(
    s: Seq<DrawingModel>,
    e1: Set<Seq<u8>>,
    e2: Set<Seq<u8>>,
)
    requires
        exclusion_exact(s, e1),
        exclusion_exact(s, e2),
    ensures
        e1 == e2,
{
    assert(e1 =~= e2);
}

/// Completeness, first tier: for every record of the store, the canonical
/// (sorted) form of its six main numbers is in the exclusion set.
pub proof fn lemma_exclusion_has_main(s: Seq<DrawingModel>, e: Set<Seq<u8>>, k: int, c: Seq<u8>)
    requires
        exclusion_exact(s, e),
        0 <= k < s.len(),
        is_sorted_u8(c),
        c.to_multiset() == s[k].numbers.to_multiset(),
    ensures
        e.contains(c),
{
    assert(combo_excluded_by(s[k], c));
}

/// Completeness, second tier: for every record and every one of its six
/// positions, the canonical form of the main numbers with that position
/// replaced by the record's bonus is in the exclusion set.
pub proof fn lemma_exclusion_has_variant(
    s: Seq<DrawingModel>,
    e: Set<Seq<u8>>,
    k: int,
    i: int,
    c: Seq<u8>,
)
    requires
        exclusion_exact(s, e),
        0 <= k < s.len(),
        0 <= i < s[k].numbers.len(),
        is_sorted_u8(c),
        c.to_multiset() == s[k].numbers.update(i, s[k].bonus).to_multiset(),
    ensures
        e.contains(c),
{
    assert(combo_excluded_by(s[k], c));
}

/// Soundness: the exclusion set holds nothing beyond the first- and
/// second-tier matches of the store's records.
pub proof fn lemma_exclusion_only_matches(s: Seq<DrawingModel>, e: Set<Seq<u8>>, c: Seq<u8>)
    requires
        exclusion_exact(s, e),
        e.contains(c),
    ensures
        combo_excluded(s, c),
{
}

} // verus!
