//! Canonical ordering of combinations: a verified insertion sort over vectors
//! of numbers, and the lemmas that tie sortedness to multisets.

use vstd::prelude::*;

use crate::model::is_sorted_u8;

verus! {

broadcast use vstd::seq_lib::group_to_multiset_ensures;

/// Insert `x` into the sorted vector `v`, keeping it sorted.
fn sorted_insert(v: Vec<u8>, x: u8) -> (r: Vec<u8>)
    requires
        is_sorted_u8(v@),
    ensures
        is_sorted_u8(r@),
        r@.to_multiset() == v@.to_multiset().insert(x),
        r@.len() == v@.len() + 1,
{
    let ghost orig = v@;
    let mut v = v;
    let mut idx: usize = 0;
    while idx < v.len() && v[idx] <= x
        invariant
            v@ == orig,
            is_sorted_u8(v@),
            idx <= v@.len(),
            forall|k: int| 0 <= k < idx ==> v@[k] <= x,
        decreases v@.len() - idx,
    {
        idx += 1;
    }
    proof {
        vstd::seq_lib::to_multiset_insert(v@, idx as int, x);
    }
    let ghost before = v@;
    v.insert(idx, x);
    proof {
        assert forall|i: int, j: int| #![trigger v@[i], v@[j]] 0 <= i < j < v@.len() implies v@[i]
            <= v@[j] by {
            if j < idx {
                assert(v@[i] == before[i] && v@[j] == before[j]);
            } else if i > idx {
                assert(v@[i] == before[i - 1] && v@[j] == before[j - 1]);
            } else if i < idx && j == idx {
                assert(v@[i] == before[i] && v@[j] == x);
            } else if i == idx && j > idx {
                assert(v@[i] == x && v@[j] == before[j - 1]);
                assert(before[idx as int] <= before[j - 1]);
            } else {
                assert(i < idx && j > idx);
                assert(v@[i] == before[i] && v@[j] == before[j - 1]);
            }
        }
    }
    v
}

/// Reorder the numbers of `v` into non-decreasing order. The result is the
/// canonical form: same multiset of values, sorted.
pub fn sort_numbers(v: &Vec<u8>) -> (r: Vec<u8>)
    ensures
        is_sorted_u8(r@),
        r@.to_multiset() == v@.to_multiset(),
        r@.len() == v@.len(),
{
    let mut r: Vec<u8> = Vec::new();
    let mut i: usize = 0;
    while i < v.len()
        invariant
            i <= v@.len(),
            is_sorted_u8(r@),
            r@.to_multiset() == v@.subrange(0, i as int).to_multiset(),
            r@.len() == i,
        decreases v@.len() - i,
    {
        proof {
            assert(v@.subrange(0, i + 1 as int) =~= v@.subrange(0, i as int).push(v@[i as int]));
        }
        r = sorted_insert(r, v[i]);
        i += 1;
    }
    proof {
        assert(v@.subrange(0, v@.len() as int) =~= v@);
    }
    r
}

/// Two sorted sequences with the same multiset of values are the same
/// sequence: the canonical form of a combination is unique.
pub proof fn lemma_sorted_multiset_unique(a: Seq<u8>, b: Seq<u8>)
    requires
        is_sorted_u8(a),
        is_sorted_u8(b),
        a.to_multiset() == b.to_multiset(),
    ensures
        a == b,
{
    let leq = |x: u8, y: u8| x <= y;
    assert forall|x: u8| #[trigger] leq(x, x) by {}
    assert forall|x: u8, y: u8| #[trigger] leq(x, y) && #[trigger] leq(y, x) implies x == y by {}
    assert forall|x: u8, y: u8| !(#[trigger] leq(x, y)) implies leq(y, x) by {}
    assert(vstd::relations::total_ordering(leq));
    assert forall|i: int, j: int| 0 <= i < j < a.len() implies #[trigger] leq(a[i], a[j]) by {
        assert(a[i] <= a[j]);
    }
    assert forall|i: int, j: int| 0 <= i < j < b.len() implies #[trigger] leq(b[i], b[j]) by {
        assert(b[i] <= b[j]);
    }
    vstd::seq_lib::lemma_sorted_unique(a, b, leq);
    assert(a =~= b);
}

/// Every sequence of numbers has a canonical form: a sorted sequence with the
/// same multiset of values.
pub proof fn lemma_sorted_version_exists(s: Seq<u8>) -> (t: Seq<u8>)
    ensures
        is_sorted_u8(t),
        t.to_multiset() == s.to_multiset(),
{
    let leq = |x: u8, y: u8| x <= y;
    assert forall|x: u8| #[trigger] leq(x, x) by {}
    assert forall|x: u8, y: u8| #[trigger] leq(x, y) && #[trigger] leq(y, x) implies x == y by {}
    assert forall|x: u8, y: u8| !(#[trigger] leq(x, y)) implies leq(y, x) by {}
    assert(vstd::relations::total_ordering(leq));
    s.lemma_sort_by_ensures(leq);
    let t = s.sort_by(leq);
    assert forall|i: int, j: int| #![trigger t[i], t[j]] 0 <= i < j < t.len() implies t[i]
        <= t[j] by {
        assert(leq(t[i], t[j]));
    }
    t
}

/// Sequences with equal multisets hold the same values.
pub proof fn lemma_multiset_same_membership(a: Seq<u8>, b: Seq<u8>)
    requires
        a.to_multiset() == b.to_multiset(),
    ensures
        forall|x: u8| a.contains(x) <==> b.contains(x),
{
    assert forall|x: u8| a.contains(x) <==> b.contains(x) by {
        assert(a.contains(x) <==> a.to_multiset().count(x) > 0);
        assert(b.contains(x) <==> b.to_multiset().count(x) > 0);
    }
}

/// A reordering keeps freedom from duplicates.
pub proof fn lemma_multiset_no_duplicates(a: Seq<u8>, b: Seq<u8>)
    requires
        a.to_multiset() == b.to_multiset(),
        a.no_duplicates(),
    ensures
        b.no_duplicates(),
{
    a.lemma_multiset_has_no_duplicates();
    b.lemma_multiset_has_no_duplicates_conv();
}

/// Element-wise equality of two number vectors.
pub fn vecs_equal(a: &Vec<u8>, b: &Vec<u8>) -> (r: bool)
    ensures
        r == (a@ == b@),
{
    if a.len() != b.len() {
        return false;
    }
    let mut i: usize = 0;
    while i < a.len()
        invariant
            i <= a@.len(),
            a@.len() == b@.len(),
            forall|k: int| 0 <= k < i ==> a@[k] == b@[k],
        decreases a@.len() - i,
    {
        if a[i] != b[i] {
            return false;
        }
        i += 1;
    }
    proof {
        assert(a@ =~= b@);
    }
    true
}

/// Are all values in [1, 45] and pairwise distinct?
pub(crate) fn check_values(v: &Vec<u8>) -> (r: bool)
    ensures
        r == ((forall|i: int| 0 <= i < v@.len() ==> 1 <= #[trigger] v@[i] <= 45)
            && v@.no_duplicates()),
{
    let mut i: usize = 0;
    while i < v.len()
        invariant
            i <= v@.len(),
            forall|k: int| 0 <= k < i ==> 1 <= #[trigger] v@[k] <= 45,
        decreases v@.len() - i,
    {
        if v[i] < 1 || v[i] > 45 {
            return false;
        }
        i += 1;
    }
    let mut i: usize = 0;
    while i < v.len()
        invariant
            i <= v@.len(),
            forall|p: int, q: int| #![trigger v@[p], v@[q]] 0 <= p < i && p < q < v@.len()
                ==> v@[p] != v@[q],
        decreases v@.len() - i,
    {
        let mut j: usize = i + 1;
        while j < v.len()
            invariant
                i < j <= v@.len(),
                i < v@.len(),
                forall|q: int| i < q < j ==> v@[q] != #[trigger] v@[i as int],
            decreases v@.len() - j,
        {
            if v[i] == v[j] {
                return false;
            }
            j += 1;
        }
        i += 1;
    }
    true
}

/// Does the vector hold the value `x`?
pub fn contains_value(v: &Vec<u8>, x: u8) -> (r: bool)
    ensures
        r == v@.contains(x),
{
    let mut i: usize = 0;
    while i < v.len()
        invariant
            i <= v@.len(),
            forall|k: int| 0 <= k < i ==> v@[k] != x,
        decreases v@.len() - i,
    {
        if v[i] == x {
            return true;
        }
        i += 1;
    }
    false
}

} // verus!
