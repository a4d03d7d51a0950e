//! The frequency analyzer: how often each number of [1, 45] occurred across
//! main numbers and bonus numbers, ranked ascending by count with ties broken
//! by ascending number.

use vstd::prelude::*;

use crate::engine::LotteryDrawing;
use crate::engine::models;
use crate::model::freq_le;
use crate::model::freq_of;
use crate::model::has_entry;
use crate::model::record_count;

verus! {

broadcast use vstd::seq_lib::group_to_multiset_ensures, vstd::multiset::group_multiset_axioms;

/// Frequency entries in ranking order: ascending count, ties by number.
pub(crate) open spec fn sorted_pairs(s: Seq<(u8, usize)>) -> bool {
    forall|i: int, j: int| #![trigger s[i], s[j]] 0 <= i < j < s.len() ==> freq_le(s[i], s[j])
}

/// Does `a` rank at or before `b`: lower count, or the same count and a
/// number no larger?
fn pair_le(a: (u8, usize), b: (u8, usize)) -> (r: bool)
    ensures
        r == freq_le(a, b),
{
    a.1 < b.1 || (a.1 == b.1 && a.0 <= b.0)
}

/// Occurrences of `n` in one drawing: among the main numbers, plus one when
/// the bonus equals `n`.
fn count_in_drawing(d: &LotteryDrawing, n: u8) -> (c: usize)
    requires
        d@.numbers.len() <= 6,
    ensures
        c == record_count(d@, n),
        c <= 7,
{
    let mut c: usize = 0;
    let mut i: usize = 0;
    while i < d.numbers.len()
        invariant
            i <= d@.numbers.len(),
            d@.numbers.len() <= 6,
            c == d@.numbers.subrange(0, i as int).to_multiset().count(n),
            c <= i,
        decreases d@.numbers.len() - i,
    {
        proof {
            assert(d@.numbers.subrange(0, i + 1 as int) =~= d@.numbers.subrange(
                0,
                i as int,
            ).push(d@.numbers[i as int]));
        }
        if d.numbers[i] == n {
            c += 1;
        }
        i += 1;
    }
    proof {
        assert(d@.numbers.subrange(0, d@.numbers.len() as int) =~= d@.numbers);
    }
    if d.bonus == n {
        c += 1;
    }
    c
}

/// Occurrences of `n` across the whole store.
fn count_number(ds: &Vec<LotteryDrawing>, n: u8) -> (c: usize)
    requires
        forall|k: int| 0 <= k < ds@.len() ==> (#[trigger] models(ds@)[k]).numbers.len() == 6,
        ds@.len() <= usize::MAX / 8,
    ensures
        c == freq_of(models(ds@), n),
{
    let ghost s = models(ds@);
    let mut c: usize = 0;
    let mut k: usize = 0;
    while k < ds.len()
        invariant
            s == models(ds@),
            forall|t: int| 0 <= t < ds@.len() ==> (#[trigger] models(ds@)[t]).numbers.len() == 6,
            ds@.len() <= usize::MAX / 8,
            k <= ds@.len(),
            c == freq_of(s.subrange(0, k as int), n),
            c <= 7 * k,
        decreases ds@.len() - k,
    {
        let dr = &ds[k];
        proof {
            assert(dr@ == s[k as int]);
        }
        let add = count_in_drawing(dr, n);
        proof {
            let next = s.subrange(0, k + 1 as int);
            assert(next.drop_last() =~= s.subrange(0, k as int));
            assert(next.last() == s[k as int]);
            assert(freq_of(next, n) == freq_of(s.subrange(0, k as int), n) + record_count(
                s[k as int],
                n,
            ));
        }
        c += add;
        k += 1;
    }
    proof {
        assert(s.subrange(0, s.len() as int) =~= s);
    }
    c
}

/// Insert one entry into a ranking, keeping the ranking order.
fn insert_pair_sorted(v: Vec<(u8, usize)>, x: (u8, usize)) -> (r: Vec<(u8, usize)>)
    requires
        sorted_pairs(v@),
    ensures
        sorted_pairs(r@),
        exists|idx: int| 0 <= idx <= v@.len() && r@ == v@.insert(idx, x),
{
    let mut v = v;
    let mut idx: usize = 0;
    while idx < v.len() && pair_le(v[idx], x)
        invariant
            sorted_pairs(v@),
            idx <= v@.len(),
            forall|k: int| 0 <= k < idx ==> freq_le(#[trigger] v@[k], x),
        decreases v@.len() - idx,
    {
        idx += 1;
    }
    let ghost before = v@;
    let ghost at = idx as int;
    v.insert(idx, x);
    proof {
        assert forall|i: int, j: int| #![trigger v@[i], v@[j]] 0 <= i < j < v@.len() implies freq_le(
            v@[i],
            v@[j],
        ) by {
            if j < at {
                assert(v@[i] == before[i] && v@[j] == before[j]);
            } else if i > at {
                assert(v@[i] == before[i - 1] && v@[j] == before[j - 1]);
            } else if i < at && j == at {
                assert(v@[i] == before[i] && v@[j] == x);
            } else if i == at && j > at {
                assert(v@[i] == x && v@[j] == before[j - 1]);
                assert(!freq_le(before[at], x));
                if at < j - 1 {
                    assert(freq_le(before[at], before[j - 1]));
                }
            } else {
                assert(i < at && j > at);
                assert(v@[i] == before[i] && v@[j] == before[j - 1]);
                assert(freq_le(before[i], x));
                assert(!freq_le(before[at], x));
                if at < j - 1 {
                    assert(freq_le(before[at], before[j - 1]));
                }
            }
        }
        assert(v@ == before.insert(at, x));
    }
    v
}

/// The full ranking of a store: one entry for each number of [1, 45] with its
/// merged main-and-bonus count, sorted ascending by count, ties broken by
/// ascending number.
pub(crate) fn frequency_pairs(ds: &Vec<LotteryDrawing>) -> (r: Vec<(u8, usize)>)
    requires
        forall|k: int| 0 <= k < ds@.len() ==> (#[trigger] models(ds@)[k]).numbers.len() == 6,
        ds@.len() <= usize::MAX / 8,
    ensures
        r@.len() == 45,
        forall|i: int| 0 <= i < 45 ==> 1 <= (#[trigger] r@[i]).0 <= 45,
        forall|i: int| 0 <= i < 45 ==> (#[trigger] r@[i]).1 == freq_of(models(ds@), r@[i].0),
        forall|n: u8| 1 <= n <= 45 ==> #[trigger] has_entry(r@, n),
        sorted_pairs(r@),
        forall|i: int, j: int| #![trigger r@[i], r@[j]] 0 <= i < j < 45 ==> r@[i].0 != r@[j].0,
{
    let ghost s = models(ds@);
    let mut r: Vec<(u8, usize)> = Vec::new();
    let mut n: u8 = 1;
    while n <= 45
        invariant
            s == models(ds@),
            forall|k: int| 0 <= k < ds@.len() ==> (#[trigger] models(ds@)[k]).numbers.len() == 6,
            ds@.len() <= usize::MAX / 8,
            1 <= n <= 46,
            r@.len() == n - 1,
            forall|i: int| 0 <= i < r@.len() ==> 1 <= (#[trigger] r@[i]).0 < n,
            forall|i: int| 0 <= i < r@.len() ==> (#[trigger] r@[i]).1 == freq_of(s, r@[i].0),
            forall|m: u8| 1 <= m < n ==> #[trigger] has_entry(r@, m),
            sorted_pairs(r@),
            forall|i: int, j: int| #![trigger r@[i], r@[j]] 0 <= i < j < r@.len() ==> r@[i].0
                != r@[j].0,
        decreases 46 - n,
    {
        let c = count_number(ds, n);
        let ghost before = r@;
        r = insert_pair_sorted(r, (n, c));
        proof {
            let at = choose|at: int| 0 <= at <= before.len() && r@ == before.insert(at, (n, c));
            assert forall|m: u8| 1 <= m < n + 1 implies #[trigger] has_entry(r@, m) by {
                if m < n {
                    assert(has_entry(before, m));
                    let i = choose|i: int| 0 <= i < before.len() && (#[trigger] before[i]).0 == m;
                    if i < at {
                        assert(r@[i] == before[i]);
                    } else {
                        assert(r@[i + 1] == before[i]);
                    }
                } else {
                    assert(r@[at] == (n, c));
                }
            }
            assert forall|i: int| 0 <= i < r@.len() implies 1 <= (#[trigger] r@[i]).0 < n + 1
                && r@[i].1 == freq_of(s, r@[i].0) by {
                if i < at {
                    assert(r@[i] == before[i]);
                } else if i > at {
                    assert(r@[i] == before[i - 1]);
                } else {
                    assert(r@[i] == (n, c));
                }
            }
            assert forall|i: int, j: int| #![trigger r@[i], r@[j]] 0 <= i < j < r@.len() implies r@[i].0
                != r@[j].0 by {
                if i != at && j != at {
                    let i0: int = if i < at {
                        i
                    } else {
                        i - 1
                    };
                    let j0: int = if j < at {
                        j
                    } else {
                        j - 1
                    };
                    assert(r@[i] == before[i0] && r@[j] == before[j0]);
                } else if i == at {
                    assert(r@[i].0 == n && r@[j] == before[j - 1]);
                } else {
                    assert(r@[j].0 == n && (r@[i] == before[i]));
                }
            }
        }
        n += 1;
    }
    r
}

} // verus!
