//! The mathematical model of the engine's data: what a stored draw is, when a
//! store is well formed, what a canonical combination is, which combinations a
//! store excludes, and how often each number occurs.

use vstd::prelude::*;

verus! {

/// Mathematical image of one historical draw: the round identifier, the six
/// main numbers in their stored order, and the bonus number.
pub ghost struct DrawingModel {
    pub round: u32,
    pub numbers: Seq<u8>,
    pub bonus: u8,
}

/// The main numbers of a record: exactly six values, each in [1, 45], no repeats.
pub open spec fn valid_numbers(ns: Seq<u8>) -> bool {
    &&& ns.len() == 6
    &&& forall|i: int| 0 <= i < ns.len() ==> 1 <= #[trigger] ns[i] <= 45
    &&& ns.no_duplicates()
}

/// A record the store accepts: six valid main numbers and a bonus in [1, 45].
/// (That the bonus differs from the main numbers is not demanded.)
pub open spec fn record_valid(m: DrawingModel) -> bool {
    valid_numbers(m.numbers) && 1 <= m.bonus <= 45
}

/// The records stand in ascending round order.
pub open spec fn sorted_by_round(s: Seq<DrawingModel>) -> bool {
    forall|i: int, j: int| #![trigger s[i], s[j]] 0 <= i < j < s.len() ==> s[i].round <= s[j].round
}

/// The store's invariant: every record valid, the whole sorted by round.
pub open spec fn store_wf(s: Seq<DrawingModel>) -> bool {
    (forall|k: int| 0 <= k < s.len() ==> record_valid(#[trigger] s[k])) && sorted_by_round(s)
}

/// Non-decreasing order of a sequence of numbers.
pub open spec fn is_sorted_u8(c: Seq<u8>) -> bool {
    forall|i: int, j: int| #![trigger c[i], c[j]] 0 <= i < j < c.len() ==> c[i] <= c[j]
}

/// The canonical form of a recommended combination: six strictly increasing
/// numbers, each in [1, 45]. Strict increase makes the six values distinct and
/// the representation unique.
pub open spec fn valid_combo(c: Seq<u8>) -> bool {
    &&& c.len() == 6
    &&& forall|i: int| 0 <= i < c.len() ==> 1 <= #[trigger] c[i] <= 45
    &&& forall|i: int, j: int| #![trigger c[i], c[j]] 0 <= i < j < c.len() ==> c[i] < c[j]
}

/// `c` is a first-tier match of record `m` (the six main numbers, reordered
/// into canonical form) or a second-tier match built from one of the first
/// `j` positions (that position's main number replaced by the record's bonus,
/// reordered into canonical form).
pub open spec fn combo_excluded_by_upto(m: DrawingModel, j: int, c: Seq<u8>) -> bool {
    is_sorted_u8(c) && (c.to_multiset() == m.numbers.to_multiset() || exists|i: int|
        0 <= i < j && c.to_multiset() == #[trigger] m.numbers.update(i, m.bonus).to_multiset())
}

/// `c` is a first-tier match of record `m` (the six main numbers, reordered
/// into canonical form) or a second-tier match (one main number replaced by
/// the record's bonus, reordered into canonical form).
pub open spec fn combo_excluded_by(m: DrawingModel, c: Seq<u8>) -> bool {
    combo_excluded_by_upto(m, m.numbers.len() as int, c)
}

/// `c` must never be recommended over the store `s`: some record matches it
/// in the first or the second tier.
pub open spec fn combo_excluded(s: Seq<DrawingModel>, c: Seq<u8>) -> bool {
    exists|k: int| 0 <= k < s.len() && combo_excluded_by(#[trigger] s[k], c)
}

/// A membership test `e` is the exclusion set of the store `s`: it holds a
/// combination exactly when some record of `s` excludes it.
pub open spec fn exclusion_exact(s: Seq<DrawingModel>, e: Set<Seq<u8>>) -> bool {
    forall|c: Seq<u8>| e.contains(c) <==> combo_excluded(s, c)
}

/// A well-formed required set for constrained sampling: one to six values,
/// each in [1, 45], no repeats.
pub open spec fn valid_required(req: Seq<u8>) -> bool {
    &&& 1 <= req.len() <= 6
    &&& forall|i: int| 0 <= i < req.len() ==> 1 <= #[trigger] req[i] <= 45
    &&& req.no_duplicates()
}

/// Every value of `req` occurs in the combination `c`.
pub open spec fn covers(c: Seq<u8>, req: Seq<u8>) -> bool {
    forall|i: int| 0 <= i < req.len() ==> c.contains(#[trigger] req[i])
}

/// Occurrences of `n` in one record: its multiplicity among the six main
/// numbers, plus one when the bonus equals `n`.
pub open spec fn record_count(m: DrawingModel, n: u8) -> nat {
    m.numbers.to_multiset().count(n) + (if m.bonus == n {
        1nat
    } else {
        0nat
    })
}

/// Occurrences of `n` across the whole store: main numbers and bonus numbers
/// feed one merged counter.
pub open spec fn freq_of(s: Seq<DrawingModel>, n: u8) -> nat
    decreases s.len(),
{
    if s.len() == 0 {
        0nat
    } else {
        freq_of(s.drop_last(), n) + record_count(s.last(), n)
    }
}

/// The ranking holds an entry for the number `n`.
pub open spec fn has_entry(s: Seq<(u8, usize)>, n: u8) -> bool {
    exists|i: int| 0 <= i < s.len() && (#[trigger] s[i]).0 == n
}

/// The ranking order of frequency entries: ascending count, ties broken by
/// ascending number.
pub open spec fn freq_lt(a: (u8, usize), b: (u8, usize)) -> bool {
    a.1 < b.1 || (a.1 == b.1 && a.0 < b.0)
}

/// Non-strict version of the ranking order.
pub open spec fn freq_le(a: (u8, usize), b: (u8, usize)) -> bool {
    a.1 < b.1 || (a.1 == b.1 && a.0 <= b.0)
}

} // verus!
