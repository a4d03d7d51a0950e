//! The lottery engine: an ordered store of historical drawings, the single
//! mutation that keeps it sorted by round, and the construction of the
//! exclusion set from it.

use vstd::prelude::*;
use vstd::multiset::Multiset;

use crate::LotteryError;
use crate::exclusion::ExclusionSet;
use crate::model::DrawingModel;
use crate::model::combo_excluded;
use crate::model::combo_excluded_by;
use crate::model::combo_excluded_by_upto;
use crate::model::covers;
use crate::model::exclusion_exact;
use crate::model::is_sorted_u8;
use crate::model::record_valid;
use crate::model::store_wf;
use crate::model::valid_combo;
use crate::model::freq_le;
use crate::model::freq_lt;
use crate::model::freq_of;
use crate::model::has_entry;
use crate::model::valid_numbers;
use crate::model::valid_required;
use crate::frequency::frequency_pairs;
use crate::sampling::build_pool;
use crate::sampling::check_required;
use crate::sampling::sample_batch;
use crate::sorting::check_values;
use crate::sorting::lemma_sorted_multiset_unique;
use crate::sorting::sort_numbers;

verus! {

broadcast use vstd::seq_lib::group_to_multiset_ensures;

/// One historical draw: its round identifier, its six main numbers in the
/// order they were supplied, and its bonus number.
#[derive(Debug)]
pub struct LotteryDrawing {
    pub round: u32,
    pub numbers: Vec<u8>,
    pub bonus: u8,
}

impl View for LotteryDrawing {
    type V = DrawingModel;

    open spec fn view(&self) -> DrawingModel {
        DrawingModel { round: self.round, numbers: self.numbers@, bonus: self.bonus }
    }
}

/// The models of a sequence of drawings.
pub open spec fn models(ds: Seq<LotteryDrawing>) -> Seq<DrawingModel> {
    ds.map_values(|d: LotteryDrawing| d@)
}

/// The engine: a store of historical drawings, kept sorted ascending by
/// round, together with the operations that derive recommendations from it.
pub struct LotteryEngine {
    drawings: Vec<LotteryDrawing>,
}

impl View for LotteryEngine {
    type V = Seq<DrawingModel>;

    closed spec fn view(&self) -> Seq<DrawingModel> {
        models(self.drawings@)
    }
}

/// Are these main numbers acceptable: exactly six, each in [1, 45], no repeats?
fn check_numbers(ns: &Vec<u8>) -> (r: bool)
    ensures
        r == valid_numbers(ns@),
{
    ns.len() == 6 && check_values(ns)
}

/// The place where a record with this round goes: past every record whose
/// round is at most `round`, before the rest.
fn find_insert_idx(ds: &Vec<LotteryDrawing>, round: u32) -> (idx: usize)
    ensures
        idx <= ds@.len(),
        forall|k: int| 0 <= k < idx ==> models(ds@)[k].round <= round,
        idx < ds@.len() ==> models(ds@)[idx as int].round > round,
{
    let mut idx: usize = 0;
    while idx < ds.len() && ds[idx].round <= round
        invariant
            idx <= ds@.len(),
            forall|k: int| 0 <= k < idx ==> models(ds@)[k].round <= round,
        decreases ds@.len() - idx,
    {
        idx += 1;
    }
    idx
}

/// The second-tier candidate of a record: its main numbers with position `j`
/// replaced by the bonus, in stored (not yet canonical) order.
fn bonus_variant(dr: &LotteryDrawing, j: usize) -> (r: Vec<u8>)
    requires
        j < 6,
        dr@.numbers.len() == 6,
    ensures
        r@ == dr@.numbers.update(j as int, dr@.bonus),
{
    let mut variant: Vec<u8> = Vec::new();
    let mut t: usize = 0;
    while t < 6
        invariant
            dr@.numbers.len() == 6,
            t <= 6,
            j < 6,
            variant@.len() == t,
            forall|q: int| 0 <= q < t ==> variant@[q] == (if q == j {
                dr@.bonus
            } else {
                dr@.numbers[q]
            }),
        decreases 6 - t,
    {
        if t == j {
            variant.push(dr.bonus);
        } else {
            variant.push(dr.numbers[t]);
        }
        t += 1;
    }
    proof {
        assert(variant@ =~= dr@.numbers.update(j as int, dr@.bonus));
    }
    variant
}

/// Mapping to models commutes with inserting one record.
proof fn lemma_models_insert(ds: Seq<LotteryDrawing>, idx: int, d: LotteryDrawing)
    requires
        0 <= idx <= ds.len(),
    ensures
        models(ds.insert(idx, d)) == models(ds).insert(idx, d@),
{
    assert(models(ds.insert(idx, d)) =~= models(ds).insert(idx, d@));
}

impl LotteryEngine {
    /// The store's invariant: every record valid, the whole sorted by round.
    pub open spec fn wf(&self) -> bool {
        store_wf(self@)
    }

    /// Build an engine from a collection of records, for instance one read
    /// back from a persisted snapshot. Every record is validated; the store
    /// comes out sorted by round and holds exactly the given records.
    pub fn new(records: Vec<LotteryDrawing>) -> (r: Result<LotteryEngine, LotteryError>)
        ensures
            match r {
                Ok(engine) => {
                    &&& engine.wf()
                    &&& engine@.len() == records@.len()
                    &&& engine@.to_multiset() == models(records@).to_multiset()
                    &&& forall|k: int|
                        0 <= k < records@.len() ==> record_valid(#[trigger] models(records@)[k])
                },
                Err(err) => {
                    &&& err == LotteryError::InvalidInput
                    &&& exists|k: int|
                        0 <= k < records@.len() && !record_valid(#[trigger] models(records@)[k])
                },
            },
    {
        let ghost all = models(records@);
        let mut engine = LotteryEngine { drawings: Vec::new() };
        let mut input = records;
        proof {
            assert(engine@ =~= Seq::<DrawingModel>::empty());
            assert(models(input@).to_multiset().add(engine@.to_multiset()) =~= all.to_multiset());
        }
        while input.len() > 0
            invariant
                engine.wf(),
                models(input@).to_multiset().add(engine@.to_multiset()) == all.to_multiset(),
                all == models(records@),
            decreases input@.len(),
        {
            let ghost before = models(input@);
            let d = match input.pop() {
                Some(d) => d,
                None => {
                    proof {
                        assert(false);
                    }
                    return Err(LotteryError::InvalidInput);
                },
            };
            proof {
                assert(models(input@) =~= before.drop_last());
                assert(d@ == before.last());
                assert(before =~= before.drop_last().push(before.last()));
                assert(before.to_multiset() == before.drop_last().to_multiset().insert(d@));
                assert(all.to_multiset().count(d@) > 0) by {
                    assert(before.to_multiset().count(d@) > 0);
                }
                assert(all.contains(d@));
            }
            let ghost eng_before = engine@;
            match engine.add_new_drawing(d.round, d.numbers, d.bonus) {
                Ok(()) => {
                    proof {
                        let idx = choose|idx: int|
                            0 <= idx <= eng_before.len() && engine@ == eng_before.insert(idx, d@);
                        assert(engine@.to_multiset() == eng_before.to_multiset().insert(d@));
                        assert(models(input@).to_multiset().add(engine@.to_multiset()) =~= all
                            .to_multiset());
                    }
                },
                Err(e) => {
                    proof {
                        let k = choose|k: int| 0 <= k < all.len() && all[k] == d@;
                        assert(!record_valid(all[k]));
                    }
                    return Err(e);
                },
            }
        }
        proof {
            assert(models(input@).len() == 0);
            assert(models(input@).to_multiset().len() == 0);
            broadcast use vstd::multiset::lemma_multiset_empty_len;

            assert(models(input@).to_multiset() =~= Multiset::<DrawingModel>::empty());
            assert(engine@.to_multiset() =~= all.to_multiset());
            assert(engine@.len() == engine@.to_multiset().len());
            assert(all.len() == all.to_multiset().len());
            assert forall|k: int| 0 <= k < records@.len() implies record_valid(
                #[trigger] models(records@)[k],
            ) by {
                let v = all[k];
                assert(all.contains(v));
                assert(all.to_multiset().count(v) > 0);
                assert(engine@.to_multiset().count(v) > 0);
                assert(engine@.contains(v));
                let j = choose|j: int| 0 <= j < engine@.len() && engine@[j] == v;
                assert(record_valid(engine@[j]));
            }
        }
        Ok(engine)
    }

    /// Append a newly published draw and keep the store sorted by round. No
    /// uniqueness check on the round is performed: a duplicate round is legal.
    /// Malformed numbers (not exactly six distinct values in [1, 45]) or a
    /// bonus outside [1, 45] are rejected with `InvalidInput` and the store
    /// stays as it was.
    pub fn add_new_drawing(&mut self, round: u32, numbers: Vec<u8>, bonus: u8) -> (r: Result<
        (),
        LotteryError,
    >)
        requires
            old(self).wf(),
        ensures
            final(self).wf(),
            match r {
                Ok(()) => {
                    &&& valid_numbers(numbers@)
                    &&& 1 <= bonus <= 45
                    &&& exists|idx: int|
                        0 <= idx <= old(self)@.len() && final(self)@ == old(self)@.insert(
                            idx,
                            DrawingModel { round, numbers: numbers@, bonus },
                        )
                },
                Err(e) => {
                    &&& e == LotteryError::InvalidInput
                    &&& !(valid_numbers(numbers@) && 1 <= bonus <= 45)
                    &&& final(self)@ == old(self)@
                },
            },
    {
        if !check_numbers(&numbers) {
            return Err(LotteryError::InvalidInput);
        }
        if bonus < 1 || bonus > 45 {
            return Err(LotteryError::InvalidInput);
        }
        let d = LotteryDrawing { round, numbers, bonus };
        let ghost dm = d@;
        let mut taken: Vec<LotteryDrawing> = Vec::new();
        core::mem::swap(&mut taken, &mut self.drawings);
        proof {
            assert(models(taken@) == old(self)@);
        }
        let idx = find_insert_idx(&taken, round);
        let ghost raw = taken@;
        let ghost s = models(raw);
        let ghost at = idx as int;
        taken.insert(idx, d);
        proof {
            lemma_models_insert(raw, at, d);
            let s2 = models(taken@);
            assert(s2 == s.insert(at, dm));
            assert forall|a: int, b: int| #![trigger s2[a], s2[b]] 0 <= a < b < s2.len() implies s2[a].round
                <= s2[b].round by {
                if b < at {
                    assert(s2[a] == s[a] && s2[b] == s[b]);
                } else if a > at {
                    assert(s2[a] == s[a - 1] && s2[b] == s[b - 1]);
                } else if a < at && b == at {
                    assert(s2[a] == s[a] && s2[b] == dm);
                } else if a == at && b > at {
                    assert(s2[a] == dm && s2[b] == s[b - 1]);
                    assert(s[at].round <= s[b - 1].round);
                } else {
                    assert(a < at && b > at);
                    assert(s2[a] == s[a] && s2[b] == s[b - 1]);
                    assert(s[at].round <= s[b - 1].round);
                }
            }
            assert forall|k: int| 0 <= k < s2.len() implies record_valid(#[trigger] s2[k]) by {
                if k < at {
                    assert(s2[k] == s[k]);
                } else if k > at {
                    assert(s2[k] == s[k - 1]);
                } else {
                    assert(s2[k] == dm);
                }
            }
        }
        self.drawings = taken;
        Ok(())
    }

    /// The records, in ascending round order (a read-only view).
    pub fn all(&self) -> (r: &Vec<LotteryDrawing>)
        ensures
            models(r@) == self@,
            r@.len() == self@.len(),
    {
        &self.drawings
    }

    /// The smallest round, the largest round and the number of stored
    /// records; `None` when the store is empty.
    pub fn get_round_range(&self) -> (r: Option<(u32, u32, usize)>)
        requires
            self.wf(),
        ensures
            match r {
                None => self@.len() == 0,
                Some((mn, mx, count)) => {
                    &&& self@.len() > 0
                    &&& count == self@.len()
                    &&& mn == self@[0].round
                    &&& mx == self@[self@.len() - 1].round
                    &&& forall|k: int| 0 <= k < self@.len() ==> mn <= #[trigger] self@[k].round <= mx
                },
            },
    {
        if self.drawings.len() == 0 {
            return None;
        }
        let n = self.drawings.len();
        let mn = self.drawings[0].round;
        let mx = self.drawings[n - 1].round;
        proof {
            assert forall|k: int| 0 <= k < self@.len() implies mn <= #[trigger] self@[k].round
                <= mx by {
                assert(self@[k] == self.drawings@[k]@);
                if k > 0 {
                    assert(self@[0].round <= self@[k].round);
                }
                if k < self@.len() - 1 {
                    assert(self@[k].round <= self@[self@.len() - 1].round);
                }
            }
        }
        Some((mn, mx, n))
    }

    /// Build the exclusion set of the current store: for every record, the
    /// canonical form of its six main numbers (a first-tier match) and, for
    /// each of the six positions, the canonical form with that position's
    /// number replaced by the record's bonus (a second-tier match). The
    /// result holds exactly these combinations, nothing else.
    pub fn get_used_combinations(&self) -> (e: ExclusionSet)
        requires
            self.wf(),
        ensures
            exclusion_exact(self@, e@),
    {
        let ghost s = self@;
        let mut e = ExclusionSet::new();
        proof {
            assert(s.subrange(0, 0).len() == 0);
        }
        let mut k: usize = 0;
        while k < self.drawings.len()
            invariant
                self.wf(),
                s == self@,
                self@.len() == self.drawings@.len(),
                k <= self.drawings@.len(),
                forall|c: Seq<u8>| e@.contains(c) <==> combo_excluded(s.subrange(0, k as int), c),
            decreases self.drawings@.len() - k,
        {
            let ghost m = s[k as int];
            let ghost prefix = s.subrange(0, k as int);
            proof {
                assert(m == self.drawings@[k as int]@);
                assert(record_valid(m));
                assert(m.numbers.len() == 6);
            }
            let dr = &self.drawings[k];
            proof {
                assert(dr@ == m);
            }

            // first tier: the six main numbers in canonical form
            let main_sorted = sort_numbers(&dr.numbers);
            let ghost mainc = main_sorted@;
            let ghost e_prev = e@;
            e.insert(main_sorted);
            proof {
                assert(combo_excluded_by_upto(m, 0, mainc));
                assert forall|c: Seq<u8>| e@.contains(c) <==> (combo_excluded(prefix, c)
                    || combo_excluded_by_upto(m, 0, c)) by {
                    assert(e@.contains(c) <==> e_prev.contains(c) || c == mainc);
                    assert(e_prev.contains(c) <==> combo_excluded(prefix, c));
                    if combo_excluded_by_upto(m, 0, c) {
                        lemma_sorted_multiset_unique(c, mainc);
                    }
                }
            }

            // second tier: each position replaced by the bonus, in canonical form
            let mut j: usize = 0;
            while j < 6
                invariant
                    self.wf(),
                    s == self@,
                    self@.len() == self.drawings@.len(),
                    k < self.drawings@.len(),
                    m == s[k as int],
                    m == self.drawings@[k as int]@,
                    m.numbers.len() == 6,
                    prefix == s.subrange(0, k as int),
                    j <= 6,
                    forall|c: Seq<u8>| e@.contains(c) <==> (combo_excluded(prefix, c)
                        || combo_excluded_by_upto(m, j as int, c)),
                decreases 6 - j,
            {
                let dr = &self.drawings[k];
                proof {
                    assert(dr@ == m);
                }
                let variant = bonus_variant(dr, j);
                let cand = sort_numbers(&variant);
                let ghost candc = cand@;
                let ghost e_prev = e@;
                proof {
                    assert(forall|c: Seq<u8>| e_prev.contains(c) <==> (combo_excluded(prefix, c)
                        || combo_excluded_by_upto(m, j as int, c)));
                }
                e.insert(cand);
                proof {
                    assert(candc.to_multiset() == m.numbers.update(j as int, m.bonus).to_multiset());
                    assert(combo_excluded_by_upto(m, j + 1 as int, candc));
                    assert forall|c: Seq<u8>| e@.contains(c) <==> (combo_excluded(prefix, c)
                        || combo_excluded_by_upto(m, j + 1 as int, c)) by {
                        assert(e@.contains(c) <==> e_prev.contains(c) || c == candc);
                        assert(e_prev.contains(c) <==> (combo_excluded(prefix, c)
                            || combo_excluded_by_upto(m, j as int, c)));
                        if combo_excluded_by_upto(m, j as int, c) && c.to_multiset()
                            != m.numbers.to_multiset() {
                            let i = choose|i: int|
                                0 <= i < j && c.to_multiset() == m.numbers.update(
                                    i,
                                    m.bonus,
                                ).to_multiset();
                            assert(0 <= i < j + 1 && c.to_multiset() == m.numbers.update(
                                i,
                                m.bonus,
                            ).to_multiset());
                        }
                        if combo_excluded_by_upto(m, j + 1 as int, c) && !combo_excluded_by_upto(
                            m,
                            j as int,
                            c,
                        ) {
                            let i = choose|i: int|
                                0 <= i < j + 1 && c.to_multiset() == m.numbers.update(
                                    i,
                                    m.bonus,
                                ).to_multiset();
                            assert(i == j);
                            lemma_sorted_multiset_unique(c, candc);
                        }
                    }
                }
                j += 1;
            }
            proof {
                assert(s.subrange(0, k + 1 as int) =~= prefix.push(m));
                let next = s.subrange(0, k + 1 as int);
                assert forall|c: Seq<u8>| e@.contains(c) <==> combo_excluded(next, c) by {
                    assert(combo_excluded_by_upto(m, 6, c) == combo_excluded_by(m, c));
                    if combo_excluded(prefix, c) {
                        let i = choose|i: int|
                            0 <= i < prefix.len() && combo_excluded_by(prefix[i], c);
                        assert(next[i] == prefix[i]);
                        assert(combo_excluded_by(next[i], c));
                    }
                    if combo_excluded_by(m, c) {
                        assert(next[k as int] == m);
                        assert(combo_excluded_by(next[k as int], c));
                    }
                    if combo_excluded(next, c) {
                        let i = choose|i: int| 0 <= i < next.len() && combo_excluded_by(next[i], c);
                        if i < k as int {
                            assert(prefix[i] == next[i]);
                            assert(combo_excluded_by(prefix[i], c));
                        } else {
                            assert(next[i] == m);
                        }
                    }
                }
            }
            k += 1;
        }
        proof {
            assert(s.subrange(0, s.len() as int) =~= s);
        }
        e
    }

    /// Recommend up to `count` combinations. Each is six distinct sorted
    /// numbers in [1, 45]; none matches a historical draw in the first or the
    /// second tier; no two of the batch are equal. The attempt budget is
    /// `count * 1000` draws; on exhaustion the partial batch comes back, so
    /// the caller checks the returned length against `count`.
    pub fn generate_sets(&self, count: usize) -> (r: Vec<Vec<u8>>)
        requires
            self.wf(),
            count <= usize::MAX / 1000,
        ensures
            r@.len() <= count,
            forall|i: int| 0 <= i < r@.len() ==> valid_combo(#[trigger] r@[i]@),
            forall|i: int| 0 <= i < r@.len() ==> !combo_excluded(self@, #[trigger] r@[i]@),
            forall|i: int, j: int| #![trigger r@[i], r@[j]]
                0 <= i < j < r@.len() ==> r@[i]@ != r@[j]@,
    {
        let excl = self.get_used_combinations();
        let base: Vec<u8> = Vec::new();
        let pool = build_pool(&base);
        sample_batch(&excl, &base, &pool, count)
    }

    /// Five recommended combinations: the presentation default of
    /// `generate_sets`. The batch holds five entries or fewer, each six
    /// distinct sorted numbers in [1, 45] outside the historical exclusion
    /// set, no two equal.
    pub fn generate_numbers_sets(&self) -> (r: Vec<Vec<u8>>)
        requires
            self.wf(),
        ensures
            r@.len() <= 5,
            forall|i: int| 0 <= i < r@.len() ==> valid_combo(#[trigger] r@[i]@),
            forall|i: int| 0 <= i < r@.len() ==> !combo_excluded(self@, #[trigger] r@[i]@),
            forall|i: int, j: int| #![trigger r@[i], r@[j]]
                0 <= i < j < r@.len() ==> r@[i]@ != r@[j]@,
    {
        self.generate_sets(5)
    }

    /// Recommend exactly `count` combinations that all contain the `required`
    /// numbers. A malformed required set (empty, more than six values, a value
    /// outside [1, 45], or a repeat) is rejected with `InvalidInput`. When the
    /// attempt budget of `count * 1000` draws runs out first, the call fails
    /// with `InsufficientCombinations` carrying the number of combinations
    /// found; only a full batch comes back as `Ok`.
    ///
    /// With six required numbers nothing is left to draw, so the outcome is
    /// determined by the store alone: the required numbers' canonical form is
    /// the only candidate; when the store excludes it nothing is produced,
    /// otherwise it is produced once — enough only when one set was asked for.
    pub fn generate_sets_with_required(&self, required: &Vec<u8>, count: usize) -> (r: Result<
        Vec<Vec<u8>>,
        LotteryError,
    >)
        requires
            self.wf(),
            count <= usize::MAX / 1000,
        ensures
            match r {
                Ok(batch) => {
                    &&& valid_required(required@)
                    &&& batch@.len() == count
                    &&& forall|i: int| 0 <= i < batch@.len() ==> valid_combo(#[trigger] batch@[i]@)
                    &&& forall|i: int|
                        0 <= i < batch@.len() ==> !combo_excluded(self@, #[trigger] batch@[i]@)
                    &&& forall|i: int|
                        0 <= i < batch@.len() ==> covers(#[trigger] batch@[i]@, required@)
                    &&& forall|i: int, j: int| #![trigger batch@[i], batch@[j]]
                        0 <= i < j < batch@.len() ==> batch@[i]@ != batch@[j]@
                },
                Err(LotteryError::InvalidInput) => !valid_required(required@),
                Err(LotteryError::InsufficientCombinations(found)) => valid_required(required@)
                    && found < count,
            },
            forall|c: Seq<u8>| #![trigger c.to_multiset()]
                valid_required(required@) && required@.len() == 6 && is_sorted_u8(c)
                    && c.to_multiset() == required@.to_multiset() ==> {
                    &&& (combo_excluded(self@, c) && count >= 1 ==> r == Err::<
                        Vec<Vec<u8>>,
                        LotteryError,
                    >(LotteryError::InsufficientCombinations(0)))
                    &&& (!combo_excluded(self@, c) && count == 1 ==> (r matches Ok(batch)
                        && batch@.len() == 1 && batch@[0]@ == c))
                    &&& (!combo_excluded(self@, c) && count >= 2 ==> r == Err::<
                        Vec<Vec<u8>>,
                        LotteryError,
                    >(LotteryError::InsufficientCombinations(1)))
                },
    {
        if !check_required(required) {
            return Err(LotteryError::InvalidInput);
        }
        let excl = self.get_used_combinations();
        let pool = build_pool(required);
        let batch = sample_batch(&excl, required, &pool, count);
        if batch.len() < count {
            return Err(LotteryError::InsufficientCombinations(batch.len()));
        }
        Ok(batch)
    }

    /// The frequency ranking of the current store: exactly one entry for each
    /// number of [1, 45], carrying how often it occurred across all records
    /// (each appearance among the six main numbers counts once, and so does
    /// each appearance as the bonus, merged into one counter). Entries come
    /// sorted ascending by count, ties broken by ascending number — the
    /// ranking surfaced to users. The store length is bounded so the counts
    /// fit the counter type.
    pub fn calculate_frequency(&self) -> (r: Vec<(u8, usize)>)
        requires
            self.wf(),
            self@.len() <= usize::MAX / 8,
        ensures
            r@.len() == 45,
            forall|i: int| 0 <= i < 45 ==> 1 <= (#[trigger] r@[i]).0 <= 45,
            forall|i: int| 0 <= i < 45 ==> (#[trigger] r@[i]).1 == freq_of(self@, r@[i].0),
            forall|n: u8| 1 <= n <= 45 ==> #[trigger] has_entry(r@, n),
            forall|i: int, j: int| #![trigger r@[i], r@[j]] 0 <= i < j < 45 ==> freq_lt(
                r@[i],
                r@[j],
            ),
    {
        let r = frequency_pairs(&self.drawings);
        proof {
            assert forall|i: int, j: int| #![trigger r@[i], r@[j]] 0 <= i < j < 45 implies freq_lt(
                r@[i],
                r@[j],
            ) by {
                assert(freq_le(r@[i], r@[j]));
                assert(r@[i].0 != r@[j].0);
            }
        }
        r
    }

    /// The frequency ranking, as the presentation layer asks for it: lowest
    /// counts first, so the front of the vector is the recommendation.
    pub fn get_number_frequency(&self) -> (r: Vec<(u8, usize)>)
        requires
            self.wf(),
            self@.len() <= usize::MAX / 8,
        ensures
            r@.len() == 45,
            forall|i: int| 0 <= i < 45 ==> 1 <= (#[trigger] r@[i]).0 <= 45,
            forall|i: int| 0 <= i < 45 ==> (#[trigger] r@[i]).1 == freq_of(self@, r@[i].0),
            forall|n: u8| 1 <= n <= 45 ==> #[trigger] has_entry(r@, n),
            forall|i: int, j: int| #![trigger r@[i], r@[j]] 0 <= i < j < 45 ==> freq_lt(
                r@[i],
                r@[j],
            ),
    {
        self.calculate_frequency()
    }

    /// Five combinations that all contain the `required` numbers: the
    /// presentation default of `generate_sets_with_required`, with the same
    /// validation and the same all-or-error contract. With six required
    /// numbers only one combination exists, so five can never be reached: the
    /// call fails with the count that was possible (one, or zero when the
    /// store excludes that combination).
    pub fn generate_numbers_sets_with_required(&self, required: Vec<u8>) -> (r: Result<
        Vec<Vec<u8>>,
        LotteryError,
    >)
        requires
            self.wf(),
        ensures
            match r {
                Ok(batch) => {
                    &&& valid_required(required@)
                    &&& batch@.len() == 5
                    &&& forall|i: int| 0 <= i < batch@.len() ==> valid_combo(#[trigger] batch@[i]@)
                    &&& forall|i: int|
                        0 <= i < batch@.len() ==> !combo_excluded(self@, #[trigger] batch@[i]@)
                    &&& forall|i: int|
                        0 <= i < batch@.len() ==> covers(#[trigger] batch@[i]@, required@)
                    &&& forall|i: int, j: int| #![trigger batch@[i], batch@[j]]
                        0 <= i < j < batch@.len() ==> batch@[i]@ != batch@[j]@
                },
                Err(LotteryError::InvalidInput) => !valid_required(required@),
                Err(LotteryError::InsufficientCombinations(found)) => valid_required(required@)
                    && found < 5,
            },
            forall|c: Seq<u8>| #![trigger c.to_multiset()]
                valid_required(required@) && required@.len() == 6 && is_sorted_u8(c)
                    && c.to_multiset() == required@.to_multiset() ==> {
                    &&& (combo_excluded(self@, c) ==> r == Err::<Vec<Vec<u8>>, LotteryError>(
                        LotteryError::InsufficientCombinations(0),
                    ))
                    &&& (!combo_excluded(self@, c) ==> r == Err::<Vec<Vec<u8>>, LotteryError>(
                        LotteryError::InsufficientCombinations(1),
                    ))
                },
    {
        self.generate_sets_with_required(&required, 5)
    }
}

} // verus!
