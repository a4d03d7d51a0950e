use lottery_engine::LotteryDrawing;
use lottery_engine::LotteryEngine;
use lottery_engine::LotteryError;

fn engine_with(records: Vec<LotteryDrawing>) -> LotteryEngine {
    LotteryEngine::new(records).unwrap()
}

fn assert_canonical(combo: &Vec<u8>) {
    assert_eq!(combo.len(), 6);
    for w in combo.windows(2) {
        assert!(w[0] < w[1]);
    }
    for &n in combo {
        assert!((1..=45).contains(&n));
    }
}

#[test]
fn generate_sets_returns_canonical_unexcluded_batch() {
    let engine = engine_with(vec![
        LotteryDrawing { round: 1, numbers: vec![1, 2, 3, 4, 5, 6], bonus: 7 },
        LotteryDrawing { round: 2, numbers: vec![7, 8, 9, 10, 11, 12], bonus: 13 },
    ]);
    let excl = engine.get_used_combinations();
    let batch = engine.generate_sets(5);
    assert_eq!(batch.len(), 5);
    for combo in &batch {
        assert_canonical(combo);
        assert!(!excl.contains(combo));
    }
    for i in 0..batch.len() {
        for j in (i + 1)..batch.len() {
            assert_ne!(batch[i], batch[j]);
        }
    }
}

#[test]
fn generate_numbers_sets_gives_five() {
    let engine = engine_with(Vec::new());
    let batch = engine.generate_numbers_sets();
    assert_eq!(batch.len(), 5);
    for combo in &batch {
        assert_canonical(combo);
    }
}

#[test]
fn generate_sets_zero_count_is_empty() {
    let engine = engine_with(Vec::new());
    let batch = engine.generate_sets(0);
    assert!(batch.is_empty());
}

#[test]
fn required_numbers_appear_in_every_set() {
    let engine = engine_with(vec![LotteryDrawing {
        round: 1,
        numbers: vec![1, 2, 3, 4, 5, 6],
        bonus: 7,
    }]);
    let excl = engine.get_used_combinations();
    let required = vec![10, 20, 3];
    let batch = engine.generate_sets_with_required(&required, 5).unwrap();
    assert_eq!(batch.len(), 5);
    for combo in &batch {
        assert_canonical(combo);
        assert!(!excl.contains(combo));
        for r in &required {
            assert!(combo.contains(r));
        }
    }
    for i in 0..batch.len() {
        for j in (i + 1)..batch.len() {
            assert_ne!(batch[i], batch[j]);
        }
    }
}

#[test]
fn required_rejects_empty() {
    let engine = engine_with(Vec::new());
    let r = engine.generate_numbers_sets_with_required(vec![]);
    assert_eq!(r.unwrap_err(), LotteryError::InvalidInput);
}

#[test]
fn required_rejects_seven_or_more() {
    let engine = engine_with(Vec::new());
    let r = engine.generate_numbers_sets_with_required(vec![1, 2, 3, 4, 5, 6, 7]);
    assert_eq!(r.unwrap_err(), LotteryError::InvalidInput);
}

#[test]
fn required_rejects_out_of_range_value() {
    let engine = engine_with(Vec::new());
    let r = engine.generate_numbers_sets_with_required(vec![1, 46]);
    assert_eq!(r.unwrap_err(), LotteryError::InvalidInput);
    let r = engine.generate_numbers_sets_with_required(vec![0, 4]);
    assert_eq!(r.unwrap_err(), LotteryError::InvalidInput);
}

#[test]
fn required_rejects_repeated_value() {
    let engine = engine_with(Vec::new());
    let r = engine.generate_numbers_sets_with_required(vec![4, 9, 4]);
    assert_eq!(r.unwrap_err(), LotteryError::InvalidInput);
}

#[test]
fn required_full_combination_reports_partial_count() {
    // with six required numbers only one combination exists, so asking for
    // five must fail and report that exactly one was produced
    let engine = engine_with(Vec::new());
    let r = engine.generate_sets_with_required(&vec![1, 2, 3, 4, 5, 6], 5);
    assert_eq!(r.unwrap_err(), LotteryError::InsufficientCombinations(1));
}

#[test]
fn required_full_excluded_combination_produces_nothing() {
    // the single possible combination is a historical first-tier match
    let engine = engine_with(vec![LotteryDrawing {
        round: 1,
        numbers: vec![1, 2, 3, 4, 5, 6],
        bonus: 7,
    }]);
    let r = engine.generate_sets_with_required(&vec![1, 2, 3, 4, 5, 6], 5);
    assert_eq!(r.unwrap_err(), LotteryError::InsufficientCombinations(0));
}

#[test]
fn required_single_combination_succeeds_when_asked_for_one() {
    let engine = engine_with(Vec::new());
    let batch = engine.generate_sets_with_required(&vec![6, 5, 4, 3, 2, 1], 1).unwrap();
    assert_eq!(batch, vec![vec![1, 2, 3, 4, 5, 6]]);
}
