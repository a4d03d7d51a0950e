use lottery_engine::LotteryDrawing;
use lottery_engine::LotteryEngine;

fn engine_with(records: Vec<LotteryDrawing>) -> LotteryEngine {
    LotteryEngine::new(records).unwrap()
}

#[test]
fn exclusion_holds_main_combination_sorted() {
    let engine = engine_with(vec![LotteryDrawing {
        round: 1,
        numbers: vec![30, 5, 12, 45, 1, 22],
        bonus: 7,
    }]);
    let excl = engine.get_used_combinations();
    assert!(excl.contains(&vec![1, 5, 12, 22, 30, 45]));
    assert!(!excl.contains(&vec![1, 5, 12, 22, 30, 44]));
}

#[test]
fn exclusion_holds_every_bonus_variant() {
    let engine = engine_with(vec![LotteryDrawing {
        round: 1,
        numbers: vec![1, 2, 3, 4, 5, 6],
        bonus: 7,
    }]);
    let excl = engine.get_used_combinations();
    // first tier
    assert!(excl.contains(&vec![1, 2, 3, 4, 5, 6]));
    // second tier: each position replaced by the bonus, sorted
    assert!(excl.contains(&vec![2, 3, 4, 5, 6, 7]));
    assert!(excl.contains(&vec![1, 3, 4, 5, 6, 7]));
    assert!(excl.contains(&vec![1, 2, 4, 5, 6, 7]));
    assert!(excl.contains(&vec![1, 2, 3, 5, 6, 7]));
    assert!(excl.contains(&vec![1, 2, 3, 4, 6, 7]));
    assert!(excl.contains(&vec![1, 2, 3, 4, 5, 7]));
    // nothing beyond the seven combinations of this record
    assert!(!excl.contains(&vec![1, 2, 3, 4, 5, 8]));
    assert!(!excl.contains(&vec![1, 2, 3, 4, 7, 8]));
}

#[test]
fn exclusion_bonus_among_numbers_edge_case() {
    // the bonus equals a main number: a substitution can repeat a value,
    // so a variant has fewer than six distinct values
    let engine = engine_with(vec![LotteryDrawing {
        round: 1,
        numbers: vec![1, 2, 3, 4, 5, 6],
        bonus: 3,
    }]);
    let excl = engine.get_used_combinations();
    assert!(excl.contains(&vec![1, 2, 3, 4, 5, 6]));
    // replacing position 0 by the bonus gives 3,2,3,4,5,6 -> 2,3,3,4,5,6
    assert!(excl.contains(&vec![2, 3, 3, 4, 5, 6]));
    // replacing the bonus's own position reproduces the main combination
    assert!(excl.contains(&vec![1, 2, 3, 4, 5, 6]));
    assert!(excl.contains(&vec![1, 2, 3, 3, 5, 6]));
}

#[test]
fn exclusion_build_is_idempotent() {
    let engine = engine_with(vec![
        LotteryDrawing { round: 1, numbers: vec![1, 2, 3, 4, 5, 6], bonus: 7 },
        LotteryDrawing { round: 2, numbers: vec![40, 41, 42, 43, 44, 45], bonus: 1 },
    ]);
    let e1 = engine.get_used_combinations();
    let e2 = engine.get_used_combinations();
    // the two builds agree on members and non-members alike
    let probes: Vec<Vec<u8>> = vec![
        vec![1, 2, 3, 4, 5, 6],
        vec![2, 3, 4, 5, 6, 7],
        vec![1, 40, 41, 42, 43, 44],
        vec![1, 41, 42, 43, 44, 45],
        vec![10, 11, 12, 13, 14, 15],
        vec![1, 2, 3, 4, 5, 7],
    ];
    for p in &probes {
        assert_eq!(e1.contains(p), e2.contains(p));
    }
    assert!(e1.contains(&vec![1, 41, 42, 43, 44, 45]));
    assert!(!e1.contains(&vec![10, 11, 12, 13, 14, 15]));
}

#[test]
fn exclusion_across_several_records() {
    let engine = engine_with(vec![
        LotteryDrawing { round: 1, numbers: vec![1, 2, 3, 4, 5, 6], bonus: 7 },
        LotteryDrawing { round: 2, numbers: vec![10, 11, 12, 13, 14, 15], bonus: 16 },
    ]);
    let excl = engine.get_used_combinations();
    assert!(excl.contains(&vec![1, 2, 3, 4, 5, 6]));
    assert!(excl.contains(&vec![10, 11, 12, 13, 14, 15]));
    assert!(excl.contains(&vec![11, 12, 13, 14, 15, 16]));
    assert!(!excl.contains(&vec![1, 2, 3, 13, 14, 15]));
}
