use lottery_engine::LotteryDrawing;
use lottery_engine::LotteryEngine;

fn engine_with(records: Vec<LotteryDrawing>) -> LotteryEngine {
    LotteryEngine::new(records).unwrap()
}

fn count_of(table: &Vec<(u8, usize)>, n: u8) -> usize {
    table.iter().find(|e| e.0 == n).expect("every number has an entry").1
}

fn assert_ranking_order(table: &Vec<(u8, usize)>) {
    assert_eq!(table.len(), 45);
    for w in table.windows(2) {
        let (a, b) = (w[0], w[1]);
        assert!(a.1 < b.1 || (a.1 == b.1 && a.0 < b.0));
    }
}

#[test]
fn empty_store_has_45_zero_entries_in_number_order() {
    let engine = engine_with(Vec::new());
    let table = engine.get_number_frequency();
    assert_eq!(table.len(), 45);
    for (i, e) in table.iter().enumerate() {
        assert_eq!(e.0 as usize, i + 1);
        assert_eq!(e.1, 0);
    }
}

#[test]
fn one_record_counts_mains_and_bonus_once() {
    let engine = engine_with(vec![LotteryDrawing {
        round: 1,
        numbers: vec![1, 2, 3, 4, 5, 6],
        bonus: 7,
    }]);
    let table = engine.get_number_frequency();
    assert_ranking_order(&table);
    for n in 1..=7u8 {
        assert_eq!(count_of(&table, n), 1);
    }
    for n in 8..=45u8 {
        assert_eq!(count_of(&table, n), 0);
    }
    // counts ascend: the 38 zero-count numbers come first, in number order,
    // then the seven count-one numbers as 1,2,3,4,5,6,7
    for (i, e) in table[..38].iter().enumerate() {
        assert_eq!(e.0 as usize, i + 8);
        assert_eq!(e.1, 0);
    }
    for (i, e) in table[38..].iter().enumerate() {
        assert_eq!(e.0 as usize, i + 1);
        assert_eq!(e.1, 1);
    }
}

#[test]
fn bonus_merges_into_the_same_counter() {
    let engine = engine_with(vec![
        LotteryDrawing { round: 1, numbers: vec![1, 2, 3, 4, 5, 6], bonus: 1 },
        LotteryDrawing { round: 2, numbers: vec![1, 10, 20, 30, 40, 45], bonus: 2 },
    ]);
    let table = engine.get_number_frequency();
    assert_ranking_order(&table);
    // 1 occurs twice as a main number and once as a bonus
    assert_eq!(count_of(&table, 1), 3);
    // 2 occurs once as a main number and once as a bonus
    assert_eq!(count_of(&table, 2), 2);
    assert_eq!(count_of(&table, 10), 1);
    assert_eq!(count_of(&table, 44), 0);
}

#[test]
fn ranking_breaks_count_ties_by_number() {
    let engine = engine_with(vec![LotteryDrawing {
        round: 1,
        numbers: vec![44, 43, 42, 41, 40, 39],
        bonus: 45,
    }]);
    let table = engine.get_number_frequency();
    assert_ranking_order(&table);
    // zero counts first (numbers 1..38 ascending), then 39..45 each with one
    for (i, e) in table[..38].iter().enumerate() {
        assert_eq!(e.0 as usize, i + 1);
        assert_eq!(e.1, 0);
    }
    for (i, e) in table[38..].iter().enumerate() {
        assert_eq!(e.0 as usize, i + 39);
        assert_eq!(e.1, 1);
    }
}

#[test]
fn calculate_frequency_matches_public_entry_point() {
    let engine = engine_with(vec![LotteryDrawing {
        round: 9,
        numbers: vec![3, 9, 27, 33, 39, 45],
        bonus: 3,
    }]);
    assert_eq!(engine.calculate_frequency(), engine.get_number_frequency());
    assert_eq!(count_of(&engine.calculate_frequency(), 3), 2);
}
