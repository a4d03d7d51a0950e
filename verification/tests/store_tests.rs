use lottery_engine::LotteryDrawing;
use lottery_engine::LotteryEngine;
use lottery_engine::LotteryError;

fn drawing(round: u32, numbers: [u8; 6], bonus: u8) -> LotteryDrawing {
    LotteryDrawing { round, numbers: numbers.to_vec(), bonus }
}

#[test]
fn new_empty_store() {
    let engine = LotteryEngine::new(Vec::new()).unwrap();
    assert!(engine.get_round_range().is_none());
    assert_eq!(engine.all().len(), 0);
}

#[test]
fn new_sorts_and_keeps_records() {
    let records = vec![
        drawing(7, [1, 2, 3, 4, 5, 6], 7),
        drawing(2, [10, 20, 30, 40, 41, 42], 45),
        drawing(5, [5, 15, 25, 35, 44, 45], 1),
    ];
    let engine = LotteryEngine::new(records).unwrap();
    let all = engine.all();
    assert_eq!(all.len(), 3);
    assert_eq!(all[0].round, 2);
    assert_eq!(all[1].round, 5);
    assert_eq!(all[2].round, 7);
    assert_eq!(engine.get_round_range(), Some((2, 7, 3)));
}

#[test]
fn new_rejects_invalid_record() {
    let records = vec![
        drawing(1, [1, 2, 3, 4, 5, 6], 7),
        drawing(2, [0, 2, 3, 4, 5, 6], 7),
    ];
    match LotteryEngine::new(records) {
        Ok(_) => panic!("a record with a 0 must be rejected"),
        Err(e) => assert_eq!(e, LotteryError::InvalidInput),
    }
}

#[test]
fn add_new_drawing_keeps_round_order_and_fields() {
    let mut engine = LotteryEngine::new(Vec::new()).unwrap();
    engine.add_new_drawing(5, vec![9, 8, 7, 30, 31, 32], 1).unwrap();
    engine.add_new_drawing(1, vec![1, 2, 3, 4, 5, 6], 7).unwrap();
    engine.add_new_drawing(3, vec![45, 44, 43, 42, 41, 40], 39).unwrap();
    let all = engine.all();
    assert_eq!(all.len(), 3);
    assert_eq!(all[0].round, 1);
    assert_eq!(all[1].round, 3);
    assert_eq!(all[2].round, 5);
    // the six numbers keep their stored order; no field is altered
    assert_eq!(all[1].numbers, vec![45, 44, 43, 42, 41, 40]);
    assert_eq!(all[1].bonus, 39);
    assert_eq!(all[2].numbers, vec![9, 8, 7, 30, 31, 32]);
    assert_eq!(all[2].bonus, 1);
}

#[test]
fn add_new_drawing_allows_duplicate_round() {
    let mut engine = LotteryEngine::new(Vec::new()).unwrap();
    engine.add_new_drawing(4, vec![1, 2, 3, 4, 5, 6], 7).unwrap();
    engine.add_new_drawing(4, vec![7, 8, 9, 10, 11, 12], 13).unwrap();
    assert_eq!(engine.get_round_range(), Some((4, 4, 2)));
}

#[test]
fn add_new_drawing_rejects_wrong_count() {
    let mut engine = LotteryEngine::new(Vec::new()).unwrap();
    let r = engine.add_new_drawing(1, vec![1, 2, 3, 4, 5], 7);
    assert_eq!(r.unwrap_err(), LotteryError::InvalidInput);
    assert_eq!(engine.all().len(), 0);
}

#[test]
fn add_new_drawing_rejects_out_of_range_number() {
    let mut engine = LotteryEngine::new(Vec::new()).unwrap();
    let r = engine.add_new_drawing(1, vec![1, 2, 3, 4, 5, 46], 7);
    assert_eq!(r.unwrap_err(), LotteryError::InvalidInput);
}

#[test]
fn add_new_drawing_rejects_duplicate_number() {
    let mut engine = LotteryEngine::new(Vec::new()).unwrap();
    let r = engine.add_new_drawing(1, vec![1, 2, 3, 4, 5, 5], 7);
    assert_eq!(r.unwrap_err(), LotteryError::InvalidInput);
}

#[test]
fn add_new_drawing_rejects_bad_bonus() {
    let mut engine = LotteryEngine::new(Vec::new()).unwrap();
    let r = engine.add_new_drawing(1, vec![1, 2, 3, 4, 5, 6], 0);
    assert_eq!(r.unwrap_err(), LotteryError::InvalidInput);
    let r = engine.add_new_drawing(1, vec![1, 2, 3, 4, 5, 6], 46);
    assert_eq!(r.unwrap_err(), LotteryError::InvalidInput);
}

#[test]
fn round_range_tracks_extremes() {
    let mut engine = LotteryEngine::new(Vec::new()).unwrap();
    assert!(engine.get_round_range().is_none());
    engine.add_new_drawing(100, vec![1, 2, 3, 4, 5, 6], 7).unwrap();
    assert_eq!(engine.get_round_range(), Some((100, 100, 1)));
    engine.add_new_drawing(90, vec![7, 8, 9, 10, 11, 12], 13).unwrap();
    engine.add_new_drawing(110, vec![13, 14, 15, 16, 17, 18], 19).unwrap();
    assert_eq!(engine.get_round_range(), Some((90, 110, 3)));
}
