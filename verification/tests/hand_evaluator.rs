use poker_core::{evaluate_hand, Card, HandCategory};
use std::str::FromStr;

fn cards<const N: usize>(input: &str) -> [Card; N] {
    let parsed: Vec<Card> = input
        .split_whitespace()
        .map(|token| Card::from_str(token).unwrap())
        .collect();

    parsed
        .try_into()
        .expect("invalid card count for test input")
}

#[test]
fn royal_flush_beats_straight_flush() {
    let royal = cards("As Ks Qs Js Ts 2c 3d");
    let straight_flush = cards("9h 8h 7h 6h 5h Ac Kd");

    assert!(evaluate_hand(&royal) > evaluate_hand(&straight_flush));
    assert_eq!(
        evaluate_hand(&royal).category(),
        HandCategory::StraightFlush
    );
}

#[test]
fn four_of_a_kind_beats_full_house() {
    let quads = cards("Ah Ad Ac As Kd Qc 2h");
    let full_house = cards("Kh Kd Kc 9s 9h 2c 3d");

    assert!(evaluate_hand(&quads) > evaluate_hand(&full_house));
    assert_eq!(evaluate_hand(&quads).category(), HandCategory::FourOfAKind);
    assert_eq!(
        evaluate_hand(&full_house).category(),
        HandCategory::FullHouse
    );
}

#[test]
fn flush_beats_straight() {
    let flush = cards("Ah Kh 9h 7h 2h Qc Jd");
    let straight = cards("9c 8d 7h 6s 5c Ah Kd");

    assert!(evaluate_hand(&flush) > evaluate_hand(&straight));
    assert_eq!(evaluate_hand(&flush).category(), HandCategory::Flush);
    assert_eq!(evaluate_hand(&straight).category(), HandCategory::Straight);
}

#[test]
fn wheel_straight_is_detected() {
    let wheel = cards("Ac 2d 3h 4s 5c Kd Qh");

    assert_eq!(evaluate_hand(&wheel).category(), HandCategory::Straight);
}

#[test]
fn picks_best_five_from_seven() {
    let hand = cards("Ah Kh Qh Jh 2h 3c 4d");

    assert_eq!(evaluate_hand(&hand).category(), HandCategory::Flush);
}

#[test]
fn pair_kickers_are_ordered() {
    let top_pair = cards("Ah Ad Kc Qs 9h 2d 3c");
    let weaker_pair = cards("Ah Ad Qc Js 9h 2d 3c");

    assert!(evaluate_hand(&top_pair) > evaluate_hand(&weaker_pair));
    assert_eq!(evaluate_hand(&top_pair).category(), HandCategory::OnePair);
}

#[test]
fn two_pair_ordering() {
    let aces_and_kings = cards("Ah Ad Kc Ks 9h 2d 3c");
    let aces_and_queens = cards("Ah Ad Qc Qs 9h 2d 3c");

    assert!(evaluate_hand(&aces_and_kings) > evaluate_hand(&aces_and_queens));
}

#[test]
fn high_card_ordering() {
    let ace_high = cards("Ah Kd Qc 9s 7h 2d 3c");
    let king_high = cards("Kh Qd Jc 9s 7h 2d 3c");

    assert!(evaluate_hand(&ace_high) > evaluate_hand(&king_high));
    assert_eq!(evaluate_hand(&ace_high).category(), HandCategory::HighCard);
}

const UNIT: u64 = 1 << 52;

#[test]
fn exact_values_of_each_category() {
    // Royal flush: straight flush, ace high.
    assert_eq!(evaluate_hand(&cards("As Ks Qs Js Ts 2c 3d")).value(), 8 * UNIT + (14 << 32));
    // Wheel: straight, five high.
    assert_eq!(evaluate_hand(&cards("Ac 2d 3h 4s 5c Kd Qh")).value(), 4 * UNIT + (5 << 32));
    // Quad aces with king kicker.
    assert_eq!(
        evaluate_hand(&cards("Ah Ad Ac As Kd Qc 2h")).value(),
        7 * UNIT + (14 << 32) + (13 << 24)
    );
    // Kings full of nines.
    assert_eq!(
        evaluate_hand(&cards("Kh Kd Kc 9s 9h 2c 3d")).value(),
        6 * UNIT + (13 << 32) + (9 << 24)
    );
    // Two pair aces and kings, nine kicker.
    assert_eq!(
        evaluate_hand(&cards("Ah Ad Kc Ks 9h 2d 3c")).value(),
        2 * UNIT + (14 << 32) + (13 << 24) + (9 << 16)
    );
    // High card: A K Q 9 7.
    assert_eq!(
        evaluate_hand(&cards("Ah Kd Qc 9s 7h 2d 3c")).value(),
        (14 << 32) + (13 << 24) + (12 << 16) + (9 << 8) + 7
    );
    // Trips with two kickers.
    assert_eq!(
        evaluate_hand(&cards("7h 7d 7c As 9h 2d 3c")).value(),
        3 * UNIT + (7 << 32) + (14 << 24) + (9 << 16)
    );
    // Pair with three kickers.
    assert_eq!(
        evaluate_hand(&cards("Ah Ad Kc Qs 9h 2d 3c")).value(),
        UNIT + (14 << 32) + (13 << 24) + (12 << 16) + (9 << 8)
    );
    // Flush keeps all five ranks.
    assert_eq!(
        evaluate_hand(&cards("Ah Kh 9h 7h 2h Qc Jd")).value(),
        5 * UNIT + (14 << 32) + (13 << 24) + (9 << 16) + (7 << 8) + 2
    );
}

#[test]
fn higher_category_always_wins() {
    let weakest_straight = evaluate_hand(&cards("Ac 2d 3h 4s 5c 8d 9h"));
    let best_trips = evaluate_hand(&cards("Ah Ad Ac Ks Qh 2d 7c"));
    assert!(weakest_straight > best_trips);
}

#[test]
fn card_order_does_not_matter() {
    let a = evaluate_hand(&cards("Ah Kh Qh Jh 2h 3c 4d"));
    let b = evaluate_hand(&cards("4d 3c 2h Jh Qh Kh Ah"));
    assert_eq!(a, b);
}

#[test]
fn category_names_for_display() {
    assert_eq!(poker_core::hand_evaluator::category_name(HandCategory::HighCard), "High Card");
    assert_eq!(
        poker_core::hand_evaluator::category_name(HandCategory::StraightFlush),
        "Straight Flush"
    );
    let royal = cards::<7>("As Ks Qs Js Ts 2c 3d");
    assert_eq!(
        poker_core::hand_evaluator::category_name(evaluate_hand(&royal).category()),
        "Straight Flush"
    );
}
