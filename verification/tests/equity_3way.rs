use poker_core::equity_3way::{
    classify_bb_scenario, dummy_rank, has_duplicate, hash_six, place_of, shares_tally,
    BoardSampler, PLACES_SEED,
};
use poker_core::monte_carlo::{card_seed, hash_hand, heads_up_tally, overlaps};
use poker_core::showdown::Tally;
use poker_core::{evaluate_hand, Card};

fn hand(a: &str, b: &str) -> [Card; 2] {
    [a.parse().expect("card"), b.parse().expect("card")]
}

fn shares(t: &Tally, iterations: u64) -> [f64; 3] {
    let mut out = [0.0; 3];
    for (i, p) in t.players.iter().enumerate() {
        out[i] = (p.wins as f64 + p.splits[2] as f64 / 2.0 + p.splits[3] as f64 / 3.0)
            / iterations as f64;
    }
    out
}

#[test]
fn aa_is_ahead_in_three_way() {
    let aa = hand("Ah", "Ad");
    let kk = hand("Kh", "Kd");
    let qq = hand("Qh", "Qd");
    let t = shares_tally(aa, kk, qq, 4_000).expect("distinct cards");
    let eq = shares(&t, 4_000)[0];
    assert!(eq > 0.45, "AA 3-way equity {eq}");
    assert!(eq < 0.75, "AA 3-way equity {eq}");
}

#[test]
fn shares_sum_to_one() {
    let t = shares_tally(hand("Ah", "Kd"), hand("Qc", "Js"), hand("7h", "7d"), 3_000)
        .expect("distinct cards");
    let s = shares(&t, 3_000);
    let sum = s[0] + s[1] + s[2];
    assert!((sum - 1.0).abs() < 1e-9, "sum {sum}");
}

#[test]
fn shared_card_gives_no_tally() {
    assert!(shares_tally(hand("Ah", "Kd"), hand("Ah", "Js"), hand("7h", "7d"), 10).is_none());
    assert!(has_duplicate(&[
        "Ah".parse().unwrap(),
        "Kd".parse().unwrap(),
        "Ah".parse().unwrap(),
        "Js".parse().unwrap(),
        "7h".parse().unwrap(),
        "7d".parse().unwrap(),
    ]));
}

#[test]
fn hash_six_folds_rank_then_suit() {
    let c: Card = "2c".parse().unwrap();
    let h = hash_six([c, c, c, c, c, c]);
    let mut expected: u64 = 0;
    for _ in 0..6 {
        expected = expected.wrapping_mul(53).wrapping_add(2);
        expected = expected.wrapping_mul(53).wrapping_add(0);
    }
    assert_eq!(h, expected);
    assert_ne!(h, 0);
    let hero = hand("Ah", "Kd");
    let villain = hand("Qc", "Js");
    let mut by_hand: u64 = 0;
    for card in [hero[0], hero[1], villain[0], villain[1]] {
        by_hand = by_hand.wrapping_mul(53).wrapping_add(card.rank() as u64);
        by_hand = by_hand.wrapping_mul(53).wrapping_add(card.suit() as u64);
    }
    assert_eq!(hash_hand(hero, villain), by_hand);
}

#[test]
fn sampler_deals_distinct_live_cards() {
    let dead = [
        "Ah".parse().unwrap(),
        "Ad".parse().unwrap(),
        "Kh".parse().unwrap(),
        "Kd".parse().unwrap(),
        "Qh".parse().unwrap(),
        "Qd".parse().unwrap(),
    ];
    let mut a = BoardSampler::new(dead, PLACES_SEED);
    let mut b = BoardSampler::new(dead, PLACES_SEED);
    for _ in 0..50 {
        let board = a.next_board();
        assert_eq!(board, b.next_board());
        for i in 0..5 {
            assert!(!dead.contains(&board[i]));
            for j in (i + 1)..5 {
                assert_ne!(board[i], board[j]);
            }
        }
    }
}

#[test]
fn place_counts_better_and_tied() {
    let hi = dummy_rank(["Ah", "Ad", "Ac", "As", "Kh", "2c", "3d"]);
    let mid = dummy_rank(["Kh", "Kd", "Kc", "Qh", "Qd", "2s", "3s"]);
    let lo = dummy_rank(["9h", "8d", "7c", "5s", "4h", "3c", "2d"]);
    assert_eq!(place_of([hi, mid, lo], 0), (0, 1));
    assert_eq!(place_of([hi, mid, lo], 1), (1, 1));
    assert_eq!(place_of([hi, mid, lo], 2), (2, 1));
    assert_eq!(place_of([hi, hi, lo], 1), (0, 2));
    assert_eq!(place_of([lo, hi, hi], 0), (2, 1));
    assert_eq!(place_of([mid, mid, mid], 2), (0, 3));
}

#[test]
fn dummy_rank_matches_evaluation() {
    let parsed: [Card; 7] = ["Ah", "Kh", "Qh", "Jh", "Th", "2c", "3d"].map(|c| c.parse().unwrap());
    assert_eq!(
        dummy_rank(["Ah", "Kh", "Qh", "Jh", "Th", "2c", "3d"]),
        evaluate_hand(&parsed)
    );
}

#[test]
fn heads_up_aa_beats_kk_about_four_times_in_five() {
    let (wins, ties) = heads_up_tally(hand("Ah", "Ad"), hand("Kc", "Ks"), 5_000);
    let eq = wins as f64 / 5_000.0 + ties as f64 / 10_000.0;
    assert!((eq - 0.82).abs() < 0.04, "AA vs KK {eq}");
    assert_eq!(heads_up_tally(hand("Ah", "Ad"), hand("Kc", "Ks"), 0), (0, 0));
}

#[test]
fn bb_scenarios_and_seeds() {
    let hi = dummy_rank(["Ah", "Ad", "Ac", "As", "Kh", "2c", "3d"]);
    let mid = dummy_rank(["Kh", "Kd", "Kc", "Qh", "Qd", "2s", "3s"]);
    let lo = dummy_rank(["9h", "8d", "7c", "5s", "4h", "3c", "2d"]);
    assert_eq!(classify_bb_scenario(lo, mid, hi), 1);
    assert_eq!(classify_bb_scenario(lo, hi, mid), 2);
    assert_eq!(classify_bb_scenario(mid, hi, lo), 3);
    assert_eq!(classify_bb_scenario(hi, mid, lo), 4);
    assert_eq!(classify_bb_scenario(hi, hi, lo), 0);
    let ak = hand("Ah", "Kd");
    assert_eq!(card_seed(ak), 14 * 17 + 2 * 5 + 13 * 13 + 1);
    assert!(overlaps(&[ak[1]], hand("Kd", "2c")));
    assert!(!overlaps(&[ak[0], ak[1]], hand("Qd", "2c")));
}
