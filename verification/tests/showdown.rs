use poker_core::equity::normalize_hand;
use poker_core::monte_carlo::monte_carlo_tally;
use poker_core::showdown::{
    accumulate_showdown, available_cards, exact_tally, has_duplicates, validate_board, PlayerTally,
    Tally,
};
use poker_core::{evaluate_hand, Card, HandRange};
use std::str::FromStr;

fn card(s: &str) -> Card {
    Card::from_str(s).unwrap()
}

fn specific(hole: [&str; 2]) -> HandRange {
    vec![normalize_hand([card(hole[0]), card(hole[1])])]
}

fn cards(text: &str) -> Vec<Card> {
    text.split_whitespace().map(card).collect()
}

/// Share of the pots won: wins alone plus each split pot divided among its
/// winners, over all showdowns.
fn equity(p: &PlayerTally, showdowns: u64) -> f64 {
    let mut won = p.wins as f64;
    for (k, &n) in p.splits.iter().enumerate() {
        if k >= 2 {
            won += n as f64 / k as f64;
        }
    }
    won / showdowns as f64
}

fn tie(p: &PlayerTally, showdowns: u64) -> f64 {
    let mut tie = 0.0;
    for (k, &n) in p.splits.iter().enumerate() {
        if k >= 2 {
            tie += n as f64 * 2.0 / k as f64;
        }
    }
    tie / showdowns as f64
}

#[test]
fn exact_and_monte_carlo_split_on_board_tie() {
    let ranges = [specific(["Ah", "Kd"]), specific(["Ac", "Kh"])];
    let board = cards("2s 3s 4s 5s 6s");

    let exact = exact_tally(&ranges, &board).unwrap();
    assert!((exact.players[0].wins as f64 / exact.showdowns as f64 - 0.0).abs() < f64::EPSILON);
    assert!((tie(&exact.players[0], exact.showdowns) - 1.0).abs() < f64::EPSILON);
    assert!((equity(&exact.players[0], exact.showdowns) - 0.5).abs() < f64::EPSILON);

    let mc = monte_carlo_tally(&ranges, &board, 10_000);
    assert!((equity(&mc.players[0], mc.showdowns) - 0.5).abs() < 0.02);
}

#[test]
fn three_way_tie_equity_uses_share_formula() {
    let ranges = [
        specific(["Ah", "Kd"]),
        specific(["Ac", "Qc"]),
        specific(["Ad", "Jd"]),
    ];
    let board = cards("2s 3s 4s 5s 6s");

    let exact = exact_tally(&ranges, &board).unwrap();
    for result in &exact.players {
        assert!((equity(result, exact.showdowns) - 1.0 / 3.0).abs() < 0.001);
    }
}

#[test]
fn exact_river_count_covers_every_card_left() {
    let ranges = [specific(["Ah", "Ad"]), specific(["Kh", "Kd"])];
    let board = cards("2c 7d 9s Jc");
    let t = exact_tally(&ranges, &board).unwrap();
    // 52 cards minus 4 on the board minus 4 in the hands.
    assert_eq!(t.showdowns, 44);
    // Only the two remaining kings save the pair of kings.
    assert_eq!(t.players[1].wins, 2);
    assert_eq!(t.players[0].wins, 42);
    assert_eq!(t.players[0].losses, 2);
    assert_eq!(t.players[1].losses, 42);
}

#[test]
fn exact_pots_add_up_over_players() {
    let ranges = [
        specific(["Ah", "Kd"]),
        specific(["Qc", "Qh"]),
        specific(["7s", "8s"]),
    ];
    let board = cards("Ac Kh 2s 9s");
    let t = exact_tally(&ranges, &board).unwrap();
    let n = ranges.len();
    for p in &t.players {
        let counted: u64 = p.wins + p.losses + p.splits.iter().sum::<u64>();
        assert_eq!(counted, t.showdowns);
        assert_eq!(p.splits[0], 0);
        assert_eq!(p.splits[1], 0);
    }
    let mut pots = t.players.iter().map(|p| p.wins).sum::<u64>();
    for k in 2..=n {
        let shares: u64 = t.players.iter().map(|p| p.splits[k]).sum();
        assert_eq!(shares % k as u64, 0);
        pots += shares / k as u64;
    }
    assert_eq!(pots, t.showdowns);
    let total: f64 = t.players.iter().map(|p| equity(p, t.showdowns)).sum();
    assert!((total - 1.0).abs() < 1e-9);
}

#[test]
fn exact_skips_blocked_holdings() {
    let ranges = [specific(["Ah", "Kd"]), specific(["Ah", "Qd"])];
    let board = cards("2c 3c 4c 5c");
    let t = exact_tally(&ranges, &board).unwrap();
    assert_eq!(t.showdowns, 0);
}

#[test]
fn monte_carlo_counts_every_round_that_deals() {
    let ranges = [specific(["Ah", "Ad"]), specific(["Kh", "Kd"])];
    let t = monte_carlo_tally(&ranges, &[], 2_000);
    assert_eq!(t.showdowns, 2_000);
    let again = monte_carlo_tally(&ranges, &[], 2_000);
    assert_eq!(t.players[0].wins, again.players[0].wins);
    let aa = equity(&t.players[0], t.showdowns);
    assert!((aa - 0.82).abs() < 0.04, "AA vs KK {aa}");
}

#[test]
fn monte_carlo_without_ranges_counts_nothing() {
    let t = monte_carlo_tally(&[], &[], 100);
    assert_eq!(t.showdowns, 0);
    assert!(t.players.is_empty());
    let blocked = [specific(["Ah", "Kd"]), specific(["Ah", "Qd"])];
    let none = monte_carlo_tally(&blocked, &[], 100);
    assert_eq!(none.showdowns, 0);
}

#[test]
fn accumulate_showdown_credits_split_and_loss() {
    let mut t = Tally::new(3);
    let high = evaluate_hand(&[
        card("Ah"),
        card("Ad"),
        card("Ac"),
        card("As"),
        card("Kh"),
        card("2c"),
        card("3d"),
    ]);
    let low = evaluate_hand(&[
        card("9h"),
        card("8d"),
        card("7c"),
        card("5s"),
        card("4h"),
        card("3c"),
        card("2d"),
    ]);
    accumulate_showdown(&vec![high, low, high], &mut t);
    assert_eq!(t.showdowns, 1);
    assert_eq!(t.players[0].splits[2], 1);
    assert_eq!(t.players[2].splits[2], 1);
    assert_eq!(t.players[1].losses, 1);
    accumulate_showdown(&vec![low, high, low], &mut t);
    assert_eq!(t.players[1].wins, 1);
    assert_eq!(t.players[0].losses, 1);
    assert_eq!(t.showdowns, 2);
}

#[test]
fn board_checks() {
    assert!(validate_board(&cards("2c 3c 4c")));
    assert!(!validate_board(&cards("2c 3c 4c 5c 6c 7c")));
    assert!(!validate_board(&cards("2c 3c 2c")));
    assert!(has_duplicates(&cards("Ah Kd Ah")));
    assert!(!has_duplicates(&cards("Ah Kd")));
}

#[test]
fn available_cards_leave_out_dead_in_deck_order() {
    let dead = cards("2c 3c Ah");
    let deck = available_cards(&dead);
    assert_eq!(deck.len(), 49);
    assert_eq!(deck[0], card("4c"));
    assert!(!deck.contains(&card("Ah")));
    let full = available_cards(&Vec::new());
    assert_eq!(full.len(), 52);
    assert_eq!(full[0], Card::new(2, 0));
    assert_eq!(full[13], Card::new(2, 1));
    assert_eq!(full[51], Card::new(14, 3));
}

#[test]
fn monte_carlo_pots_add_up_over_players() {
    let ranges = [
        poker_core::parse_range("AA,KK"),
        poker_core::parse_range("QQ"),
        poker_core::parse_range("AKs"),
    ];
    let t = monte_carlo_tally(&ranges, &[], 500);
    assert!(t.showdowns > 0);
    let mut pots = t.players.iter().map(|p| p.wins).sum::<u64>();
    for k in 2..=ranges.len() {
        let shares: u64 = t.players.iter().map(|p| p.splits[k]).sum();
        assert_eq!(shares % k as u64, 0);
        pots += shares / k as u64;
    }
    assert_eq!(pots, t.showdowns);
    for p in &t.players {
        assert_eq!(p.wins + p.losses + p.splits.iter().sum::<u64>(), t.showdowns);
    }
}
