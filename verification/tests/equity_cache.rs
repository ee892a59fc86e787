use poker_core::blockers::{build_unblocked, count_unblocked, expand_hand_to_combos};
use poker_core::equity_cache::{
    combo_index, combo_label, combo_weight, disjoint_matchups, expand_combo, hands_overlap, index_to_ranks,
    matrix_combo_index, table_index,
};
use poker_core::Card;
use std::str::FromStr;

fn card(text: &str) -> Card {
    Card::from_str(text).expect("valid test card")
}

#[test]
fn combo_index_roundtrip() {
    for idx in 0..169_u8 {
        for hand in expand_combo(idx) {
            let roundtrip = combo_index(hand);
            assert_eq!(
                roundtrip, idx,
                "hand {:?} mapped to {roundtrip}, expected {idx}",
                hand
            );
        }
    }
}

#[test]
fn expand_combo_counts() {
    assert_eq!(expand_combo(0).len(), 6);
    assert_eq!(expand_combo(13).len(), 4);
    assert_eq!(expand_combo(91).len(), 12);
    assert_eq!(expand_combo(168).len(), 12);
}

#[test]
fn index_layout_of_the_matrix() {
    assert_eq!(combo_index([card("Ah"), card("Ad")]), 0);
    assert_eq!(combo_index([card("2h"), card("2d")]), 12);
    assert_eq!(combo_index([card("Ah"), card("Kh")]), 13);
    assert_eq!(combo_index([card("Kh"), card("Ah")]), 13);
    assert_eq!(combo_index([card("Ah"), card("Kd")]), 91);
    assert_eq!(combo_index([card("3h"), card("2d")]), 168);
    assert_eq!(index_to_ranks(0), (14, 14, false));
    assert_eq!(index_to_ranks(13), (14, 13, true));
    assert_eq!(index_to_ranks(91), (14, 13, false));
    assert_eq!(index_to_ranks(168), (3, 2, false));
    assert_eq!(matrix_combo_index(0, 0), 0);
    assert_eq!(matrix_combo_index(0, 1), 13);
    assert_eq!(matrix_combo_index(1, 0), 91);
    assert_eq!(combo_weight(0), 6);
    assert_eq!(combo_weight(13), 4);
    assert_eq!(combo_weight(91), 12);
    assert_eq!(table_index(0, 0), 0);
    assert_eq!(table_index(1, 2), 171);
    assert_eq!(table_index(168, 168), 169 * 169 - 1);
}

#[test]
fn matchups_leave_out_shared_cards() {
    let aa = expand_combo(0);
    let ak_suited = expand_combo(13);
    let pairs = disjoint_matchups(&aa, &ak_suited);
    // Each of the 6 aces pairs blocks the suited AK of both its suits.
    assert_eq!(pairs.len(), 6 * 2);
    for (a, b) in &pairs {
        assert!(!hands_overlap(*a, *b));
    }
    assert_eq!(disjoint_matchups(&aa, &aa).len(), 1 * 6);
}

#[test]
fn unblocked_counts_per_type() {
    let combos: Vec<Vec<[Card; 2]>> = (0..3_u8).map(expand_hand_to_combos).collect();
    let table = build_unblocked(&combos);
    assert_eq!(table.len(), 3);
    assert_eq!(table[0].len(), 6);
    // A pair of aces leaves one pair of aces and all six pairs of kings.
    assert_eq!(table[0][0][0], 1);
    assert_eq!(table[0][0][1], 6);
    assert_eq!(table[0][0][5], 0);
    assert_eq!(count_unblocked([card("Ah"), card("Ad")], &expand_combo(0)), 1);
}

#[test]
fn index_of_two_cards_names_their_ranks() {
    for a in 0..52_u8 {
        for b in 0..52_u8 {
            if a == b {
                continue;
            }
            let ca = Card::new(a / 4 + 2, a % 4);
            let cb = Card::new(b / 4 + 2, b % 4);
            let idx = combo_index([ca, cb]);
            assert!(idx < 169);
            let (high, low, suited) = index_to_ranks(idx);
            assert_eq!(high, ca.rank().max(cb.rank()));
            assert_eq!(low, ca.rank().min(cb.rank()));
            assert_eq!(suited, high != low && ca.suit() == cb.suit());
        }
    }
}

#[test]
fn labels_of_types() {
    assert_eq!(combo_label(0), "AA");
    assert_eq!(combo_label(12), "22");
    assert_eq!(combo_label(13), "AKs");
    assert_eq!(combo_label(91), "AKo");
    assert_eq!(combo_label(168), "32o");
}
