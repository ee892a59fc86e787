use poker_core::equity::normalize_hand;
use poker_core::{parse_range, Card};
use std::str::FromStr;

fn card(s: &str) -> Card {
    Card::from_str(s).unwrap()
}

#[test]
fn parse_range_counts() {
    assert_eq!(parse_range("AA").len(), 6);
    assert_eq!(parse_range("AKs").len(), 4);
    assert_eq!(parse_range("AKo").len(), 12);
    assert_eq!(parse_range("77+").len(), 48);
    assert_eq!(parse_range("A2s-A5s").len(), 16);
}

#[test]
fn parse_range_handles_common_tokens() {
    let range = parse_range("AA,KK,AKs,AQo+,77+,A2s-A5s");

    assert!(range.contains(&normalize_hand([card("Ah"), card("Ad")])));
    assert!(range.contains(&normalize_hand([card("Kh"), card("Kd")])));
    assert!(range.contains(&normalize_hand([card("Ah"), card("Kh")])));
    assert!(range.contains(&normalize_hand([card("Ah"), card("Qd")])));
    assert!(range.contains(&normalize_hand([card("Ah"), card("Kd")])));
    assert!(range.contains(&normalize_hand([card("7h"), card("7d")])));
    assert!(range.contains(&normalize_hand([card("Ah"), card("2h")])));
    assert!(range.contains(&normalize_hand([card("Ah"), card("5h")])));
    assert!(!range.contains(&normalize_hand([card("Ah"), card("6h")])));
}

#[test]
fn parse_range_is_sorted_without_repeats() {
    let range = parse_range("AA, AA ,KK,AKs,AKs");
    assert_eq!(range.len(), 16);
    for pair in range.windows(2) {
        assert!(pair[0] < pair[1]);
    }
}

#[test]
fn parse_range_ignores_empty_and_unknown_tokens() {
    assert!(parse_range("").is_empty());
    assert!(parse_range(" , ,").is_empty());
    assert!(parse_range("AK").is_empty());
    assert!(parse_range("XYZ").is_empty());
}

#[test]
fn parse_range_lower_case_and_offsuit_plus() {
    assert_eq!(parse_range("aks").len(), 4);
    // AJo, AQo, AKo
    assert_eq!(parse_range("AJo+").len(), 36);
    // Suffix other than s or o names the pair of the higher rank.
    assert_eq!(parse_range("AKx").len(), 6);
}

#[test]
fn normalize_puts_higher_card_first() {
    let h = normalize_hand([card("2c"), card("Ah")]);
    assert_eq!(h, [card("Ah"), card("2c")]);
    let p = normalize_hand([card("Ac"), card("Ah")]);
    assert_eq!(p, [card("Ah"), card("Ac")]);
}

#[test]
fn joined_range_is_union_of_parts() {
    assert_eq!(parse_range("KK,AA"), parse_range("AA,KK"));
    assert_eq!(parse_range("AA,AA"), parse_range("AA"));
    let mut both = parse_range("QQ+");
    both.extend(parse_range("AKs"));
    both.sort();
    both.dedup();
    assert_eq!(parse_range("QQ+,AKs"), both);
    assert_eq!(parse_range("XYZ,AA"), parse_range("AA"));
}
