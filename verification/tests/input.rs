use poker_core::input::{
    is_specific_hand, parse_board, parse_board_tokens, parse_cards, parse_hand,
    parse_hand_or_range, parse_path, position_label, ranges_overlap, InputError,
};
use poker_core::{Card, CardParseError};
use std::str::FromStr;

fn card(s: &str) -> Card {
    Card::from_str(s).unwrap()
}

#[test]
fn hand_in_two_forms() {
    assert_eq!(parse_hand("Ah Kd"), Ok([card("Ah"), card("Kd")]));
    assert_eq!(parse_hand("  AhKd "), Ok([card("Ah"), card("Kd")]));
    assert_eq!(parse_hand("   "), Err(InputError::EmptyHand));
    assert_eq!(parse_hand("Ah Ah"), Err(InputError::SameCards));
    assert_eq!(parse_hand("AhAh"), Err(InputError::SameCards));
    assert_eq!(
        parse_hand("Xh Kd"),
        Err(InputError::BadCard("Xh".to_string(), CardParseError::InvalidRank))
    );
    assert_eq!(
        parse_hand("AhKx"),
        Err(InputError::BadCard("Kx".to_string(), CardParseError::InvalidSuit))
    );
    assert_eq!(
        parse_hand("AhKdQ"),
        Err(InputError::BadHandFormat("AhKdQ".to_string()))
    );
}

#[test]
fn board_up_to_five_distinct_cards() {
    assert_eq!(parse_board(""), Ok(Vec::new()));
    assert_eq!(
        parse_board("Ts 7d 2c"),
        Ok(vec![card("Ts"), card("7d"), card("2c")])
    );
    assert_eq!(
        parse_board("2c 3c 4c 5c 6c 7c"),
        Err(InputError::TooManyBoardCards(6))
    );
    assert_eq!(
        parse_board("2c 2c"),
        Err(InputError::DuplicateBoardCard("2c".to_string()))
    );
    assert_eq!(
        parse_board("2c zz"),
        Err(InputError::BadBoardCard("zz".to_string(), CardParseError::InvalidRank))
    );
    let tokens = vec!["Ah".to_string(), "Kd".to_string()];
    assert_eq!(parse_board_tokens(&tokens), Ok(vec![card("Ah"), card("Kd")]));
    let many: Vec<String> = ["2c", "3c", "4c", "5c", "6c", "7c"].iter().map(|s| s.to_string()).collect();
    assert_eq!(parse_board_tokens(&many), Err(InputError::TooManyBoardCards(6)));
}

#[test]
fn card_lists_of_a_given_length() {
    assert_eq!(parse_cards("Ah Kd Qc", 3), Ok(vec![card("Ah"), card("Kd"), card("Qc")]));
    assert_eq!(parse_cards("Ah Kd", 3), Err(InputError::WrongCardCount(3, 2)));
    assert_eq!(
        parse_cards("Ah Ah Qc", 3),
        Err(InputError::DuplicateCard("Ah".to_string()))
    );
    assert_eq!(
        parse_cards("Ah K Qc", 3),
        Err(InputError::BadCard("K".to_string(), CardParseError::InvalidLength))
    );
}

#[test]
fn hand_or_range_arguments() {
    assert!(is_specific_hand("Ah Kd"));
    assert!(!is_specific_hand("AKs,QQ+"));
    assert_eq!(
        parse_hand_or_range("Ah Kd"),
        Ok(vec![[card("Ah"), card("Kd")]])
    );
    assert_eq!(parse_hand_or_range("AKs").map(|r| r.len()), Ok(4));
    assert_eq!(
        parse_hand_or_range("zz"),
        Err(InputError::BadNotation("zz".to_string()))
    );
    let a = parse_hand_or_range("AA").unwrap();
    let k = parse_hand_or_range("KK").unwrap();
    let ak = parse_hand_or_range("Ah Kd").unwrap();
    assert!(!ranges_overlap(&a, &k));
    assert!(ranges_overlap(&a, &ak));
}

#[test]
fn cache_path_argument() {
    assert_eq!(parse_path(&vec![]), Ok("equity_cache.bin".to_string()));
    assert_eq!(
        parse_path(&vec!["x.bin".to_string()]),
        Ok("x.bin".to_string())
    );
    assert!(parse_path(&vec!["x.bin".to_string(), "-h".to_string()]).is_err());
    assert_eq!(
        parse_path(&vec!["--help".to_string()]),
        Err("usage: verify_cache [PATH]\n  default: equity_cache.bin in current directory".to_string())
    );
}

#[test]
fn seat_labels() {
    assert_eq!(position_label(2, 0), "SB");
    assert_eq!(position_label(2, 1), "BB");
    assert_eq!(position_label(3, 0), "BTN");
    assert_eq!(position_label(3, 1), "SB");
    assert_eq!(position_label(3, 2), "BB");
}
