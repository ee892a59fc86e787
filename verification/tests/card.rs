use poker_core::{Card, CardParseError};
use std::str::FromStr;

#[test]
fn parses_standard_notation() {
    let card = Card::from_str("As").unwrap();
    assert_eq!(card.rank(), 14);
    assert_eq!(card.suit(), 3);
    assert_eq!(card.to_string(), "As");
}

#[test]
fn parses_lowercase() {
    let card = Card::from_str("td").unwrap();
    assert_eq!(card.rank(), 10);
    assert_eq!(card.suit(), 1);
}

#[test]
fn rejects_invalid_card() {
    assert_eq!(Card::from_str("1x"), Err(CardParseError::InvalidRank));
    assert_eq!(Card::from_str("Az"), Err(CardParseError::InvalidSuit));
    assert_eq!(Card::from_str("A"), Err(CardParseError::InvalidLength));
}

#[test]
fn parse_trims_whitespace_and_accepts_upper_case_suits() {
    let card = Card::from_str("  KH \n").unwrap();
    assert_eq!(card.rank(), 13);
    assert_eq!(card.suit(), 2);
    assert_eq!(card.to_string(), "Kh");
}

#[test]
fn parse_rejects_three_characters() {
    assert_eq!(Card::from_str("10h"), Err(CardParseError::InvalidLength));
}

#[test]
fn parse_two_byte_character_is_rejected_without_panic() {
    assert!(!Card::is_readable("é"));
    assert_eq!(Card::from_str("é"), Err(CardParseError::InvalidLength));
}

#[test]
fn try_new_reports_rank_before_suit() {
    assert_eq!(Card::try_new(1, 9), Err(CardParseError::InvalidRank));
    assert_eq!(Card::try_new(15, 0), Err(CardParseError::InvalidRank));
    assert_eq!(Card::try_new(2, 4), Err(CardParseError::InvalidSuit));
    assert_eq!(Card::try_new(14, 0), Ok(Card::new(14, 0)));
}

#[test]
fn rank_and_suit_chars() {
    let card = Card::new(12, 0);
    assert_eq!(card.rank_char(), 'Q');
    assert_eq!(card.suit_char(), 'c');
    assert_eq!(Card::new(2, 1).to_string(), "2d");
}

#[test]
fn every_card_reads_back_from_its_text() {
    for rank in 2..=14 {
        for suit in 0..4 {
            let card = Card::new(rank, suit);
            assert_eq!(Card::from_str(&card.to_string()), Ok(card));
        }
    }
}
