use poker_core::hh_parser::{hand_from_matches, parse_ante_from_posts, seats_clockwise_from_button};
use poker_core::{
    hh_position_label, is_non_push_fold_situation, parse_hand_history, solver_position_index,
    ParseError, Position,
};

const BASIC_HH: &str = r"PokerStars Hand #262106673632: Tournament #4032582650, $0.85+$0.15 USD Hold'em No Limit - Level VII (100/200)

2026/09/16 20:18:50 ET
Table '4032582650 1' 9-max Seat #4 is the button
Seat 2: bbcbcv3 (1807 in chips)
Seat 4: grande.h74 (8601 in chips)
Seat 9: SeanPL41 (3092 in chips)
bbcbcv3: posts the ante 25
grande.h74: posts the ante 25
SeanPL41: posts the ante 25
SeanPL41: posts small blind 100
bbcbcv3: posts big blind 200
*** HOLE CARDS ***
Dealt to grande.h74 [Ah Kd]
grande.h74: raises 400 to 600
SeanPL41: calls 500
bbcbcv3: folds
*** FLOP *** [2c 7h Ts]
";

#[test]
fn parse_basic_example() {
    let hand = parse_hand_history(BASIC_HH).expect("should parse");
    assert_eq!(hand.tournament_id.as_deref(), Some("4032582650"));
    assert_eq!(hand.buy_in.as_deref(), Some("0.85"));
    assert_eq!(hand.fee.as_deref(), Some("0.15"));
    assert_eq!(hand.small_blind, 100);
    assert_eq!(hand.big_blind, 200);
    assert_eq!(hand.ante, 25);
    assert_eq!(hand.table_max, 9);
    assert_eq!(hand.button_seat, 4);
    assert_eq!(hand.players.len(), 3);
    assert_eq!(hand.level.as_deref(), Some("VII"));

    let stacks: Vec<u64> = hand.players.iter().map(|p| p.stack).collect();
    assert!(stacks.contains(&1807));
    assert!(stacks.contains(&8601));
    assert!(stacks.contains(&3092));
}

#[test]
fn positions_3max() {
    let hand = parse_hand_history(BASIC_HH).expect("should parse");
    let btn = hand
        .players
        .iter()
        .find(|p| p.position == Position::BTN)
        .expect("BTN");
    assert_eq!(btn.seat, 4);
    assert_eq!(btn.name, "grande.h74");

    let sb = hand
        .players
        .iter()
        .find(|p| p.position == Position::SB)
        .expect("SB");
    assert_eq!(sb.seat, 9);
    assert_eq!(sb.name, "SeanPL41");

    let bb = hand
        .players
        .iter()
        .find(|p| p.position == Position::BB)
        .expect("BB");
    assert_eq!(bb.seat, 2);
    assert_eq!(bb.name, "bbcbcv3");
}

#[test]
fn empty_input_returns_error() {
    assert!(matches!(parse_hand_history(""), Err(ParseError::Empty)));
}

#[test]
fn not_tournament_returns_error() {
    let text = "PokerStars Hand #xxx: Hold'em No Limit";
    assert!(matches!(
        parse_hand_history(text),
        Err(ParseError::NotPokerStarsTournament)
    ));
}

#[test]
fn missing_blinds_returns_error() {
    let text = "PokerStars Hand #1: Tournament #123, $1+$0.10 USD Hold'em No Limit\nSeat 1: player (1000 in chips)";
    assert!(matches!(
        parse_hand_history(text),
        Err(ParseError::NoBlinds)
    ));
}

#[test]
fn hu_two_players() {
    let text = r"PokerStars Hand #1: Tournament #999, $1+$0.10 USD Hold'em No Limit - Level I (25/50)
Table '1' 9-max Seat #3 is the button
Seat 3: Hero (1000 in chips)
Seat 7: Villain (1500 in chips)
Hero: posts small blind 25
Villain: posts big blind 50
*** HOLE CARDS ***";
    let hand = parse_hand_history(text).expect("should parse HU");
    assert_eq!(hand.players.len(), 2);

    let btn = hand.players.iter().find(|p| p.seat == 3).expect("button");
    assert_eq!(btn.position, Position::BTN);
    assert_eq!(btn.name, "Hero");

    let bb = hand.players.iter().find(|p| p.seat == 7).expect("bb");
    assert_eq!(bb.position, Position::BB);
    assert_eq!(bb.name, "Villain");
}

#[test]
fn ante_zero_when_not_present() {
    let text = r"PokerStars Hand #1: Tournament #123, $1+$0.10 USD Hold'em No Limit - Level I (25/50)
Table '1' 9-max Seat #1 is the button
Seat 1: A (1000 in chips)
Seat 2: B (1000 in chips)
Seat 3: C (1000 in chips)
A: posts small blind 25
B: posts big blind 50
*** HOLE CARDS ***";
    let hand = parse_hand_history(text).expect("should parse");
    assert_eq!(hand.ante, 0);
}

#[test]
fn detects_non_push_fold() {
    assert!(is_non_push_fold_situation(BASIC_HH));
}

#[test]
fn push_fold_hand_is_not_flagged() {
    let text = "Hero: raises 900 to 1000 and is all-in\nVillain: calls 900 and is all-in\r\n";
    assert!(!is_non_push_fold_situation(text));
    assert!(is_non_push_fold_situation("Villain: calls 100\r\n"));
}

#[test]
fn too_many_players_and_header_ante() {
    let text = r"PokerStars Hand #1: Tournament #5, $1+$0.10 USD Hold'em No Limit - Level II (50/100/10)
Table '1' 6-max Seat #1 is the button
Seat 1: A (1000 in chips)
Seat 2: B (1000 in chips)
Seat 3: C (1000 in chips)
Seat 4: D (1000 in chips)";
    assert_eq!(parse_hand_history(text).unwrap_err(), ParseError::TooManyPlayers(4));
    let three = text.replace("Seat 4: D (1000 in chips)", "");
    let hand = parse_hand_history(&three).expect("should parse");
    assert_eq!(hand.ante, 10);
    assert_eq!(hand.table_max, 6);
}

#[test]
fn one_player_and_missing_button() {
    let one = "Tournament #5, $1+$0.10 - Level II (50/100)\nSeat #1 is the button\nSeat 1: A (1000 in chips)";
    assert_eq!(
        parse_hand_history(one).unwrap_err(),
        ParseError::InvalidFormat("нужно минимум 2 игрока".to_string())
    );
    let no_button = "Tournament #5, $1+$0.10 - Level II (50/100)\nSeat 1: A (1000 in chips)";
    assert_eq!(
        parse_hand_history(no_button).unwrap_err(),
        ParseError::InvalidFormat("button seat".to_string())
    );
    let no_players = "Tournament #5 - Level II (50/100)\nSeat #1 is the button";
    assert_eq!(parse_hand_history(no_players).unwrap_err(), ParseError::NoPlayers);
}

#[test]
fn differing_ante_posts_give_zero() {
    let text = r"Tournament #5, $1+$0.10 - Level II (50/100)
Seat #1 is the button
Seat 1: A (1000 in chips)
Seat 2: B (1000 in chips)
A: posts the ante 10
B: posts the ante 5";
    assert_eq!(parse_hand_history(text).unwrap().ante, 0);
}

#[test]
fn clockwise_order_wraps_at_table_size() {
    assert_eq!(seats_clockwise_from_button(&vec![2, 4, 9], 4, 9), vec![4, 9, 2]);
    assert_eq!(seats_clockwise_from_button(&vec![1, 3], 3, 6), vec![3, 1]);
    assert_eq!(seats_clockwise_from_button(&vec![], 3, 6), Vec::<usize>::new());
}

#[test]
fn solver_indices_and_labels() {
    assert_eq!(solver_position_index(Position::SB, 2), Some(0));
    assert_eq!(solver_position_index(Position::BB, 2), Some(1));
    assert_eq!(solver_position_index(Position::SB, 3), Some(1));
    assert_eq!(solver_position_index(Position::CO, 3), None);
    assert_eq!(hh_position_label(Position::UTG1), "UTG1");
    assert_eq!(hh_position_label(Position::Unknown), "?");
}

#[test]
fn buy_in_that_is_not_a_number_is_left_out() {
    let text = BASIC_HH.replace("$0.85+$0.15", "$1.2.3+$.5");
    let hand = parse_hand_history(&text).expect("should parse");
    assert_eq!(hand.tournament_id.as_deref(), Some("4032582650"));
    assert_eq!(hand.buy_in, None);
    assert_eq!(hand.fee.as_deref(), Some(".5"));
    let dot = BASIC_HH.replace("$0.85+$0.15", "$.+$3.");
    let hand = parse_hand_history(&dot).expect("should parse");
    assert_eq!(hand.buy_in, None);
    assert_eq!(hand.fee.as_deref(), Some("3."));
}

fn groups(items: &[Option<&str>]) -> Vec<Option<String>> {
    items.iter().map(|g| g.map(|s| s.to_string())).collect()
}

#[test]
fn header_from_given_matches() {
    let tournament = Some(vec![groups(&[Some("T"), Some("77"), Some("1e2"), Some("x")])]);
    let blinds = Some(vec![groups(&[Some("L"), Some("III"), Some("25"), Some("50"), None])]);
    let button = Some(vec![groups(&[Some("B"), Some("2")])]);
    let table = None;
    let players = Some(vec![
        groups(&[Some("P"), Some("1"), Some("Ann"), Some("1500")]),
        groups(&[Some("P"), Some("2"), Some("Bob"), Some("1500")]),
    ]);
    let antes = Some(vec![groups(&[Some("A"), Some("5")]), groups(&[Some("A"), Some("5")])]);
    let hand = hand_from_matches(&tournament, &blinds, &button, &table, &players, &antes)
        .expect("header");
    assert_eq!(hand.tournament_id.as_deref(), Some("77"));
    assert_eq!(hand.buy_in.as_deref(), Some("1e2"));
    assert_eq!(hand.fee, None);
    assert_eq!(hand.level.as_deref(), Some("III"));
    assert_eq!((hand.small_blind, hand.big_blind, hand.ante), (25, 50, 5));
    assert_eq!(hand.table_max, 9);
    assert_eq!(hand.button_seat, 2);
    assert_eq!(hand.players[1].position, Position::BTN);
    assert_eq!(hand.players[0].position, Position::BB);
    let no_blinds = hand_from_matches(&tournament, &None, &button, &table, &players, &antes);
    assert_eq!(no_blinds.err(), Some(ParseError::NoBlinds));
    assert_eq!(parse_ante_from_posts("a: posts the ante 10\nb: posts the ante 20"), 0);
    assert_eq!(parse_ante_from_posts("a: posts the ante 10\nb: posts the ante 10"), 10);
}
