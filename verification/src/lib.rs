pub mod algorithm;
pub mod blockers;
pub mod card;
pub mod equity;
pub mod equity_3way;
pub mod equity_cache;
pub mod hand_evaluator;
pub mod hh_parser;
pub mod showdown;
pub mod input;
pub mod monte_carlo;
pub mod rng;
pub mod text;
pub mod three_way_cache;

pub use card::{Card, CardParseError, RANK_CHARS, SUIT_CHARS};
pub use equity::{parse_range, HandRange};
pub use hand_evaluator::{evaluate_hand, HandCategory, HandRank};
pub use hh_parser::{
    is_non_push_fold_situation, parse_hand_history, position_label as hh_position_label,
    solver_position_index, ParseError, ParsedHand, ParsedPlayer, Position,
};
