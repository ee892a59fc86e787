use vstd::prelude::*;

use crate::algorithm::same_chars;
use crate::card::{card_text_unreadable, spec_parse_card, Card, CardParseError};
use crate::equity::{hands_view, parse_range, range_hands, sorted_set_of, Hand, HandRange};
use crate::equity_cache::hands_overlap;
use crate::text::{
    all_one_byte, chars_of, chars_views, char_utf8_len, lemma_trim_one_byte,
    lemma_utf8_len_at_least_len, spec_trim, spec_utf8_len, split_words, string_of, sub_chars, trim_chars,
    utf8_len_capped, words,
};

verus! {

/// Why typed-in cards could not be read.
#[derive(Debug, Clone, PartialEq)]
pub enum InputError {
    /// No hand was given.
    EmptyHand,
    /// A card of a hand could not be read: its text and the reason.
    BadCard(String, CardParseError),
    /// Both cards of a hand are the same card.
    SameCards,
    /// The hand is neither two cards apart nor four characters together.
    BadHandFormat(String),
    /// A board has more than five cards: how many it has.
    TooManyBoardCards(usize),
    /// A board card could not be read: its text and the reason.
    BadBoardCard(String, CardParseError),
    /// A board card is given twice: its text.
    DuplicateBoardCard(String),
    /// A card list has the wrong length: the length wanted and the one given.
    WrongCardCount(usize, usize),
    /// A card of a list is given twice: its text.
    DuplicateCard(String),
    /// Neither two cards nor a range: the text.
    BadNotation(String),
}

pub ghost enum InputErrorView {
    EmptyHand,
    BadCard(Seq<char>, CardParseError),
    SameCards,
    BadHandFormat(Seq<char>),
    TooManyBoardCards(usize),
    BadBoardCard(Seq<char>, CardParseError),
    DuplicateBoardCard(Seq<char>),
    WrongCardCount(usize, usize),
    DuplicateCard(Seq<char>),
    BadNotation(Seq<char>),
}

impl View for InputError {
    type V = InputErrorView;

    open spec fn view(&self) -> InputErrorView {
        match self {
            InputError::EmptyHand => InputErrorView::EmptyHand,
            InputError::BadCard(t, e) => InputErrorView::BadCard(t@, *e),
            InputError::SameCards => InputErrorView::SameCards,
            InputError::BadHandFormat(t) => InputErrorView::BadHandFormat(t@),
            InputError::TooManyBoardCards(n) => InputErrorView::TooManyBoardCards(*n),
            InputError::BadBoardCard(t, e) => InputErrorView::BadBoardCard(t@, *e),
            InputError::DuplicateBoardCard(t) => InputErrorView::DuplicateBoardCard(t@),
            InputError::WrongCardCount(a, b) => InputErrorView::WrongCardCount(*a, *b),
            InputError::DuplicateCard(t) => InputErrorView::DuplicateCard(t@),
            InputError::BadNotation(t) => InputErrorView::BadNotation(t@),
        }
    }
}

/// How a list of cards reads, token by token: the cards read so far, or
/// the first problem. `board` selects the board variants of the errors.
pub open spec fn scan_cards(toks: Seq<Seq<char>>, board: bool) -> Result<Seq<Card>, InputErrorView>
    decreases toks.len(),
{
    if toks.len() == 0 {
        Ok(Seq::empty())
    } else {
        match scan_cards(toks.drop_last(), board) {
            Err(e) => Err(e),
            Ok(cards) => {
                let tok = toks.last();
                match spec_parse_card(tok) {
                    Err(e) => Err(
                        if board {
                            InputErrorView::BadBoardCard(tok, e)
                        } else {
                            InputErrorView::BadCard(tok, e)
                        },
                    ),
                    Ok(c) => if cards.contains(c) {
                        Err(
                            if board {
                                InputErrorView::DuplicateBoardCard(tok)
                            } else {
                                InputErrorView::DuplicateCard(tok)
                            },
                        )
                    } else {
                        Ok(cards.push(c))
                    },
                }
            },
        }
    }
}

/// Reading the tokens in order never reaches a token that cannot be read
/// safely: every token up to the first problem is readable.
pub open spec fn scan_readable(toks: Seq<Seq<char>>, board: bool) -> bool
    decreases toks.len(),
{
    if toks.len() == 0 {
        true
    } else {
        scan_readable(toks.drop_last(), board) && (scan_cards(toks.drop_last(), board) is Ok
            ==> !card_text_unreadable(toks.last()))
    }
}

pub open spec fn cards_result_view(r: Result<Vec<Card>, InputError>) -> Result<Seq<Card>, InputErrorView> {
    match r {
        Ok(v) => Ok(v@),
        Err(e) => Err(e@),
    }
}

/// What reading a hand gives: two cards apart, or four characters such as
/// `AhKd`.
pub open spec fn spec_parse_hand(s: Seq<char>) -> Result<(Card, Card), InputErrorView> {
    let t = spec_trim(s);
    let toks = words(t);
    if t.len() == 0 {
        Err(InputErrorView::EmptyHand)
    } else if toks.len() == 2 {
        match spec_parse_card(toks[0]) {
            Err(e) => Err(InputErrorView::BadCard(toks[0], e)),
            Ok(a) => match spec_parse_card(toks[1]) {
                Err(e) => Err(InputErrorView::BadCard(toks[1], e)),
                Ok(b) => if a == b {
                    Err(InputErrorView::SameCards)
                } else {
                    Ok((a, b))
                },
            },
        }
    } else if spec_utf8_len(t) == 4 {
        match spec_parse_card(t.take(2)) {
            Err(e) => Err(InputErrorView::BadCard(t.take(2), e)),
            Ok(a) => match spec_parse_card(t.skip(2)) {
                Err(e) => Err(InputErrorView::BadCard(t.skip(2), e)),
                Ok(b) => if a == b {
                    Err(InputErrorView::SameCards)
                } else {
                    Ok((a, b))
                },
            },
        }
    } else {
        Err(InputErrorView::BadHandFormat(t))
    }
}

/// Inputs on which reading a hand would cut a character or read past a
/// card's text.
pub open spec fn hand_text_readable(s: Seq<char>) -> bool {
    let t = spec_trim(s);
    let toks = words(t);
    if t.len() == 0 {
        true
    } else if toks.len() == 2 {
        !card_text_unreadable(toks[0]) && (spec_parse_card(toks[0]) is Ok ==> !card_text_unreadable(toks[1]))
    } else {
        spec_utf8_len(t) == 4 ==> t.len() == 4
    }
}

/// Four one-byte characters split into two halves that can both be read.
proof fn lemma_halves_readable(t: Seq<char>)
    requires
        t.len() == 4,
        spec_utf8_len(t) == 4,
    ensures
        !card_text_unreadable(t.take(2)),
        !card_text_unreadable(t.skip(2)),
{
    lemma_utf8_len_at_least_len(t);
    let l = t.take(2);
    let r = t.skip(2);
    assert(all_one_byte(l)) by {
        assert forall|k: int| 0 <= k < l.len() implies #[trigger] char_utf8_len(l[k]) == 1 by {
            assert(l[k] == t[k]);
        }
    }
    assert(all_one_byte(r)) by {
        assert forall|k: int| 0 <= k < r.len() implies #[trigger] char_utf8_len(r[k]) == 1 by {
            assert(r[k] == t[k + 2]);
        }
    }
    lemma_trim_one_byte(l);
    lemma_trim_one_byte(r);
    lemma_utf8_len_at_least_len(spec_trim(l));
    lemma_utf8_len_at_least_len(spec_trim(r));
}

/// Reads a hand of two cards, such as `Ah Kd` or `AhKd`.
pub fn parse_hand(input: &str) -> (r: Result<[Card; 2], InputError>)
    requires
        hand_text_readable(input@),
    ensures
        match r {
            Ok(h) => spec_parse_hand(input@) == Ok::<(Card, Card), InputErrorView>((h[0], h[1])),
            Err(e) => spec_parse_hand(input@) == Err::<(Card, Card), InputErrorView>(e@),
        },
{
    let trimmed = trim_chars(&chars_of(input));
    if trimmed.len() == 0 {
        return Err(InputError::EmptyHand);
    }
    let tokens = split_words(&trimmed);
    assert(tokens@.len() == words(trimmed@).len());
    if tokens.len() == 2 {
        assert(tokens@[0]@ == words(trimmed@)[0]);
        assert(tokens@[1]@ == words(trimmed@)[1]);
        let first = match Card::parse_chars(&tokens[0]) {
            Ok(c) => c,
            Err(e) => return Err(InputError::BadCard(string_of(&tokens[0]), e)),
        };
        let second = match Card::parse_chars(&tokens[1]) {
            Ok(c) => c,
            Err(e) => return Err(InputError::BadCard(string_of(&tokens[1]), e)),
        };
        if first == second {
            return Err(InputError::SameCards);
        }
        return Ok([first, second]);
    }
    if utf8_len_capped(&trimmed, 4) == 4 {
        proof {
            lemma_halves_readable(trimmed@);
        }
        let left = sub_chars(&trimmed, 0, 2);
        let right = sub_chars(&trimmed, 2, 4);
        assert(left@ =~= trimmed@.take(2));
        assert(right@ =~= trimmed@.skip(2));
        let first = match Card::parse_chars(&left) {
            Ok(c) => c,
            Err(e) => return Err(InputError::BadCard(string_of(&left), e)),
        };
        let second = match Card::parse_chars(&right) {
            Ok(c) => c,
            Err(e) => return Err(InputError::BadCard(string_of(&right), e)),
        };
        if first == second {
            return Err(InputError::SameCards);
        }
        return Ok([first, second]);
    }
    Err(InputError::BadHandFormat(string_of(&trimmed)))
}

proof fn lemma_scan_err_prefix(toks: Seq<Seq<char>>, board: bool, i: int)
    requires
        0 <= i <= toks.len(),
        scan_cards(toks.take(i), board) is Err,
    ensures
        scan_cards(toks, board) == scan_cards(toks.take(i), board),
    decreases toks.len() - i,
{
    if i < toks.len() {
        assert(toks.take(i + 1).drop_last() =~= toks.take(i));
        lemma_scan_err_prefix(toks, board, i + 1);
    } else {
        assert(toks.take(i) =~= toks);
    }
}

proof fn lemma_scan_readable_prefix(toks: Seq<Seq<char>>, board: bool, i: int)
    requires
        0 <= i <= toks.len(),
        scan_readable(toks, board),
    ensures
        scan_readable(toks.take(i), board),
    decreases toks.len() - i,
{
    if i < toks.len() {
        lemma_scan_readable_prefix(toks, board, i + 1);
        assert(toks.take(i + 1).drop_last() =~= toks.take(i));
    } else {
        assert(toks.take(i) =~= toks);
    }
}

/// Reads card tokens in order, stopping at the first unreadable or repeated card.
fn scan_tokens(toks: &Vec<Vec<char>>, board: bool) -> (r: Result<Vec<Card>, InputError>)
    requires
        scan_readable(chars_views(toks@), board),
    ensures
        cards_result_view(r) == scan_cards(chars_views(toks@), board),
{
    let ghost tv = chars_views(toks@);
    let mut cards: Vec<Card> = Vec::new();
    let mut i: usize = 0;
    assert(tv.take(0) =~= Seq::<Seq<char>>::empty());
    while i < toks.len()
        invariant
            i <= toks.len(),
            tv == chars_views(toks@),
            scan_readable(tv, board),
            scan_cards(tv.take(i as int), board) == Ok::<Seq<Card>, InputErrorView>(cards@),
        decreases toks.len() - i,
    {
        let tok = &toks[i];
        assert(tv.take(i + 1).drop_last() =~= tv.take(i as int));
        assert(tv.take(i + 1).last() == tok@);
        proof {
            lemma_scan_readable_prefix(tv, board, i + 1);
        }
        let card = match Card::parse_chars(tok) {
            Ok(c) => c,
            Err(e) => {
                proof {
                    lemma_scan_err_prefix(tv, board, i + 1);
                }
                if board {
                    return Err(InputError::BadBoardCard(string_of(tok), e));
                } else {
                    return Err(InputError::BadCard(string_of(tok), e));
                }
            },
        };
        let mut k: usize = 0;
        let mut seen = false;
        while k < cards.len()
            invariant
                k <= cards.len(),
                seen == (exists|j: int| 0 <= j < k && cards@[j] == card),
            decreases cards.len() - k,
        {
            if cards[k] == card {
                seen = true;
            }
            k += 1;
        }
        assert(seen == cards@.contains(card));
        if seen {
            proof {
                lemma_scan_err_prefix(tv, board, i + 1);
            }
            if board {
                return Err(InputError::DuplicateBoardCard(string_of(tok)));
            } else {
                return Err(InputError::DuplicateCard(string_of(tok)));
            }
        }
        cards.push(card);
        i += 1;
    }
    assert(tv.take(i as int) =~= tv);
    Ok(cards)
}

/// What reading a board gives: no cards for blank text, at most five
/// distinct cards otherwise.
pub open spec fn spec_parse_board(s: Seq<char>) -> Result<Seq<Card>, InputErrorView> {
    let t = spec_trim(s);
    let toks = words(t);
    if t.len() == 0 {
        Ok(Seq::empty())
    } else if toks.len() > 5 {
        Err(InputErrorView::TooManyBoardCards(toks.len() as usize))
    } else {
        scan_cards(toks, true)
    }
}

pub open spec fn board_text_readable(s: Seq<char>) -> bool {
    let t = spec_trim(s);
    t.len() == 0 || words(t).len() > 5 || scan_readable(words(t), true)
}

/// Reads a board of up to five distinct cards, such as `Ts 7d 2c`.
pub fn parse_board(input: &str) -> (r: Result<Vec<Card>, InputError>)
    requires
        board_text_readable(input@),
    ensures
        cards_result_view(r) == spec_parse_board(input@),
{
    let trimmed = trim_chars(&chars_of(input));
    if trimmed.len() == 0 {
        let v: Vec<Card> = Vec::new();
        assert(v@ =~= Seq::<Card>::empty());
        return Ok(v);
    }
    let tokens = split_words(&trimmed);
    if tokens.len() > 5 {
        return Err(InputError::TooManyBoardCards(tokens.len()));
    }
    scan_tokens(&tokens, true)
}

/// What reading a list of exactly `expected` distinct cards gives.
pub open spec fn spec_parse_cards(s: Seq<char>, expected: usize) -> Result<Seq<Card>, InputErrorView> {
    let toks = words(s);
    if toks.len() != expected {
        Err(InputErrorView::WrongCardCount(expected, toks.len() as usize))
    } else {
        scan_cards(toks, false)
    }
}

pub open spec fn cards_text_readable(s: Seq<char>, expected: usize) -> bool {
    words(s).len() != expected || scan_readable(words(s), false)
}

/// Reads exactly `expected` distinct cards separated by whitespace.
pub fn parse_cards(input: &str, expected: usize) -> (r: Result<Vec<Card>, InputError>)
    requires
        cards_text_readable(input@, expected),
    ensures
        cards_result_view(r) == spec_parse_cards(input@, expected),
{
    let tokens = split_words(&chars_of(input));
    if tokens.len() != expected {
        return Err(InputError::WrongCardCount(expected, tokens.len()));
    }
    scan_tokens(&tokens, false)
}

pub open spec fn strings_view(v: Seq<String>) -> Seq<Seq<char>> {
    v.map_values(|s: String| s@)
}

/// Reads board cards given one per argument: at most five, all distinct.
pub fn parse_board_tokens(tokens: &Vec<String>) -> (r: Result<Vec<Card>, InputError>)
    requires
        tokens.len() > 5 || scan_readable(strings_view(tokens@), true),
    ensures
        tokens.len() > 5 ==> r == Err::<Vec<Card>, InputError>(InputError::TooManyBoardCards(tokens.len())),
        tokens.len() <= 5 ==> cards_result_view(r) == scan_cards(strings_view(tokens@), true),
{
    if tokens.len() > 5 {
        return Err(InputError::TooManyBoardCards(tokens.len()));
    }
    let mut toks: Vec<Vec<char>> = Vec::new();
    let mut i: usize = 0;
    while i < tokens.len()
        invariant
            i <= tokens.len(),
            toks.len() == i,
            chars_views(toks@) == strings_view(tokens@).take(i as int),
        decreases tokens.len() - i,
    {
        let cs = chars_of(tokens[i].as_str());
        let ghost prev = toks@;
        toks.push(cs);
        i += 1;
        proof {
            let sv = strings_view(tokens@);
            assert forall|k: int| 0 <= k < i implies #[trigger] chars_views(toks@)[k]
                == sv.take(i as int)[k] by {
                if k < i - 1 {
                    assert(toks@[k] == prev[k]);
                    assert(chars_views(prev)[k] == prev[k]@);
                }
            }
            assert(chars_views(toks@) =~= sv.take(i as int));
        }
    }
    assert(strings_view(tokens@).take(i as int) =~= strings_view(tokens@));
    scan_tokens(&toks, true)
}

/// Whether the text names one specific hand: exactly two words.
pub fn is_specific_hand(input: &str) -> (b: bool)
    ensures
        b == (words(input@).len() == 2),
{
    split_words(&chars_of(input)).len() == 2
}

/// What reading a hero or villain argument gives: two cards apart, or a range.
pub open spec fn spec_hand_or_range_ok(s: Seq<char>, r: Seq<Hand>) -> bool {
    let toks = words(s);
    if toks.len() == 2 {
        spec_parse_card(toks[0]) matches Ok(a) && spec_parse_card(toks[1]) matches Ok(b) && r == seq![(a, b)]
    } else {
        r.len() > 0 && sorted_set_of(r, range_hands(s))
    }
}

pub open spec fn hand_or_range_readable(s: Seq<char>) -> bool {
    let toks = words(s);
    toks.len() == 2 ==> (!card_text_unreadable(toks[0]) && (spec_parse_card(toks[0]) is Ok
        ==> !card_text_unreadable(toks[1])))
}

/// Reads a hero or villain argument: two cards apart make one hand, anything
/// else is read as a range, which must not be empty.
pub fn parse_hand_or_range(input: &str) -> (r: Result<HandRange, InputError>)
    requires
        hand_or_range_readable(input@),
    ensures
        r matches Ok(v) ==> spec_hand_or_range_ok(input@, hands_view(v@)),
        r matches Err(e) ==> {
            let toks = words(input@);
            if toks.len() == 2 {
                e@ == (match spec_parse_card(toks[0]) {
                    Err(x) => InputErrorView::BadCard(toks[0], x),
                    Ok(_) => InputErrorView::BadCard(toks[1], spec_parse_card(toks[1])->Err_0),
                }) && (spec_parse_card(toks[0]) is Ok ==> spec_parse_card(toks[1]) is Err)
            } else {
                e@ == InputErrorView::BadNotation(input@) && sorted_set_of(
                    Seq::empty(),
                    range_hands(input@),
                )
            }
        },
{
    let chars = chars_of(input);
    let tokens = split_words(&chars);
    if tokens.len() == 2 {
        assert(tokens@[0]@ == words(input@)[0]);
        assert(tokens@[1]@ == words(input@)[1]);
        let first = match Card::parse_chars(&tokens[0]) {
            Ok(c) => c,
            Err(e) => return Err(InputError::BadCard(string_of(&tokens[0]), e)),
        };
        let second = match Card::parse_chars(&tokens[1]) {
            Ok(c) => c,
            Err(e) => return Err(InputError::BadCard(string_of(&tokens[1]), e)),
        };
        let mut v: HandRange = Vec::new();
        v.push([first, second]);
        assert(hands_view(v@) =~= seq![(first, second)]);
        return Ok(v);
    }
    let range = parse_range(input);
    if range.len() == 0 {
        assert(hands_view(range@) =~= Seq::<Hand>::empty());
        return Err(InputError::BadNotation(string_of(&chars)));
    }
    Ok(range)
}

/// Whether some hand of one range shares a card with some hand of the other.
pub fn ranges_overlap(left: &HandRange, right: &HandRange) -> (b: bool)
    ensures
        b == exists|i: int, j: int|
            0 <= i < left.len() && 0 <= j < right.len() && #[trigger] overlap(left@[i], right@[j]),
{
    let mut i: usize = 0;
    while i < left.len()
        invariant
            i <= left.len(),
            forall|a: int, j: int| 0 <= a < i && 0 <= j < right.len() ==> !#[trigger] overlap(left@[a], right@[j]),
        decreases left.len() - i,
    {
        let mut j: usize = 0;
        while j < right.len()
            invariant
                i < left.len(),
                j <= right.len(),
                forall|a: int, b: int| 0 <= a < i && 0 <= b < right.len() ==> !#[trigger] overlap(left@[a], right@[b]),
                forall|b: int| 0 <= b < j ==> !#[trigger] overlap(left@[i as int], right@[b]),
            decreases right.len() - j,
        {
            if hands_overlap(left[i], right[j]) {
                assert(overlap(left@[i as int], right@[j as int]));
                return true;
            }
            j += 1;
        }
        i += 1;
    }
    false
}

/// Whether two holdings share a card.
pub open spec fn overlap(h1: [Card; 2], h2: [Card; 2]) -> bool {
    h1[0] == h2[0] || h1[0] == h2[1] || h1[1] == h2[0] || h1[1] == h2[1]
}

/// What the cache check reads from its arguments: the cache path, or the
/// usage text when help is asked for.
pub open spec fn spec_parse_path(args: Seq<Seq<char>>) -> Result<Seq<char>, Seq<char>> {
    if exists|i: int| 0 <= i < args.len() && (#[trigger] args[i] == "--help"@ || args[i] == "-h"@) {
        Err("usage: verify_cache [PATH]\n  default: equity_cache.bin in current directory"@)
    } else if args.len() > 0 {
        Ok(args[0])
    } else {
        Ok("equity_cache.bin"@)
    }
}

/// Reads the cache path of the cache check from its arguments.
pub fn parse_path(args: &Vec<String>) -> (r: Result<String, String>)
    ensures
        match r {
            Ok(p) => spec_parse_path(strings_view(args@)) == Ok::<Seq<char>, Seq<char>>(p@),
            Err(m) => spec_parse_path(strings_view(args@)) == Err::<Seq<char>, Seq<char>>(m@),
        },
{
    let ghost av = strings_view(args@);
    let help = chars_of("--help");
    let short = chars_of("-h");
    let mut i: usize = 0;
    while i < args.len()
        invariant
            i <= args.len(),
            av == strings_view(args@),
            help@ == "--help"@,
            short@ == "-h"@,
            forall|k: int| 0 <= k < i ==> !(#[trigger] av[k] == "--help"@ || av[k] == "-h"@),
        decreases args.len() - i,
    {
        let a = chars_of(args[i].as_str());
        assert(a@ == av[i as int]);
        if same_chars(&a, &help) || same_chars(&a, &short) {
            return Err(
                "usage: verify_cache [PATH]\n  default: equity_cache.bin in current directory".to_owned(),
            );
        }
        i += 1;
    }
    if args.len() > 0 {
        assert(av[0] == args@[0]@);
        return Ok(args[0].clone());
    }
    Ok("equity_cache.bin".to_owned())
}

/// The label of the seat with the given index: SB and BB heads-up, else BTN,
/// SB and BB.
pub fn position_label(players: usize, index: usize) -> (s: &'static str)
    ensures
        players == 2 && index == 0 ==> s@ == "SB"@,
        players == 2 && index != 0 ==> s@ == "BB"@,
        players != 2 && index == 0 ==> s@ == "BTN"@,
        players != 2 && index == 1 ==> s@ == "SB"@,
        players != 2 && index >= 2 ==> s@ == "BB"@,
{
    if players == 2 {
        match index {
            0 => "SB",
            _ => "BB",
        }
    } else {
        match index {
            0 => "BTN",
            1 => "SB",
            _ => "BB",
        }
    }
}

proof fn lemma_scan_readable_after_err(toks: Seq<Seq<char>>, board: bool, i: int)
    requires
        0 <= i <= toks.len(),
        scan_readable(toks.take(i), board),
        scan_cards(toks.take(i), board) is Err,
    ensures
        scan_readable(toks, board),
    decreases toks.len() - i,
{
    if i < toks.len() {
        assert(toks.take(i + 1).drop_last() =~= toks.take(i));
        lemma_scan_readable_after_err(toks, board, i + 1);
    } else {
        assert(toks.take(i) =~= toks);
    }
}

/// Whether reading the tokens in order stays clear of text that cannot be
/// read safely, up to the first problem.
fn scan_check(toks: &Vec<Vec<char>>, board: bool) -> (b: bool)
    ensures
        b == scan_readable(chars_views(toks@), board),
{
    let ghost tv = chars_views(toks@);
    let mut cards: Vec<Card> = Vec::new();
    let mut i: usize = 0;
    assert(tv.take(0) =~= Seq::<Seq<char>>::empty());
    while i < toks.len()
        invariant
            i <= toks.len(),
            tv == chars_views(toks@),
            scan_readable(tv.take(i as int), board),
            scan_cards(tv.take(i as int), board) == Ok::<Seq<Card>, InputErrorView>(cards@),
        decreases toks.len() - i,
    {
        let tok = &toks[i];
        assert(tv.take(i + 1).drop_last() =~= tv.take(i as int));
        assert(tv.take(i + 1).last() == tok@);
        if !Card::chars_readable(tok) {
            proof {
                if scan_readable(tv, board) {
                    lemma_scan_readable_prefix(tv, board, i + 1);
                }
            }
            return false;
        }
        let card = match Card::parse_chars(tok) {
            Ok(c) => c,
            Err(_) => {
                proof {
                    lemma_scan_readable_after_err(tv, board, i + 1);
                }
                return true;
            },
        };
        let mut k: usize = 0;
        let mut seen = false;
        while k < cards.len()
            invariant
                k <= cards.len(),
                seen == (exists|j: int| 0 <= j < k && cards@[j] == card),
            decreases cards.len() - k,
        {
            if cards[k] == card {
                seen = true;
            }
            k += 1;
        }
        assert(seen == cards@.contains(card));
        if seen {
            proof {
                lemma_scan_readable_after_err(tv, board, i + 1);
            }
            return true;
        }
        cards.push(card);
        i += 1;
    }
    assert(tv.take(i as int) =~= tv);
    true
}

/// Whether `parse_board_tokens` may be called on the tokens.
pub fn board_tokens_are_readable(tokens: &Vec<String>) -> (b: bool)
    ensures
        b == (tokens.len() > 5 || scan_readable(strings_view(tokens@), true)),
{
    if tokens.len() > 5 {
        return true;
    }
    let mut toks: Vec<Vec<char>> = Vec::new();
    let mut i: usize = 0;
    while i < tokens.len()
        invariant
            i <= tokens.len(),
            toks.len() == i,
            chars_views(toks@) == strings_view(tokens@).take(i as int),
        decreases tokens.len() - i,
    {
        let cs = chars_of(tokens[i].as_str());
        let ghost prev = toks@;
        toks.push(cs);
        i += 1;
        proof {
            let sv = strings_view(tokens@);
            assert forall|k: int| 0 <= k < i implies #[trigger] chars_views(toks@)[k]
                == sv.take(i as int)[k] by {
                if k < i - 1 {
                    assert(toks@[k] == prev[k]);
                    assert(chars_views(prev)[k] == prev[k]@);
                }
            }
            assert(chars_views(toks@) =~= sv.take(i as int));
        }
    }
    assert(strings_view(tokens@).take(i as int) =~= strings_view(tokens@));
    scan_check(&toks, true)
}

/// Whether `parse_hand_or_range` may be called on the text.
pub fn hand_or_range_is_readable(input: &str) -> (b: bool)
    ensures
        b == hand_or_range_readable(input@),
{
    let tokens = split_words(&chars_of(input));
    if tokens.len() != 2 {
        return true;
    }
    assert(tokens@[0]@ == words(input@)[0]);
    assert(tokens@[1]@ == words(input@)[1]);
    if !Card::chars_readable(&tokens[0]) {
        return false;
    }
    match Card::parse_chars(&tokens[0]) {
        Err(_) => true,
        Ok(_) => Card::chars_readable(&tokens[1]),
    }
}

} // verus!
