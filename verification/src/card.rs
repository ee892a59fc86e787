use vstd::prelude::*;

use crate::text::{
    chars_of, push_char, spec_trim, spec_trim_end, spec_trim_start, spec_utf8_len, trim_chars, trimmed,
    utf8_len_capped,
};

verus! {

/// Rank characters in ascending order, `2` through `A`.
pub const RANK_CHARS: &'static str = "23456789TJQKA";

/// Suit characters in the order of the suit codes `0..4`.
pub const SUIT_CHARS: &'static str = "cdhs";

/// A playing card: a rank in `2..=14` (ace high) and a suit in `0..=3`
/// (clubs, diamonds, hearts, spades).
#[derive(Debug, Clone, Copy, PartialEq, Eq, Hash, PartialOrd, Ord, Structural)]
pub struct Card {
    rank: u8,
    suit: u8,
}

#[derive(Debug, Clone, Copy, PartialEq, Eq, Structural)]
pub enum CardParseError {
    InvalidLength,
    InvalidRank,
    InvalidSuit,
}

/// Rank code of a rank character: `2`..`9`, `T`, `J`, `Q`, `K`, `A`,
/// the letters also in lower case.
pub open spec fn spec_rank_of_char(c: char) -> Option<u8> {
    if c == '2' { Some(2u8) }
    else if c == '3' { Some(3u8) }
    else if c == '4' { Some(4u8) }
    else if c == '5' { Some(5u8) }
    else if c == '6' { Some(6u8) }
    else if c == '7' { Some(7u8) }
    else if c == '8' { Some(8u8) }
    else if c == '9' { Some(9u8) }
    else if c == 'T' || c == 't' { Some(10u8) }
    else if c == 'J' || c == 'j' { Some(11u8) }
    else if c == 'Q' || c == 'q' { Some(12u8) }
    else if c == 'K' || c == 'k' { Some(13u8) }
    else if c == 'A' || c == 'a' { Some(14u8) }
    else { None }
}

/// Suit code of a suit character `c`, `d`, `h`, `s`, also in upper case.
pub open spec fn spec_suit_of_char(c: char) -> Option<u8> {
    if c == 'c' || c == 'C' { Some(0u8) }
    else if c == 'd' || c == 'D' { Some(1u8) }
    else if c == 'h' || c == 'H' { Some(2u8) }
    else if c == 's' || c == 'S' { Some(3u8) }
    else { None }
}

/// The character that prints a rank code.
pub open spec fn spec_rank_char(rank: u8) -> char {
    if rank == 2 { '2' }
    else if rank == 3 { '3' }
    else if rank == 4 { '4' }
    else if rank == 5 { '5' }
    else if rank == 6 { '6' }
    else if rank == 7 { '7' }
    else if rank == 8 { '8' }
    else if rank == 9 { '9' }
    else if rank == 10 { 'T' }
    else if rank == 11 { 'J' }
    else if rank == 12 { 'Q' }
    else if rank == 13 { 'K' }
    else { 'A' }
}

/// The character that prints a suit code.
pub open spec fn spec_suit_char(suit: u8) -> char {
    if suit == 0 { 'c' }
    else if suit == 1 { 'd' }
    else if suit == 2 { 'h' }
    else { 's' }
}

pub open spec fn valid_rank(rank: int) -> bool {
    2 <= rank <= 14
}

pub open spec fn valid_suit(suit: int) -> bool {
    0 <= suit <= 3
}

/// What parsing two characters as a card gives: the rank is checked first.
pub open spec fn spec_from_parts(rank_char: char, suit_char: char) -> Result<Card, CardParseError> {
    match spec_rank_of_char(rank_char) {
        None => Err(CardParseError::InvalidRank),
        Some(rank) => match spec_suit_of_char(suit_char) {
            None => Err(CardParseError::InvalidSuit),
            Some(suit) => Ok(Card::spec_new(rank, suit)),
        },
    }
}

/// Text on which parsing would read past its end: after trimming, two bytes
/// that make one character.
pub open spec fn card_text_unreadable(s: Seq<char>) -> bool {
    let t = spec_trim(s);
    spec_utf8_len(t) == 2 && t.len() < 2
}

/// What parsing a card from text gives: surrounding whitespace is ignored,
/// the rest must be two bytes long and read as rank then suit.
pub open spec fn spec_parse_card(s: Seq<char>) -> Result<Card, CardParseError> {
    let t = spec_trim(s);
    if spec_utf8_len(t) != 2 {
        Err(CardParseError::InvalidLength)
    } else {
        spec_from_parts(t[0], t[1])
    }
}

impl Card {
    pub const MIN_RANK: u8 = 2;

    pub const MAX_RANK: u8 = 14;

    #[verifier::type_invariant]
    spec fn well_formed(self) -> bool {
        valid_rank(self.rank as int) && valid_suit(self.suit as int)
    }

    /// The card of the given rank and suit codes.
    pub closed spec fn spec_new(rank: u8, suit: u8) -> Card {
        Card { rank, suit }
    }

    pub closed spec fn rank_of(self) -> u8 {
        self.rank
    }

    pub closed spec fn suit_of(self) -> u8 {
        self.suit
    }

    /// The card with the given rank and suit; both must be in range.
    pub fn new(rank: u8, suit: u8) -> (card: Card)
        requires
            valid_rank(rank as int),
            valid_suit(suit as int),
        ensures
            card == Card::spec_new(rank, suit),
    {
        Card { rank, suit }
    }

    /// The card with the given rank and suit, or which of the two is out of range.
    pub fn try_new(rank: u8, suit: u8) -> (res: Result<Card, CardParseError>)
        ensures
            !valid_rank(rank as int) ==> res == Err::<Card, CardParseError>(CardParseError::InvalidRank),
            valid_rank(rank as int) && !valid_suit(suit as int) ==> res == Err::<Card, CardParseError>(
                CardParseError::InvalidSuit,
            ),
            valid_rank(rank as int) && valid_suit(suit as int) ==> res == Ok::<Card, CardParseError>(
                Card::spec_new(rank, suit),
            ),
    {
        if !(Self::MIN_RANK <= rank && rank <= Self::MAX_RANK) {
            return Err(CardParseError::InvalidRank);
        }
        if suit > 3 {
            return Err(CardParseError::InvalidSuit);
        }
        Ok(Self::new(rank, suit))
    }

    pub fn rank(self) -> (r: u8)
        ensures
            r == self.rank_of(),
            valid_rank(r as int),
    {
        proof {
            use_type_invariant(&self);
        }
        self.rank
    }

    pub fn suit(self) -> (s: u8)
        ensures
            s == self.suit_of(),
            valid_suit(s as int),
    {
        proof {
            use_type_invariant(&self);
        }
        self.suit
    }

    pub fn rank_char(self) -> (c: char)
        ensures
            c == spec_rank_char(self.rank_of()),
    {
        rank_to_char(self.rank())
    }

    pub fn suit_char(self) -> (c: char)
        ensures
            c == spec_suit_char(self.suit_of()),
    {
        suit_to_char(self.suit())
    }

    /// The two-character text of the card, such as `As` or `Td`.
    pub fn to_string(&self) -> (s: String)
        ensures
            s@ == seq![spec_rank_char(self.rank_of()), spec_suit_char(self.suit_of())],
    {
        let mut s = String::new();
        push_char(&mut s, self.rank_char());
        push_char(&mut s, self.suit_char());
        s
    }

    fn from_parts(rank_char: char, suit_char: char) -> (res: Result<Card, CardParseError>)
        ensures
            res == spec_from_parts(rank_char, suit_char),
    {
        let rank = match rank_char_to_u8(rank_char) {
            Some(rank) => rank,
            None => return Err(CardParseError::InvalidRank),
        };
        let suit = match suit_char_to_u8(suit_char) {
            Some(suit) => suit,
            None => return Err(CardParseError::InvalidSuit),
        };
        Self::try_new(rank, suit)
    }

    /// Parses a card such as `As`, `td` or ` Kh ` from text.
    pub fn parse(s: &str) -> (res: Result<Card, CardParseError>)
        requires
            !card_text_unreadable(s@),
        ensures
            res == spec_parse_card(s@),
    {
        Self::parse_chars(&chars_of(s))
    }

    /// Parses a card from the characters of a text.
    pub fn parse_chars(s: &Vec<char>) -> (res: Result<Card, CardParseError>)
        requires
            !card_text_unreadable(s@),
        ensures
            res == spec_parse_card(s@),
    {
        let t = trim_chars(s);
        if utf8_len_capped(&t, 2) != 2 {
            return Err(CardParseError::InvalidLength);
        }
        Self::from_parts(t[0], t[1])
    }

    /// Whether `parse_chars` may be called on the characters.
    pub fn chars_readable(s: &Vec<char>) -> (b: bool)
        ensures
            b == !card_text_unreadable(s@),
    {
        let t = trim_chars(s);
        !(utf8_len_capped(&t, 2) == 2 && t.len() < 2)
    }

    /// Whether `parse` may be called on `s`.
    pub fn is_readable(s: &str) -> (b: bool)
        ensures
            b == !card_text_unreadable(s@),
    {
        let t = trimmed(s);
        !(utf8_len_capped(&t, 2) == 2 && t.len() < 2)
    }
}

impl core::str::FromStr for Card {
    type Err = CardParseError;

    fn from_str(s: &str) -> (res: Result<Card, CardParseError>)
        ensures
            !card_text_unreadable(s@) ==> res == spec_parse_card(s@),
            card_text_unreadable(s@) ==> res == Err::<Card, CardParseError>(CardParseError::InvalidLength),
    {
        if Card::is_readable(s) {
            Card::parse(s)
        } else {
            Err(CardParseError::InvalidLength)
        }
    }
}

/// Every card is the one built from its rank and suit codes, and it has them.
pub broadcast proof fn lemma_card_parts(c: Card)
    ensures
        #[trigger] Card::spec_new(c.rank_of(), c.suit_of()) == c,
{
}

/// The card built from a rank and suit code reports that rank and suit.
pub broadcast proof fn lemma_card_new(rank: u8, suit: u8)
    ensures
        (#[trigger] Card::spec_new(rank, suit)).rank_of() == rank,
        Card::spec_new(rank, suit).suit_of() == suit,
{
}

pub broadcast group group_card {
    lemma_card_parts,
    lemma_card_new,
}

pub fn rank_to_char(rank: u8) -> (c: char)
    ensures
        c == spec_rank_char(rank),
{
    if rank == 2 { '2' }
    else if rank == 3 { '3' }
    else if rank == 4 { '4' }
    else if rank == 5 { '5' }
    else if rank == 6 { '6' }
    else if rank == 7 { '7' }
    else if rank == 8 { '8' }
    else if rank == 9 { '9' }
    else if rank == 10 { 'T' }
    else if rank == 11 { 'J' }
    else if rank == 12 { 'Q' }
    else if rank == 13 { 'K' }
    else { 'A' }
}

fn suit_to_char(suit: u8) -> (c: char)
    ensures
        c == spec_suit_char(suit),
{
    if suit == 0 { 'c' }
    else if suit == 1 { 'd' }
    else if suit == 2 { 'h' }
    else { 's' }
}

/// Rank code of a rank character, if it is one.
pub fn rank_char_to_u8(c: char) -> (r: Option<u8>)
    ensures
        r == spec_rank_of_char(c),
{
    if c == '2' { Some(2) }
    else if c == '3' { Some(3) }
    else if c == '4' { Some(4) }
    else if c == '5' { Some(5) }
    else if c == '6' { Some(6) }
    else if c == '7' { Some(7) }
    else if c == '8' { Some(8) }
    else if c == '9' { Some(9) }
    else if c == 'T' || c == 't' { Some(10) }
    else if c == 'J' || c == 'j' { Some(11) }
    else if c == 'Q' || c == 'q' { Some(12) }
    else if c == 'K' || c == 'k' { Some(13) }
    else if c == 'A' || c == 'a' { Some(14) }
    else { None }
}

/// Suit code of a suit character, if it is one.
pub fn suit_char_to_u8(c: char) -> (s: Option<u8>)
    ensures
        s == spec_suit_of_char(c),
{
    if c == 'c' || c == 'C' { Some(0) }
    else if c == 'd' || c == 'D' { Some(1) }
    else if c == 'h' || c == 'H' { Some(2) }
    else if c == 's' || c == 'S' { Some(3) }
    else { None }
}

/// Printing a card and reading the text back gives the card.
pub proof fn law_text_roundtrip(c: Card)
    requires
        valid_rank(c.rank_of() as int),
        valid_suit(c.suit_of() as int),
    ensures
        spec_parse_card(seq![spec_rank_char(c.rank_of()), spec_suit_char(c.suit_of())]) == Ok::<
            Card,
            CardParseError,
        >(c),
{
    let s = seq![spec_rank_char(c.rank_of()), spec_suit_char(c.suit_of())];
    assert(spec_trim_start(s) == s);
    assert(spec_trim_end(s) == s);
    assert(spec_trim(s) == s);
    assert(s.drop_last().drop_last() =~= Seq::<char>::empty());
    assert(spec_utf8_len(s.drop_last().drop_last()) == 0);
    assert((s[0] as u32) < 0x80 && (s[1] as u32) < 0x80);
    assert(s.drop_last().last() == s[0]);
    assert(spec_utf8_len(s.drop_last()) == 1);
    assert(spec_utf8_len(s) == 2);
    assert(spec_rank_of_char(s[0]) == Some(c.rank_of()));
    assert(spec_suit_of_char(s[1]) == Some(c.suit_of()));
}

/// The rank characters from the lowest rank to the highest: `2` is rank 2,
/// `T` rank 10, `A` rank 14.
pub open spec fn rank_letters() -> Seq<char> {
    seq!['2', '3', '4', '5', '6', '7', '8', '9', 'T', 'J', 'Q', 'K', 'A']
}

/// The suit characters in the order of the suit codes.
pub open spec fn suit_letters() -> Seq<char> {
    seq!['c', 'd', 'h', 's']
}

/// Each rank character stands for its own rank: the character at position
/// `i` of `23456789TJQKA` (upper or lower case) reads as rank `i + 2`, and
/// the suit character at position `j` of `cdhs` as suit `j`. So the
/// rank read from a character grows with its position in that list, and
/// printing a card gives back those characters.
pub proof fn law_card_letters(i: int, j: int)
    requires
        0 <= i < 13,
        0 <= j < 4,
    ensures
        spec_rank_of_char(rank_letters()[i]) == Some((i + 2) as u8),
        spec_rank_of_char(lower_letter(rank_letters()[i])) == Some((i + 2) as u8),
        spec_suit_of_char(suit_letters()[j]) == Some(j as u8),
        spec_rank_char((i + 2) as u8) == rank_letters()[i],
        spec_suit_char(j as u8) == suit_letters()[j],
        spec_parse_card(seq![rank_letters()[i], suit_letters()[j]]) == Ok::<Card, CardParseError>(
            Card::spec_new((i + 2) as u8, j as u8),
        ),
{
    let r = rank_letters();
    if i == 0 { assert(r[i] == '2'); }
    else if i == 1 { assert(r[i] == '3'); }
    else if i == 2 { assert(r[i] == '4'); }
    else if i == 3 { assert(r[i] == '5'); }
    else if i == 4 { assert(r[i] == '6'); }
    else if i == 5 { assert(r[i] == '7'); }
    else if i == 6 { assert(r[i] == '8'); }
    else if i == 7 { assert(r[i] == '9'); }
    else if i == 8 { assert(r[i] == 'T'); }
    else if i == 9 { assert(r[i] == 'J'); }
    else if i == 10 { assert(r[i] == 'Q'); }
    else if i == 11 { assert(r[i] == 'K'); }
    else { assert(r[i] == 'A'); }
    let u = suit_letters();
    if j == 0 { assert(u[j] == 'c'); }
    else if j == 1 { assert(u[j] == 'd'); }
    else if j == 2 { assert(u[j] == 'h'); }
    else { assert(u[j] == 's'); }
    let c = Card::spec_new((i + 2) as u8, j as u8);
    law_text_roundtrip(c);
    assert(seq![spec_rank_char(c.rank_of()), spec_suit_char(c.suit_of())] == seq![r[i], u[j]]);
}

/// The lower-case form of an upper-case letter; other characters unchanged.
pub open spec fn lower_letter(c: char) -> char {
    if 'A' <= c && c <= 'Z' {
        ((c as u32) + 32) as char
    } else {
        c
    }
}

} // verus!
