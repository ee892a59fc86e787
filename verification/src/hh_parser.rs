use vstd::prelude::*;

use crate::text::{
    chars_of, contains_chars, float_text, parse_u64, parse_usize, reads_as_float, seq_contains,
    spec_parse_u64, spec_parse_usize, spec_trim, split_lines, spec_lines, string_of, trim_chars,
};

verus! {

/// Seat positions at the table, from the button clockwise.
#[derive(Debug, Clone, Copy, PartialEq, Eq, Structural)]
pub enum Position {
    BTN,
    SB,
    BB,
    UTG,
    UTG1,
    MP,
    MP1,
    HJ,
    CO,
    Unknown,
}

#[derive(Debug, Clone, PartialEq)]
pub enum ParseError {
    Empty,
    NotPokerStarsTournament,
    NoBlinds,
    NoPlayers,
    TooManyPlayers(usize),
    InvalidFormat(String),
}

/// One seated player of a hand history. The stack is in chips.
#[derive(Debug, Clone)]
pub struct ParsedPlayer {
    pub seat: usize,
    pub name: String,
    pub stack: u64,
    pub position: Position,
}

/// The header of a tournament hand history. Blinds, ante and stacks are in
/// chips; the buy-in and fee are kept as written.
#[derive(Debug, Clone)]
pub struct ParsedHand {
    pub tournament_id: Option<String>,
    pub buy_in: Option<String>,
    pub fee: Option<String>,
    pub level: Option<String>,
    pub small_blind: u64,
    pub big_blind: u64,
    pub ante: u64,
    pub table_max: usize,
    pub button_seat: usize,
    pub players: Vec<ParsedPlayer>,
}

pub ghost struct PlayerView {
    pub seat: usize,
    pub name: Seq<char>,
    pub stack: u64,
    pub position: Position,
}

pub ghost struct HandView {
    pub tournament_id: Option<Seq<char>>,
    pub buy_in: Option<Seq<char>>,
    pub fee: Option<Seq<char>>,
    pub level: Option<Seq<char>>,
    pub small_blind: u64,
    pub big_blind: u64,
    pub ante: u64,
    pub table_max: usize,
    pub button_seat: usize,
    pub players: Seq<PlayerView>,
}

pub ghost enum ParseErrorView {
    Empty,
    NotPokerStarsTournament,
    NoBlinds,
    NoPlayers,
    TooManyPlayers(usize),
    InvalidFormat(Seq<char>),
}

pub open spec fn opt_view(o: Option<String>) -> Option<Seq<char>> {
    match o {
        Some(s) => Some(s@),
        None => None,
    }
}

impl View for ParsedPlayer {
    type V = PlayerView;

    open spec fn view(&self) -> PlayerView {
        PlayerView { seat: self.seat, name: self.name@, stack: self.stack, position: self.position }
    }
}

impl View for ParsedHand {
    type V = HandView;

    open spec fn view(&self) -> HandView {
        HandView {
            tournament_id: opt_view(self.tournament_id),
            buy_in: opt_view(self.buy_in),
            fee: opt_view(self.fee),
            level: opt_view(self.level),
            small_blind: self.small_blind,
            big_blind: self.big_blind,
            ante: self.ante,
            table_max: self.table_max,
            button_seat: self.button_seat,
            players: self.players@.map_values(|p: ParsedPlayer| p@),
        }
    }
}

impl View for ParseError {
    type V = ParseErrorView;

    open spec fn view(&self) -> ParseErrorView {
        match self {
            ParseError::Empty => ParseErrorView::Empty,
            ParseError::NotPokerStarsTournament => ParseErrorView::NotPokerStarsTournament,
            ParseError::NoBlinds => ParseErrorView::NoBlinds,
            ParseError::NoPlayers => ParseErrorView::NoPlayers,
            ParseError::TooManyPlayers(n) => ParseErrorView::TooManyPlayers(*n),
            ParseError::InvalidFormat(m) => ParseErrorView::InvalidFormat(m@),
        }
    }
}

pub open spec fn result_view(r: Result<ParsedHand, ParseError>) -> Result<HandView, ParseErrorView> {
    match r {
        Ok(h) => Ok(h@),
        Err(e) => Err(e@),
    }
}

pub const RE_TOURNAMENT: &'static str = r"Tournament #(\d+), \$([\d.]+)\+\$([\d.]+)";

pub const RE_LEVEL_BLINDS: &'static str = r"Level\s+(\S+)\s+\((\d+)/(\d+)(?:/(\d+))?\)";

pub const RE_BUTTON: &'static str = r"Seat #(\d+) is the button";

pub const RE_TABLE_MAX: &'static str = r"(\d+)-max";

pub const RE_PLAYER: &'static str = r"Seat (\d+): (.+?) \((\d+) in chips\)";

pub const RE_ANTE: &'static str = r": posts the ante (\d+)";

/// The matches of a regular expression in a text, as the `regex` crate finds
/// them: each successive non-overlapping match as its capture groups (group 0
/// the whole match, a missing entry for a group that took no part); nothing
/// when the pattern does not compile.
pub uninterp spec fn regex_matches(pattern: Seq<char>, text: Seq<char>) -> Option<Seq<Seq<Option<Seq<char>>>>>;

pub open spec fn captures_view(c: Vec<Option<String>>) -> Seq<Option<Seq<char>>> {
    c@.map_values(|o: Option<String>| opt_view(o))
}

pub open spec fn matches_view(m: Option<Vec<Vec<Option<String>>>>) -> Option<Seq<Seq<Option<Seq<char>>>>> {
    match m {
        Some(all) => Some(all@.map_values(|c: Vec<Option<String>>| captures_view(c))),
        None => None,
    }
}

/// Compiles `pattern` with `regex::Regex::new` and lists the captures of every
/// match that `Regex::captures_iter` yields on `text`, each group read with
/// `Captures::iter` and `Match::as_str`.
///
/// The contract claims only that the result is `regex_matches` of the pattern
/// and the text: the regex crate is deterministic, so the same pattern and
/// text give the same matches. What those matches are is not stated.
#[verifier::external_body]
fn captures_all(pattern: &str, text: &str) -> (r: Option<Vec<Vec<Option<String>>>>)
    ensures
        matches_view(r) == regex_matches(pattern@, text@),
{
    let re = regex::Regex::new(pattern).ok()?;
    Some(
        re.captures_iter(text).map(
            |caps| caps.iter().map(|m| m.map(|m| m.as_str().to_string())).collect(),
        ).collect(),
    )
}

/// The captures of the first match, if any.
pub open spec fn first_match(m: Option<Seq<Seq<Option<Seq<char>>>>>) -> Option<Seq<Option<Seq<char>>>> {
    match m {
        Some(all) => if all.len() > 0 {
            Some(all[0])
        } else {
            None
        },
        None => None,
    }
}

/// All matches, none when the pattern did not compile.
pub open spec fn all_matches(m: Option<Seq<Seq<Option<Seq<char>>>>>) -> Seq<Seq<Option<Seq<char>>>> {
    match m {
        Some(all) => all,
        None => Seq::empty(),
    }
}

/// The text of a capture group, none if the group did not take part.
pub open spec fn group_of(caps: Seq<Option<Seq<char>>>, i: int) -> Option<Seq<char>> {
    if 0 <= i < caps.len() {
        caps[i]
    } else {
        None
    }
}

/// The text of a capture group when it reads as a floating-point number.
pub open spec fn number_group(caps: Seq<Option<Seq<char>>>, i: int) -> Option<Seq<char>> {
    match group_of(caps, i) {
        Some(s) => if float_text(s) {
            Some(s)
        } else {
            None
        },
        None => None,
    }
}

pub open spec fn group_u64(caps: Seq<Option<Seq<char>>>, i: int) -> Option<u64> {
    match group_of(caps, i) {
        Some(s) => spec_parse_u64(s),
        None => None,
    }
}

pub open spec fn group_usize(caps: Seq<Option<Seq<char>>>, i: int) -> Option<usize> {
    match group_of(caps, i) {
        Some(s) => spec_parse_usize(s),
        None => None,
    }
}

/// A player line read from its captures: seat, name, stack.
pub open spec fn player_of(caps: Seq<Option<Seq<char>>>) -> Result<PlayerView, ParseErrorView> {
    match group_usize(caps, 1) {
        None => Err(ParseErrorView::InvalidFormat("seat number"@)),
        Some(seat) => match group_u64(caps, 3) {
            None => Err(ParseErrorView::InvalidFormat("stack"@)),
            Some(stack) => Ok(
                PlayerView {
                    seat,
                    name: match group_of(caps, 2) {
                        Some(n) => n,
                        None => Seq::empty(),
                    },
                    stack,
                    position: Position::Unknown,
                },
            ),
        },
    }
}

/// The players of all player lines, or the error of the first bad one.
pub open spec fn players_of(all: Seq<Seq<Option<Seq<char>>>>) -> Result<Seq<PlayerView>, ParseErrorView>
    decreases all.len(),
{
    if all.len() == 0 {
        Ok(Seq::empty())
    } else {
        match players_of(all.drop_last()) {
            Err(e) => Err(e),
            Ok(ps) => match player_of(all.last()) {
                Err(e) => Err(e),
                Ok(p) => Ok(ps.push(p)),
            },
        }
    }
}

/// The ante amounts that the posts show, in order.
pub open spec fn ante_values(all: Seq<Seq<Option<Seq<char>>>>) -> Seq<u64>
    decreases all.len(),
{
    if all.len() == 0 {
        Seq::empty()
    } else {
        let rest = ante_values(all.drop_last());
        match group_u64(all.last(), 1) {
            Some(v) => rest.push(v),
            None => rest,
        }
    }
}

/// The ante that the posts show: the amount when every post is the same,
/// otherwise (or with no posts) zero.
pub open spec fn spec_ante_from_posts(text: Seq<char>) -> u64 {
    ante_of_posts(regex_matches(RE_ANTE@, text))
}

/// The ante that the matches of the ante posts show: the amount when every
/// post is the same, otherwise (or with no posts) zero.
pub open spec fn ante_of_posts(antes: Option<Seq<Seq<Option<Seq<char>>>>>) -> u64 {
    let values = ante_values(all_matches(antes));
    if values.len() == 0 {
        0
    } else if forall|k: int| 0 <= k < values.len() ==> #[trigger] values[k] == values[0] {
        values[0]
    } else {
        0
    }
}

/// The seats in clockwise order from `current`, visiting at most `steps`
/// seats of a table numbered `1..=max`, and stopping once all are found.
pub open spec fn clockwise(seats: Seq<usize>, max: usize, current: usize, steps: nat, acc: Seq<usize>) -> Seq<usize>
    decreases steps,
{
    if steps == 0 {
        acc
    } else {
        let acc2 = if seats.contains(current) { acc.push(current) } else { acc };
        if acc2.len() == seats.len() {
            acc2
        } else {
            clockwise(
                seats,
                max,
                if current >= max { 1 } else { (current + 1) as usize },
                (steps - 1) as nat,
                acc2,
            )
        }
    }
}

/// The seats in clockwise order starting at the button.
pub open spec fn spec_seats_clockwise(seats: Seq<usize>, button_seat: usize, table_max: usize) -> Seq<usize> {
    clockwise(seats, table_max, button_seat, table_max as nat, Seq::empty())
}

pub open spec fn nine_max() -> Seq<Position> {
    seq![
        Position::BTN,
        Position::SB,
        Position::BB,
        Position::UTG,
        Position::UTG1,
        Position::MP,
        Position::MP1,
        Position::HJ,
        Position::CO,
    ]
}

/// The positions of `count` players in clockwise order from the button.
pub open spec fn position_table(count: int) -> Seq<Position> {
    if count == 2 {
        seq![Position::BTN, Position::BB]
    } else if count == 3 {
        seq![Position::BTN, Position::SB, Position::BB]
    } else if count < 9 {
        nine_max().take(count)
    } else {
        nine_max()
    }
}

/// Index of the first occurrence of `x`.
pub open spec fn find_seat(s: Seq<usize>, x: usize) -> Option<int>
    decreases s.len(),
{
    if s.len() == 0 {
        None
    } else if s[0] == x {
        Some(0)
    } else {
        match find_seat(s.drop_first(), x) {
            Some(i) => Some(i + 1),
            None => None,
        }
    }
}

/// The position that a player in `seat` gets, `old` if the seat is not found.
pub open spec fn position_for(ordered: Seq<usize>, seat: usize, old: Position) -> Position {
    match find_seat(ordered, seat) {
        Some(i) => {
            let table = position_table(ordered.len() as int);
            if i < table.len() {
                table[i]
            } else {
                Position::Unknown
            }
        },
        None => old,
    }
}

pub open spec fn seats_of(players: Seq<PlayerView>) -> Seq<usize> {
    players.map_values(|p: PlayerView| p.seat)
}

/// The players with their positions from the button.
pub open spec fn spec_assign_positions(players: Seq<PlayerView>, button_seat: usize, table_max: usize) -> Seq<PlayerView> {
    let ordered = spec_seats_clockwise(seats_of(players), button_seat, table_max);
    players.map_values(
        |p: PlayerView|
            PlayerView {
                seat: p.seat,
                name: p.name,
                stack: p.stack,
                position: position_for(ordered, p.seat, p.position),
            },
    )
}

/// What reading a hand history gives.
pub open spec fn spec_parse_hand_history(text: Seq<char>) -> Result<HandView, ParseErrorView> {
    let t = spec_trim(text);
    if t.len() == 0 {
        Err(ParseErrorView::Empty)
    } else if !seq_contains(t, "Tournament #"@) {
        Err(ParseErrorView::NotPokerStarsTournament)
    } else {
        spec_hand_from_matches(
            regex_matches(RE_TOURNAMENT@, t),
            regex_matches(RE_LEVEL_BLINDS@, t),
            regex_matches(RE_BUTTON@, t),
            regex_matches(RE_TABLE_MAX@, t),
            regex_matches(RE_PLAYER@, t),
            regex_matches(RE_ANTE@, t),
        )
    }
}

/// What the header reads as, given the matches of the tournament, blinds,
/// button, table-size, player and ante-post patterns.
pub open spec fn spec_hand_from_matches(
    tournament: Option<Seq<Seq<Option<Seq<char>>>>>,
    blinds: Option<Seq<Seq<Option<Seq<char>>>>>,
    button: Option<Seq<Seq<Option<Seq<char>>>>>,
    table: Option<Seq<Seq<Option<Seq<char>>>>>,
    players: Option<Seq<Seq<Option<Seq<char>>>>>,
    antes: Option<Seq<Seq<Option<Seq<char>>>>>,
) -> Result<HandView, ParseErrorView> {
    {
        let tour = first_match(tournament);
        match first_match(blinds) {
            None => Err(ParseErrorView::NoBlinds),
            Some(b) => match group_u64(b, 2) {
                None => Err(ParseErrorView::InvalidFormat("small blind"@)),
                Some(small_blind) => match group_u64(b, 3) {
                    None => Err(ParseErrorView::InvalidFormat("big blind"@)),
                    Some(big_blind) => {
                        let header_ante = match group_u64(b, 4) {
                            Some(v) => v,
                            None => 0,
                        };
                        let button = match first_match(button) {
                            Some(c) => group_usize(c, 1),
                            None => None,
                        };
                        match button {
                            None => Err(ParseErrorView::InvalidFormat("button seat"@)),
                            Some(button_seat) => {
                                let table_max = match first_match(table) {
                                    Some(c) => match group_usize(c, 1) {
                                        Some(v) => v,
                                        None => 9,
                                    },
                                    None => 9,
                                };
                                match players_of(all_matches(players)) {
                                    Err(e) => Err(e),
                                    Ok(players) => if players.len() == 0 {
                                        Err(ParseErrorView::NoPlayers)
                                    } else if players.len() > 3 {
                                        Err(ParseErrorView::TooManyPlayers(players.len() as usize))
                                    } else if players.len() < 2 {
                                        Err(ParseErrorView::InvalidFormat("нужно минимум 2 игрока"@))
                                    } else {
                                        Ok(
                                            HandView {
                                                tournament_id: match tour {
                                                    Some(c) => group_of(c, 1),
                                                    None => None,
                                                },
                                                buy_in: match tour {
                                                    Some(c) => number_group(c, 2),
                                                    None => None,
                                                },
                                                fee: match tour {
                                                    Some(c) => number_group(c, 3),
                                                    None => None,
                                                },
                                                level: group_of(b, 1),
                                                small_blind,
                                                big_blind,
                                                ante: if header_ante > 0 {
                                                    header_ante
                                                } else {
                                                    ante_of_posts(antes)
                                                },
                                                table_max,
                                                button_seat,
                                                players: spec_assign_positions(players, button_seat, table_max),
                                            },
                                        )
                                    },
                                }
                            },
                        }
                    },
                },
            },
        }
    }
}

fn first_captures(all: &Option<Vec<Vec<Option<String>>>>) -> (r: Option<Vec<Option<String>>>)
    ensures
        match r {
            Some(c) => first_match(matches_view(*all)) == Some(captures_view(c)),
            None => first_match(matches_view(*all)) is None,
        },
{
    match all {
        Some(v) => {
            if v.len() > 0 {
                Some(v[0].clone())
            } else {
                None
            }
        },
        None => None,
    }
}

fn group_chars(caps: &Vec<Option<String>>, i: usize) -> (r: Option<Vec<char>>)
    ensures
        match r {
            Some(v) => group_of(captures_view(*caps), i as int) == Some(v@),
            None => group_of(captures_view(*caps), i as int) is None,
        },
{
    if i < caps.len() {
        match &caps[i] {
            Some(s) => Some(chars_of(s.as_str())),
            None => None,
        }
    } else {
        None
    }
}

fn group_string(caps: &Vec<Option<String>>, i: usize) -> (r: Option<String>)
    ensures
        opt_view(r) == group_of(captures_view(*caps), i as int),
{
    if i < caps.len() {
        caps[i].clone()
    } else {
        None
    }
}

fn group_u64_of(caps: &Vec<Option<String>>, i: usize) -> (r: Option<u64>)
    ensures
        r == group_u64(captures_view(*caps), i as int),
{
    match group_chars(caps, i) {
        Some(v) => parse_u64(&v),
        None => None,
    }
}

fn group_usize_of(caps: &Vec<Option<String>>, i: usize) -> (r: Option<usize>)
    ensures
        r == group_usize(captures_view(*caps), i as int),
{
    match group_chars(caps, i) {
        Some(v) => parse_usize(&v),
        None => None,
    }
}

fn message(m: &str) -> (r: String)
    ensures
        r@ == m@,
{
    m.to_owned()
}

/// Reads the header of a PokerStars tournament hand history: tournament,
/// blinds and ante, button, table size and the two or three seated players
/// with their positions.
pub fn parse_hand_history(text: &str) -> (res: Result<ParsedHand, ParseError>)
    ensures
        result_view(res) == spec_parse_hand_history(text@),
{
    let raw = chars_of(text);
    let trimmed = trim_chars(&raw);
    if trimmed.len() == 0 {
        return Err(ParseError::Empty);
    }
    let needle = chars_of("Tournament #");
    if !contains_chars(&trimmed, &needle) {
        return Err(ParseError::NotPokerStarsTournament);
    }
    let t = string_of(&trimmed);
    let text = t.as_str();
    hand_from_matches(
        &captures_all(RE_TOURNAMENT, text),
        &captures_all(RE_LEVEL_BLINDS, text),
        &captures_all(RE_BUTTON, text),
        &captures_all(RE_TABLE_MAX, text),
        &captures_all(RE_PLAYER, text),
        &captures_all(RE_ANTE, text),
    )
}

/// The text of a capture group when it reads as a floating-point number.
fn number_string(caps: &Vec<Option<String>>, i: usize) -> (r: Option<String>)
    ensures
        opt_view(r) == number_group(captures_view(*caps), i as int),
{
    match group_chars(caps, i) {
        Some(v) => if reads_as_float(&v) {
            Some(string_of(&v))
        } else {
            None
        },
        None => None,
    }
}

/// Reads the header of a hand history from the matches of its patterns:
/// tournament, blinds and ante, button, table size, the player lines and the
/// ante posts.
pub fn hand_from_matches(
    tournament: &Option<Vec<Vec<Option<String>>>>,
    blinds: &Option<Vec<Vec<Option<String>>>>,
    button: &Option<Vec<Vec<Option<String>>>>,
    table: &Option<Vec<Vec<Option<String>>>>,
    players: &Option<Vec<Vec<Option<String>>>>,
    antes: &Option<Vec<Vec<Option<String>>>>,
) -> (res: Result<ParsedHand, ParseError>)
    ensures
        result_view(res) == spec_hand_from_matches(
            matches_view(*tournament),
            matches_view(*blinds),
            matches_view(*button),
            matches_view(*table),
            matches_view(*players),
            matches_view(*antes),
        ),
{
    let tour = first_captures(tournament);
    let (tournament_id, buy_in, fee) = match &tour {
        Some(c) => (group_string(c, 1), number_string(c, 2), number_string(c, 3)),
        None => (None, None, None),
    };

    let blinds_cap = match first_captures(blinds) {
        Some(c) => c,
        None => return Err(ParseError::NoBlinds),
    };
    let level = group_string(&blinds_cap, 1);
    let small_blind = match group_u64_of(&blinds_cap, 2) {
        Some(v) => v,
        None => return Err(ParseError::InvalidFormat(message("small blind"))),
    };
    let big_blind = match group_u64_of(&blinds_cap, 3) {
        Some(v) => v,
        None => return Err(ParseError::InvalidFormat(message("big blind"))),
    };
    let header_ante = match group_u64_of(&blinds_cap, 4) {
        Some(v) => v,
        None => 0,
    };

    let button_seat = match first_captures(button) {
        Some(c) => group_usize_of(&c, 1),
        None => None,
    };
    let button_seat = match button_seat {
        Some(v) => v,
        None => return Err(ParseError::InvalidFormat(message("button seat"))),
    };

    let table_max = match first_captures(table) {
        Some(c) => match group_usize_of(&c, 1) {
            Some(v) => v,
            None => 9,
        },
        None => 9,
    };

    let mut players = match read_players(players) {
        Ok(p) => p,
        Err(e) => return Err(e),
    };

    if players.len() == 0 {
        return Err(ParseError::NoPlayers);
    }
    let player_count = players.len();
    if player_count > 3 {
        return Err(ParseError::TooManyPlayers(player_count));
    }
    if player_count < 2 {
        return Err(ParseError::InvalidFormat(message("нужно минимум 2 игрока")));
    }

    let ante = if header_ante > 0 {
        header_ante
    } else {
        ante_from_matches(antes)
    };

    assign_positions(&mut players, button_seat, table_max);

    Ok(
        ParsedHand {
            tournament_id,
            buy_in,
            fee,
            level,
            small_blind,
            big_blind,
            ante,
            table_max,
            button_seat,
            players,
        },
    )
}

fn read_players(all: &Option<Vec<Vec<Option<String>>>>) -> (r: Result<Vec<ParsedPlayer>, ParseError>)
    ensures
        match r {
            Ok(ps) => players_of(all_matches(matches_view(*all))) == Ok::<Seq<PlayerView>, ParseErrorView>(
                ps@.map_values(|p: ParsedPlayer| p@),
            ),
            Err(e) => players_of(all_matches(matches_view(*all))) == Err::<Seq<PlayerView>, ParseErrorView>(e@),
        },
{
    let mut players: Vec<ParsedPlayer> = Vec::new();
    assert(players@.map_values(|p: ParsedPlayer| p@) =~= Seq::<PlayerView>::empty());
    match all {
        None => {
            assert(players@.map_values(|p: ParsedPlayer| p@) =~= Seq::<PlayerView>::empty());
            Ok(players)
        },
        Some(v) => {
            let ghost mv = all_matches(matches_view(*all));
            assert(mv.take(0) =~= Seq::<Seq<Option<Seq<char>>>>::empty());
            let mut i: usize = 0;
            while i < v.len()
                invariant
                    i <= v.len(),
                    mv == v@.map_values(|c: Vec<Option<String>>| captures_view(c)),
                    mv == all_matches(matches_view(*all)),
                    players_of(mv.take(i as int)) == Ok::<Seq<PlayerView>, ParseErrorView>(
                        players@.map_values(|p: ParsedPlayer| p@),
                    ),
                decreases v.len() - i,
            {
                let caps = &v[i];
                assert(mv.take(i + 1).drop_last() =~= mv.take(i as int));
                assert(mv.take(i + 1).last() == captures_view(*caps));
                let seat = match group_usize_of(caps, 1) {
                    Some(s) => s,
                    None => {
                        proof {
                            lemma_players_err_prefix(mv, i as int + 1);
                        }
                        return Err(ParseError::InvalidFormat(message("seat number")));
                    },
                };
                let name = match group_string(caps, 2) {
                    Some(n) => n,
                    None => String::new(),
                };
                let stack = match group_u64_of(caps, 3) {
                    Some(s) => s,
                    None => {
                        proof {
                            lemma_players_err_prefix(mv, i as int + 1);
                        }
                        return Err(ParseError::InvalidFormat(message("stack")));
                    },
                };
                let ghost before = players@.map_values(|p: ParsedPlayer| p@);
                players.push(ParsedPlayer { seat, name, stack, position: Position::Unknown });
                assert(players@.map_values(|p: ParsedPlayer| p@) =~= before.push(
                    player_of(captures_view(*caps))->Ok_0,
                ));
                i += 1;
            }
            assert(mv.take(i as int) =~= mv);
            Ok(players)
        },
    }
}

proof fn lemma_players_err_prefix(all: Seq<Seq<Option<Seq<char>>>>, i: int)
    requires
        0 <= i <= all.len(),
        players_of(all.take(i)) is Err,
    ensures
        players_of(all) == players_of(all.take(i)),
    decreases all.len() - i,
{
    if i < all.len() {
        assert(all.take(i + 1).drop_last() =~= all.take(i));
        lemma_players_err_prefix(all, i + 1);
    } else {
        assert(all.take(i) =~= all);
    }
}

/// The ante when every `posts the ante` line names the same amount, else zero.
/// The ante that the ante posts of a hand history show: the amount when
/// every post is the same, otherwise (or with no posts) zero.
pub fn parse_ante_from_posts(text: &str) -> (ante: u64)
    ensures
        ante == spec_ante_from_posts(text@),
{
    ante_from_matches(&captures_all(RE_ANTE, text))
}

fn ante_from_matches(all: &Option<Vec<Vec<Option<String>>>>) -> (ante: u64)
    ensures
        ante == ante_of_posts(matches_view(*all)),
{
    let ghost mv = all_matches(matches_view(*all));
    let mut values: Vec<u64> = Vec::new();
    match all {
        Some(v) => {
            let mut i: usize = 0;
            while i < v.len()
                invariant
                    i <= v.len(),
                    mv == v@.map_values(|c: Vec<Option<String>>| captures_view(c)),
                    ante_values(mv.take(i as int)) == values@,
                decreases v.len() - i,
            {
                assert(mv.take(i + 1).drop_last() =~= mv.take(i as int));
                assert(mv.take(i + 1).last() == captures_view(v@[i as int]));
                match group_u64_of(&v[i], 1) {
                    Some(value) => values.push(value),
                    None => {},
                }
                i += 1;
            }
            assert(mv.take(i as int) =~= mv);
        },
        None => {
            assert(mv =~= Seq::<Seq<Option<Seq<char>>>>::empty());
        },
    }
    assert(values@ == ante_values(all_matches(matches_view(*all))));
    if values.len() == 0 {
        return 0;
    }
    let first = values[0];
    let mut k: usize = 0;
    while k < values.len()
        invariant
            k <= values.len(),
            values@ == ante_values(all_matches(matches_view(*all))),
            first == values@[0],
            forall|j: int| 0 <= j < k ==> #[trigger] values@[j] == first,
        decreases values.len() - k,
    {
        if values[k] != first {
            assert(values@[k as int] != values@[0]);
            return 0;
        }
        k += 1;
    }
    first
}

/// The seats in clockwise order from the button on a table with seats
/// `1..=table_max`.
pub fn seats_clockwise_from_button(seats: &Vec<usize>, button_seat: usize, table_max: usize) -> (ordered: Vec<usize>)
    ensures
        ordered@ == spec_seats_clockwise(seats@, button_seat, table_max),
{
    let max_seat = table_max;
    let mut ordered: Vec<usize> = Vec::new();
    let mut current = button_seat;
    let mut step: usize = 0;
    while step < max_seat
        invariant
            step <= max_seat,
            spec_seats_clockwise(seats@, button_seat, table_max) == clockwise(
                seats@,
                max_seat,
                current,
                (max_seat - step) as nat,
                ordered@,
            ),
            max_seat == table_max,
        decreases max_seat - step,
    {
        let mut found = false;
        let mut k: usize = 0;
        while k < seats.len()
            invariant
                k <= seats.len(),
                found == (exists|j: int| 0 <= j < k && seats@[j] == current),
            decreases seats.len() - k,
        {
            if seats[k] == current {
                found = true;
            }
            k += 1;
        }
        assert(found == seats@.contains(current));
        if found {
            ordered.push(current);
        }
        current = if current >= max_seat { 1 } else { current + 1 };
        step += 1;
        if ordered.len() == seats.len() {
            return ordered;
        }
    }
    ordered
}

fn position_at(count: usize, index: usize) -> (p: Position)
    ensures
        p == (if (index as int) < position_table(count as int).len() {
            position_table(count as int)[index as int]
        } else {
            Position::Unknown
        }),
{
    if count == 2 {
        if index == 0 {
            Position::BTN
        } else if index == 1 {
            Position::BB
        } else {
            Position::Unknown
        }
    } else if count == 3 {
        if index == 0 {
            Position::BTN
        } else if index == 1 {
            Position::SB
        } else if index == 2 {
            Position::BB
        } else {
            Position::Unknown
        }
    } else if index >= count || index >= 9 {
        Position::Unknown
    } else if index == 0 {
        Position::BTN
    } else if index == 1 {
        Position::SB
    } else if index == 2 {
        Position::BB
    } else if index == 3 {
        Position::UTG
    } else if index == 4 {
        Position::UTG1
    } else if index == 5 {
        Position::MP
    } else if index == 6 {
        Position::MP1
    } else if index == 7 {
        Position::HJ
    } else {
        Position::CO
    }
}

proof fn lemma_find_seat(s: Seq<usize>, x: usize, i: int)
    requires
        0 <= i <= s.len(),
        forall|k: int| 0 <= k < i ==> s[k] != x,
        i == s.len() || s[i] == x,
    ensures
        i < s.len() ==> find_seat(s, x) == Some(i),
        i == s.len() ==> find_seat(s, x) is None,
    decreases i,
{
    if i > 0 {
        let t = s.drop_first();
        assert forall|k: int| 0 <= k < i - 1 implies t[k] != x by {
            assert(t[k] == s[k + 1]);
        }
        if i < s.len() {
            assert(t[i - 1] == s[i]);
        }
        lemma_find_seat(t, x, i - 1);
    }
}

/// Gives every player the position of its seat counted clockwise from the button.
fn assign_positions(players: &mut Vec<ParsedPlayer>, button_seat: usize, table_max: usize)
    ensures
        final(players)@.map_values(|p: ParsedPlayer| p@) == spec_assign_positions(
            old(players)@.map_values(|p: ParsedPlayer| p@),
            button_seat,
            table_max,
        ),
{
    let ghost pv = players@.map_values(|p: ParsedPlayer| p@);
    let mut seats: Vec<usize> = Vec::new();
    let mut i: usize = 0;
    while i < players.len()
        invariant
            i <= players.len(),
            pv == players@.map_values(|p: ParsedPlayer| p@),
            seats@ == seats_of(pv).take(i as int),
        decreases players.len() - i,
    {
        seats.push(players[i].seat);
        i += 1;
        assert(seats@ =~= seats_of(pv).take(i as int));
    }
    assert(seats@ =~= seats_of(pv));
    let ordered = seats_clockwise_from_button(&seats, button_seat, table_max);
    let count = ordered.len();
    let ghost target = spec_assign_positions(pv, button_seat, table_max);
    let mut i: usize = 0;
    while i < players.len()
        invariant
            i <= players.len(),
            players.len() == pv.len(),
            target == spec_assign_positions(pv, button_seat, table_max),
            ordered@ == spec_seats_clockwise(seats_of(pv), button_seat, table_max),
            count == ordered.len(),
            forall|j: int| 0 <= j < i ==> #[trigger] players@[j]@ == target[j],
            forall|j: int| i <= j < players.len() ==> #[trigger] players@[j]@ == pv[j],
        decreases players.len() - i,
    {
        let seat = players[i].seat;
        let mut k: usize = 0;
        while k < ordered.len() && ordered[k] != seat
            invariant
                k <= ordered.len(),
                forall|m: int| 0 <= m < k ==> ordered@[m] != seat,
            decreases ordered.len() - k,
        {
            k += 1;
        }
        proof {
            lemma_find_seat(ordered@, seat, k as int);
        }
        let ghost old_view = players@[i as int]@;
        assert(old_view == pv[i as int]);
        if k < ordered.len() {
            let p = position_at(count, k);
            let player = ParsedPlayer {
                seat: players[i].seat,
                name: players[i].name.clone(),
                stack: players[i].stack,
                position: p,
            };
            players.set(i, player);
            assert(players@[i as int]@.position == position_for(ordered@, pv[i as int].seat, pv[i as int].position));
            assert(players@[i as int]@.name == pv[i as int].name);
        } else {
            assert(find_seat(ordered@, seat) is None);
        }
        assert(target[i as int] == PlayerView {
            seat: pv[i as int].seat,
            name: pv[i as int].name,
            stack: pv[i as int].stack,
            position: position_for(ordered@, pv[i as int].seat, pv[i as int].position),
        });
        assert(players@[i as int]@ == target[i as int]);
        i += 1;
    }
    assert(players@.map_values(|p: ParsedPlayer| p@) =~= target);
}

/// Whether the hand went beyond push or fold: a flop was dealt, or someone
/// called without being all-in.
pub fn is_non_push_fold_situation(text: &str) -> (b: bool)
    ensures
        b == (seq_contains(text@, "*** FLOP ***"@) || exists|k: int|
            0 <= k < spec_lines(text@).len() && seq_contains(#[trigger] spec_lines(text@)[k], ": calls "@)
                && !seq_contains(spec_lines(text@)[k], "all-in"@)),
{
    let chars = chars_of(text);
    let flop = chars_of("*** FLOP ***");
    if contains_chars(&chars, &flop) {
        return true;
    }
    let calls = chars_of(": calls ");
    let all_in = chars_of("all-in");
    let lines = split_lines(&chars);
    let mut i: usize = 0;
    while i < lines.len()
        invariant
            i <= lines.len(),
            lines@.len() == spec_lines(text@).len(),
            forall|k: int| 0 <= k < lines.len() ==> #[trigger] lines@[k]@ == spec_lines(text@)[k],
            calls@ == ": calls "@,
            all_in@ == "all-in"@,
            chars@ == text@,
            forall|k: int| 0 <= k < i ==> !(seq_contains(#[trigger] spec_lines(text@)[k], ": calls "@) && !seq_contains(spec_lines(text@)[k], "all-in"@)),
        decreases lines.len() - i,
    {
        if contains_chars(&lines[i], &calls) && !contains_chars(&lines[i], &all_in) {
            assert(lines@[i as int]@ == spec_lines(text@)[i as int]);
            return true;
        }
        assert(lines@[i as int]@ == spec_lines(text@)[i as int]);
        i += 1;
    }
    false
}

/// Index of a position for the solver: 0 for the button (or small blind
/// heads-up), then the blinds.
pub fn solver_position_index(position: Position, num_players: usize) -> (r: Option<usize>)
    ensures
        r == (if num_players == 2 && (position == Position::BTN || position == Position::SB) {
            Some(0usize)
        } else if num_players == 2 && position == Position::BB {
            Some(1usize)
        } else if num_players == 3 && position == Position::BTN {
            Some(0usize)
        } else if num_players == 3 && position == Position::SB {
            Some(1usize)
        } else if num_players == 3 && position == Position::BB {
            Some(2usize)
        } else {
            None
        }),
{
    match (num_players, position) {
        (2, Position::BTN) | (2, Position::SB) => Some(0),
        (2, Position::BB) => Some(1),
        (3, Position::BTN) => Some(0),
        (3, Position::SB) => Some(1),
        (3, Position::BB) => Some(2),
        _ => None,
    }
}

/// The short name of a position.
pub open spec fn spec_position_label(position: Position) -> Seq<char> {
    match position {
        Position::BTN => "BTN"@,
        Position::SB => "SB"@,
        Position::BB => "BB"@,
        Position::UTG => "UTG"@,
        Position::UTG1 => "UTG1"@,
        Position::MP => "MP"@,
        Position::MP1 => "MP1"@,
        Position::HJ => "HJ"@,
        Position::CO => "CO"@,
        Position::Unknown => "?"@,
    }
}

pub fn position_label(position: Position) -> (s: &'static str)
    ensures
        s@ == spec_position_label(position),
{
    match position {
        Position::BTN => "BTN",
        Position::SB => "SB",
        Position::BB => "BB",
        Position::UTG => "UTG",
        Position::UTG1 => "UTG1",
        Position::MP => "MP",
        Position::MP1 => "MP1",
        Position::HJ => "HJ",
        Position::CO => "CO",
        Position::Unknown => "?",
    }
}

} // verus!
