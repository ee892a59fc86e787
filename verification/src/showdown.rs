use vstd::prelude::*;

use crate::card::{group_card, Card};
use crate::equity::{mk, HandRange};
use crate::hand_evaluator::{evaluate_hand, is_best_of_seven, remove_two, spec_rank5, HandRank};

verus! {

broadcast use group_card;

/// How the showdowns of one player ended, as counts.
#[derive(Debug, Clone)]
pub struct PlayerTally {
    /// Showdowns won alone.
    pub wins: u64,
    /// Showdowns lost.
    pub losses: u64,
    /// `splits[k]`: showdowns whose pot was shared by `k` winners.
    pub splits: Vec<u64>,
}

pub ghost struct PlayerTallyView {
    pub wins: nat,
    pub losses: nat,
    pub splits: Seq<nat>,
}

impl View for PlayerTally {
    type V = PlayerTallyView;

    open spec fn view(&self) -> PlayerTallyView {
        PlayerTallyView {
            wins: self.wins as nat,
            losses: self.losses as nat,
            splits: self.splits@.map_values(|x: u64| x as nat),
        }
    }
}

/// The counts of every player over a number of showdowns.
#[derive(Debug, Clone)]
pub struct Tally {
    /// One entry per player, in seat order.
    pub players: Vec<PlayerTally>,
    /// How many showdowns were counted.
    pub showdowns: u64,
}

pub ghost struct TallyView {
    pub players: Seq<PlayerTallyView>,
    pub showdowns: nat,
}

impl View for Tally {
    type V = TallyView;

    open spec fn view(&self) -> TallyView {
        TallyView {
            players: self.players@.map_values(|p: PlayerTally| p@),
            showdowns: self.showdowns as nat,
        }
    }
}

/// A player with nothing counted yet, in a game of `n` players.
pub open spec fn zero_player(n: nat) -> PlayerTallyView {
    PlayerTallyView { wins: 0, losses: 0, splits: Seq::new(n + 1, |k: int| 0nat) }
}

/// The tally of `n` players before any showdown.
pub open spec fn empty_tally(n: nat) -> TallyView {
    TallyView { players: Seq::new(n, |i: int| zero_player(n)), showdowns: 0 }
}

/// The tally holds one entry per player, each with a split count for every
/// number of winners from 0 to `n`.
pub open spec fn tally_wf(t: TallyView, n: nat) -> bool {
    &&& t.players.len() == n
    &&& forall|i: int| 0 <= i < n ==> (#[trigger] t.players[i]).splits.len() == n + 1
}

/// No count exceeds the number of showdowns.
pub open spec fn tally_bounded(t: TallyView) -> bool {
    forall|i: int|
        0 <= i < t.players.len() ==> {
            let p = #[trigger] t.players[i];
            &&& p.wins <= t.showdowns
            &&& p.losses <= t.showdowns
            &&& forall|k: int| 0 <= k < p.splits.len() ==> #[trigger] p.splits[k] <= t.showdowns
        }
}

/// The largest of the values (0 for none).
pub open spec fn best_value(v: Seq<nat>) -> nat
    decreases v.len(),
{
    if v.len() == 0 {
        0
    } else {
        let b = best_value(v.drop_last());
        if v.last() > b {
            v.last()
        } else {
            b
        }
    }
}

/// How many of the values equal `x`.
pub open spec fn count_of(v: Seq<nat>, x: nat) -> nat
    decreases v.len(),
{
    if v.len() == 0 {
        0
    } else {
        count_of(v.drop_last(), x) + if v.last() == x {
            1nat
        } else {
            0nat
        }
    }
}

/// One showdown credited to a player: a loss, a win alone, or a share of a
/// pot split among `winners`.
pub open spec fn credit(p: PlayerTallyView, best: bool, winners: nat) -> PlayerTallyView {
    if !best {
        PlayerTallyView { wins: p.wins, losses: p.losses + 1, splits: p.splits }
    } else if winners == 1 {
        PlayerTallyView { wins: p.wins + 1, losses: p.losses, splits: p.splits }
    } else {
        PlayerTallyView {
            wins: p.wins,
            losses: p.losses,
            splits: p.splits.update(winners as int, p.splits[winners as int] + 1),
        }
    }
}

/// The tally after one more showdown in which player `i` holds a hand of
/// value `values[i]`: the best value wins, alone or shared.
pub open spec fn spec_showdown(t: TallyView, values: Seq<nat>) -> TallyView {
    let b = best_value(values);
    let w = count_of(values, b);
    TallyView {
        players: Seq::new(t.players.len(), |i: int| credit(t.players[i], values[i] == b, w)),
        showdowns: t.showdowns + 1,
    }
}

/// The values of hand ranks.
pub open spec fn rank_values(r: Seq<HandRank>) -> Seq<nat> {
    r.map_values(|h: HandRank| h.spec_value())
}

proof fn lemma_best_value(v: Seq<nat>)
    requires
        v.len() > 0,
    ensures
        forall|i: int| 0 <= i < v.len() ==> #[trigger] v[i] <= best_value(v),
        exists|i: int| 0 <= i < v.len() && #[trigger] v[i] == best_value(v),
        1 <= count_of(v, best_value(v)) <= v.len(),
    decreases v.len(),
{
    let d = v.drop_last();
    lemma_count_le(d, best_value(v));
    if d.len() > 0 {
        lemma_best_value(d);
        lemma_count_le(d, best_value(v));
        let j = choose|i: int| 0 <= i < d.len() && #[trigger] d[i] == best_value(d);
        assert(v[j] == d[j]);
        assert forall|i: int| 0 <= i < v.len() implies #[trigger] v[i] <= best_value(v) by {
            if i < d.len() {
                assert(v[i] == d[i]);
            }
        }
        if v.last() > best_value(d) {
            assert(v[v.len() - 1] == best_value(v));
        } else {
            assert(v[j] == best_value(v));
            lemma_count_positive(d, j);
        }
    } else {
        assert(best_value(d) == 0);
        assert(count_of(d, best_value(v)) == 0);
        assert(v[0] == best_value(v));
    }
}

proof fn lemma_count_le(v: Seq<nat>, x: nat)
    ensures
        count_of(v, x) <= v.len(),
    decreases v.len(),
{
    if v.len() > 0 {
        lemma_count_le(v.drop_last(), x);
    }
}

proof fn lemma_count_positive(v: Seq<nat>, j: int)
    requires
        0 <= j < v.len(),
    ensures
        count_of(v, v[j]) >= 1,
    decreases v.len(),
{
    let d = v.drop_last();
    if j < d.len() {
        assert(d[j] == v[j]);
        lemma_count_positive(d, j);
    }
}

impl Tally {
    /// A tally of `players` players with nothing counted.
    pub fn new(players: usize) -> (t: Tally)
        requires
            players < usize::MAX,
        ensures
            t@ == empty_tally(players as nat),
    {
        let mut list: Vec<PlayerTally> = Vec::new();
        let mut i: usize = 0;
        while i < players
            invariant
                i <= players < usize::MAX,
                list.len() == i,
                forall|j: int| 0 <= j < i ==> (#[trigger] list@[j])@ == zero_player(players as nat),
            decreases players - i,
        {
            let mut splits: Vec<u64> = Vec::new();
            let mut k: usize = 0;
            while k <= players
                invariant
                    k <= players + 1,
                    players < usize::MAX,
                    splits.len() == k,
                    forall|m: int| 0 <= m < k ==> splits@[m] == 0,
                decreases players + 1 - k,
            {
                splits.push(0);
                k += 1;
            }
            let p = PlayerTally { wins: 0, losses: 0, splits };
            assert(p@.splits =~= zero_player(players as nat).splits);
            list.push(p);
            i += 1;
        }
        let t = Tally { players: list, showdowns: 0 };
        assert(t@.players =~= empty_tally(players as nat).players);
        t
    }
}

/// Counts one more showdown: the players holding the best rank win, alone
/// or sharing the pot, and the others lose.
pub fn accumulate_showdown(ranks: &Vec<HandRank>, totals: &mut Tally)
    requires
        ranks.len() >= 1,
        tally_wf(old(totals)@, ranks.len() as nat),
        tally_bounded(old(totals)@),
        old(totals)@.showdowns < u64::MAX,
    ensures
        final(totals)@ == spec_showdown(old(totals)@, rank_values(ranks@)),
        tally_wf(final(totals)@, ranks.len() as nat),
        tally_bounded(final(totals)@),
{
    let ghost values = rank_values(ranks@);
    let ghost t0 = totals@;
    let n = ranks.len();
    proof {
        lemma_best_value(values);
    }
    let mut best: u64 = ranks[0].value();
    let mut i: usize = 1;
    proof {
        let f = values.take(1);
        assert(f.drop_last() =~= Seq::<nat>::empty());
        assert(best_value(f.drop_last()) == 0);
        assert(f.last() == values[0]);
        assert(values[0] == ranks@[0].spec_value());
    }
    while i < n
        invariant
            1 <= i <= n == ranks.len(),
            values == rank_values(ranks@),
            best == best_value(values.take(i as int)),
        decreases n - i,
    {
        let v = ranks[i].value();
        assert(values.take(i + 1).drop_last() =~= values.take(i as int));
        if v > best {
            best = v;
        }
        i += 1;
    }
    assert(values.take(n as int) =~= values);
    let mut winners: usize = 0;
    let mut j: usize = 0;
    assert(values.take(0) =~= Seq::<nat>::empty());
    while j < n
        invariant
            j <= n == ranks.len(),
            values == rank_values(ranks@),
            best == best_value(values),
            winners == count_of(values.take(j as int), best as nat),
            winners <= j,
        decreases n - j,
    {
        assert(values.take(j + 1).drop_last() =~= values.take(j as int));
        if ranks[j].value() == best {
            winners += 1;
        }
        j += 1;
    }
    assert(values.take(n as int) =~= values);
    let ghost w = count_of(values, best as nat);
    let mut p: usize = 0;
    while p < n
        invariant
            p <= n == ranks.len(),
            values == rank_values(ranks@),
            best == best_value(values),
            winners == w,
            1 <= w <= n,
            tally_wf(t0, n as nat),
            tally_bounded(t0),
            t0.showdowns < u64::MAX,
            totals.showdowns == t0.showdowns,
            totals.players.len() == n,
            forall|m: int| 0 <= m < n ==> (#[trigger] totals.players@[m])@ == (if m < p {
                credit(t0.players[m], values[m] == best, w)
            } else {
                t0.players[m]
            }),
        decreases n - p,
    {
        let ghost tp = t0.players[p as int];
        assert(totals.players@[p as int]@ == tp);
        assert(tp.splits.len() == n + 1);
        assert(tp.wins <= t0.showdowns && tp.losses <= t0.showdowns);
        assert(tp.splits[w as int] <= t0.showdowns);
        assert(values[p as int] == ranks@[p as int].spec_value());
        if ranks[p].value() == best {
            if winners == 1 {
                totals.players[p].wins = totals.players[p].wins + 1;
            } else {
                totals.players[p].splits[winners] = totals.players[p].splits[winners] + 1;
            }
        } else {
            totals.players[p].losses = totals.players[p].losses + 1;
        }
        proof {
            let np = totals.players@[p as int]@;
            assert(np.splits =~= credit(t0.players[p as int], values[p as int] == best, w).splits);
        }
        p += 1;
    }
    totals.showdowns = totals.showdowns + 1;
    assert(totals@.players =~= spec_showdown(t0, values).players);
}

/// The value of the best five-card hand among seven cards.
pub open spec fn best7(c: Seq<Card>) -> nat {
    choose|v: nat| is_best_of_seven(c, v)
}

/// A value that is the best among the seven cards is the value `best7` names.
pub proof fn lemma_best7(c: Seq<Card>, v: nat)
    requires
        is_best_of_seven(c, v),
    ensures
        best7(c) == v,
{
    let w = best7(c);
    assert(is_best_of_seven(c, w));
    let (a, b) = choose|i: int, j: int| 0 <= i < j < 7 && v == #[trigger] spec_rank5(remove_two(c, i, j));
    let (x, y) = choose|i: int, j: int| 0 <= i < j < 7 && w == #[trigger] spec_rank5(remove_two(c, i, j));
    assert(spec_rank5(remove_two(c, a, b)) <= w);
    assert(spec_rank5(remove_two(c, x, y)) <= v);
}

/// The seven cards of a holding on a full board.
pub open spec fn seven_of(h: [Card; 2], board: Seq<Card>) -> Seq<Card> {
    seq![h[0], h[1]] + board
}

/// The value of each holding on the board.
pub open spec fn showdown_values(hands: Seq<[Card; 2]>, board: Seq<Card>) -> Seq<nat> {
    Seq::new(hands.len(), |i: int| best7(seven_of(hands[i], board)))
}

/// The cards of the board followed by those of the holdings.
pub open spec fn dead_cards(board: Seq<Card>, hands: Seq<[Card; 2]>) -> Seq<Card>
    decreases hands.len(),
{
    if hands.len() == 0 {
        board
    } else {
        dead_cards(board, hands.drop_last()).push(hands.last()[0]).push(hands.last()[1])
    }
}

/// Position `k` of the deck: suit by suit, each from 2 to ace.
pub open spec fn deck_card(k: int) -> Card {
    mk(k % 13 + 2, k / 13)
}

/// The first `k` cards of the deck that are not dead, in deck order.
pub open spec fn live_cards(dead: Seq<Card>, k: nat) -> Seq<Card>
    decreases k,
{
    if k == 0 {
        Seq::empty()
    } else {
        let rest = live_cards(dead, (k - 1) as nat);
        if dead.contains(deck_card(k - 1)) {
            rest
        } else {
            rest.push(deck_card(k - 1))
        }
    }
}

/// The tally after every completion of the board `prefix` by `missing`
/// cards of `avail`, taken in increasing position from `idx` on: each
/// completion is one showdown of the holdings.
pub open spec fn boards_tally(
    t: TallyView,
    hands: Seq<[Card; 2]>,
    avail: Seq<Card>,
    missing: nat,
    idx: int,
    prefix: Seq<Card>,
) -> TallyView
    decreases missing, avail.len() - idx,
{
    if missing == 0 {
        spec_showdown(t, showdown_values(hands, prefix))
    } else if idx < 0 || idx + missing > avail.len() {
        t
    } else {
        let first = boards_tally(t, hands, avail, (missing - 1) as nat, idx + 1, prefix.push(avail[idx]));
        boards_tally(first, hands, avail, missing, idx + 1, prefix)
    }
}

/// The tally after the showdowns of one deal of holdings: every way to
/// complete the board from the cards nobody holds.
pub open spec fn deal_tally(t: TallyView, board: Seq<Card>, hands: Seq<[Card; 2]>) -> TallyView {
    let avail = live_cards(dead_cards(board, hands), 52);
    if avail.len() + board.len() < 5 {
        t
    } else {
        boards_tally(t, hands, avail, (5 - board.len()) as nat, 0, board)
    }
}

/// Whether a holding shares a card with the dead cards.
pub open spec fn blocked(dead: Seq<Card>, h: [Card; 2]) -> bool {
    dead.contains(h[0]) || dead.contains(h[1])
}

/// The tally after every deal that extends `hands` with the holdings of the
/// next range from position `j` on, each holding skipped when it shares a
/// card with the board or an earlier holding.
pub open spec fn hands_tally(
    t: TallyView,
    ranges: Seq<Seq<[Card; 2]>>,
    board: Seq<Card>,
    hands: Seq<[Card; 2]>,
    j: int,
) -> TallyView
    decreases ranges.len() - hands.len(), ranges[hands.len() as int].len() - j,
{
    if hands.len() >= ranges.len() {
        deal_tally(t, board, hands)
    } else if j < 0 || j >= ranges[hands.len() as int].len() {
        t
    } else {
        let h = ranges[hands.len() as int][j];
        let next = if blocked(dead_cards(board, hands), h) {
            t
        } else {
            hands_tally(t, ranges, board, hands.push(h), 0)
        };
        hands_tally(next, ranges, board, hands, j + 1)
    }
}

/// The holdings of each range.
pub open spec fn ranges_view(ranges: Seq<HandRange>) -> Seq<Seq<[Card; 2]>> {
    ranges.map_values(|r: HandRange| r@)
}

/// Showdown counts over every deal of one holding per range, none sharing a
/// card with the board or another holding, and every completion of the
/// board from the rest of the deck.
pub open spec fn spec_exact_tally(ranges: Seq<Seq<[Card; 2]>>, board: Seq<Card>) -> TallyView {
    hands_tally(empty_tally(ranges.len()), ranges, board, Seq::empty(), 0)
}

proof fn lemma_boards_grows(
    t: TallyView,
    hands: Seq<[Card; 2]>,
    avail: Seq<Card>,
    missing: nat,
    idx: int,
    prefix: Seq<Card>,
)
    ensures
        boards_tally(t, hands, avail, missing, idx, prefix).showdowns >= t.showdowns,
    decreases missing, avail.len() - idx,
{
    if missing > 0 && !(idx < 0 || idx + missing > avail.len()) {
        let first = boards_tally(t, hands, avail, (missing - 1) as nat, idx + 1, prefix.push(avail[idx]));
        lemma_boards_grows(t, hands, avail, (missing - 1) as nat, idx + 1, prefix.push(avail[idx]));
        lemma_boards_grows(first, hands, avail, missing, idx + 1, prefix);
    }
}

proof fn lemma_hands_grows(
    t: TallyView,
    ranges: Seq<Seq<[Card; 2]>>,
    board: Seq<Card>,
    hands: Seq<[Card; 2]>,
    j: int,
)
    ensures
        hands_tally(t, ranges, board, hands, j).showdowns >= t.showdowns,
    decreases ranges.len() - hands.len(), ranges[hands.len() as int].len() - j,
{
    if hands.len() >= ranges.len() {
        let avail = live_cards(dead_cards(board, hands), 52);
        if avail.len() + board.len() >= 5 {
            lemma_boards_grows(t, hands, avail, (5 - board.len()) as nat, 0, board);
        }
    } else if !(j < 0 || j >= ranges[hands.len() as int].len()) {
        let h = ranges[hands.len() as int][j];
        let next = if blocked(dead_cards(board, hands), h) {
            t
        } else {
            hands_tally(t, ranges, board, hands.push(h), 0)
        };
        if !blocked(dead_cards(board, hands), h) {
            lemma_hands_grows(t, ranges, board, hands.push(h), 0);
        }
        lemma_hands_grows(next, ranges, board, hands, j + 1);
    }
}

proof fn lemma_deck_card_injective(j: int, k: int)
    requires
        0 <= j < 52,
        0 <= k < 52,
        deck_card(j) == deck_card(k),
    ensures
        j == k,
{
    assert(deck_card(j).rank_of() == (j % 13 + 2) as u8);
    assert(deck_card(k).rank_of() == (k % 13 + 2) as u8);
    assert(deck_card(j).suit_of() == (j / 13) as u8);
    assert(deck_card(k).suit_of() == (k / 13) as u8);
}

proof fn lemma_live_one_more_dead(dead: Seq<Card>, d: Card, k: nat)
    requires
        k <= 52,
    ensures
        live_cards(dead, k).len() <= live_cards(dead.push(d), k).len() + if exists|j: int|
            0 <= j < k && #[trigger] deck_card(j) == d {
            1int
        } else {
            0int
        },
    decreases k,
{
    if k > 0 {
        lemma_live_one_more_dead(dead, d, (k - 1) as nat);
        let c = deck_card(k - 1);
        if dead.contains(c) {
            let i = choose|i: int| 0 <= i < dead.len() && dead[i] == c;
            assert(dead.push(d)[i] == c);
        } else if c == d {
            assert(dead.push(d)[dead.len() as int] == c);
            if exists|j: int| 0 <= j < k - 1 && #[trigger] deck_card(j) == d {
                let j = choose|j: int| 0 <= j < k - 1 && #[trigger] deck_card(j) == d;
                lemma_deck_card_injective(j, k - 1);
            }
        } else {
            if dead.push(d).contains(c) {
                let i = choose|i: int| 0 <= i < dead.len() + 1 && dead.push(d)[i] == c;
                if i < dead.len() {
                    assert(dead[i] == c);
                }
            }
        }
        if exists|j: int| 0 <= j < k - 1 && #[trigger] deck_card(j) == d {
            let j = choose|j: int| 0 <= j < k - 1 && #[trigger] deck_card(j) == d;
            assert(0 <= j < k && deck_card(j) == d);
        }
    }
}

/// At most one card of the deck leaves the live cards per dead card.
pub proof fn lemma_live_count(dead: Seq<Card>)
    ensures
        live_cards(dead, 52).len() + dead.len() >= 52,
    decreases dead.len(),
{
    if dead.len() == 0 {
        lemma_live_none_dead(dead, 52);
    } else {
        let rest = dead.drop_last();
        lemma_live_count(rest);
        lemma_live_one_more_dead(rest, dead.last(), 52);
        assert(rest.push(dead.last()) =~= dead);
    }
}

proof fn lemma_live_none_dead(dead: Seq<Card>, k: nat)
    requires
        dead.len() == 0,
    ensures
        live_cards(dead, k).len() == k,
    decreases k,
{
    if k > 0 {
        lemma_live_none_dead(dead, (k - 1) as nat);
    }
}

fn contains_card(cards: &Vec<Card>, card: Card) -> (b: bool)
    ensures
        b == cards@.contains(card),
{
    let mut i: usize = 0;
    while i < cards.len()
        invariant
            i <= cards.len(),
            forall|k: int| 0 <= k < i ==> cards@[k] != card,
        decreases cards.len() - i,
    {
        if cards[i] == card {
            return true;
        }
        i += 1;
    }
    false
}

/// The board's cards followed by those of the holdings.
pub(crate) fn collect_dead(board: &[Card], hands: &Vec<[Card; 2]>) -> (dead: Vec<Card>)
    ensures
        dead@ == dead_cards(board@, hands@),
{
    let mut dead: Vec<Card> = Vec::new();
    let mut i: usize = 0;
    while i < board.len()
        invariant
            i <= board.len(),
            dead@ == board@.take(i as int),
        decreases board.len() - i,
    {
        dead.push(board[i]);
        i += 1;
        assert(dead@ =~= board@.take(i as int));
    }
    assert(board@.take(i as int) =~= board@);
    assert(hands@.take(0) =~= Seq::<[Card; 2]>::empty());
    let mut j: usize = 0;
    while j < hands.len()
        invariant
            j <= hands.len(),
            dead@ == dead_cards(board@, hands@.take(j as int)),
        decreases hands.len() - j,
    {
        let h = hands[j];
        assert(hands@.take(j + 1).drop_last() =~= hands@.take(j as int));
        dead.push(h[0]);
        dead.push(h[1]);
        j += 1;
    }
    assert(hands@.take(j as int) =~= hands@);
    dead
}

/// The cards of the deck that are not dead, suit by suit and from 2 to ace
/// within a suit.
pub fn available_cards(dead: &Vec<Card>) -> (deck: Vec<Card>)
    ensures
        deck@ == live_cards(dead@, 52),
{
    let mut deck: Vec<Card> = Vec::new();
    let mut k: usize = 0;
    while k < 52
        invariant
            k <= 52,
            deck@ == live_cards(dead@, k as nat),
        decreases 52 - k,
    {
        let card = Card::new((k % 13 + 2) as u8, (k / 13) as u8);
        assert(card == deck_card(k as int));
        if !contains_card(dead, card) {
            deck.push(card);
        }
        k += 1;
    }
    deck
}

/// No card occurs twice.
pub open spec fn distinct_cards(c: Seq<Card>) -> bool {
    forall|i: int, j: int| 0 <= i < j < c.len() ==> c[i] != c[j]
}

/// Whether some card occurs twice.
pub fn has_duplicates(cards: &[Card]) -> (b: bool)
    ensures
        b == !distinct_cards(cards@),
{
    let mut i: usize = 0;
    while i < cards.len()
        invariant
            i <= cards.len(),
            forall|a: int, b: int| 0 <= a < i && a < b < cards.len() ==> cards@[a] != cards@[b],
        decreases cards.len() - i,
    {
        let mut j: usize = i + 1;
        while j < cards.len()
            invariant
                i < cards.len(),
                i + 1 <= j <= cards.len(),
                forall|a: int, b: int| 0 <= a < i && a < b < cards.len() ==> cards@[a] != cards@[b],
                forall|b: int| i < b < j ==> cards@[i as int] != cards@[b],
            decreases cards.len() - j,
        {
            if cards[i] == cards[j] {
                return true;
            }
            j += 1;
        }
        i += 1;
    }
    false
}

/// Whether a board can be played: at most five cards, none twice.
pub fn validate_board(board: &[Card]) -> (ok: bool)
    ensures
        ok == (board.len() <= 5 && distinct_cards(board@)),
{
    board.len() <= 5 && !has_duplicates(board)
}

/// The rank of a holding's best five cards on a full board.
pub fn evaluate_seven(hole: [Card; 2], board: &[Card; 5]) -> (r: HandRank)
    ensures
        r.spec_value() == best7(seven_of(hole, board@)),
{
    let cards = [hole[0], hole[1], board[0], board[1], board[2], board[3], board[4]];
    let r = evaluate_hand(&cards);
    proof {
        assert(cards@ =~= seven_of(hole, board@));
        lemma_best7(cards@, r.spec_value());
    }
    r
}

/// Counts every completion of the board: its first `5 - missing` cards are
/// set, the others are taken from `available` in increasing position from
/// `start` on. False when the count of showdowns would not fit.
fn enumerate_board_completions(
    available: &Vec<Card>,
    missing: usize,
    start: usize,
    board: &mut [Card; 5],
    hands: &Vec<[Card; 2]>,
    totals: &mut Tally,
) -> (ok: bool)
    requires
        missing <= 5,
        start <= available.len(),
        hands.len() >= 1,
        tally_wf(old(totals)@, hands.len() as nat),
        tally_bounded(old(totals)@),
    ensures
        tally_wf(final(totals)@, hands.len() as nat),
        tally_bounded(final(totals)@),
        final(board)@.take(5 - missing) == old(board)@.take(5 - missing),
        ok ==> final(totals)@ == boards_tally(
            old(totals)@,
            hands@,
            available@,
            missing as nat,
            start as int,
            old(board)@.take(5 - missing),
        ),
        !ok ==> boards_tally(
            old(totals)@,
            hands@,
            available@,
            missing as nat,
            start as int,
            old(board)@.take(5 - missing),
        ).showdowns > u64::MAX,
    decreases missing,
{
    if missing == 0 {
        assert(board@.take(5) =~= board@);
        if totals.showdowns == u64::MAX {
            return false;
        }
        let mut ranks: Vec<HandRank> = Vec::new();
        let mut i: usize = 0;
        while i < hands.len()
            invariant
                i <= hands.len(),
                ranks.len() == i,
                forall|k: int| 0 <= k < i ==> #[trigger] ranks@[k].spec_value() == best7(seven_of(hands@[k], board@)),
            decreases hands.len() - i,
        {
            ranks.push(evaluate_seven(hands[i], board));
            i += 1;
        }
        assert(rank_values(ranks@) =~= showdown_values(hands@, board@));
        accumulate_showdown(&ranks, totals);
        return true;
    }
    if missing > available.len() {
        return true;
    }
    let ghost prefix = board@.take(5 - missing);
    let ghost goal = boards_tally(totals@, hands@, available@, missing as nat, start as int, prefix);
    let mut index = start;
    while index <= available.len() - missing
        invariant
            1 <= missing <= 5,
            missing <= available.len(),
            start <= index <= available.len(),
            prefix == old(board)@.take(5 - missing),
            goal == boards_tally(old(totals)@, hands@, available@, missing as nat, start as int, prefix),
            hands.len() >= 1,
            tally_wf(totals@, hands.len() as nat),
            tally_bounded(totals@),
            board@.take(5 - missing) == prefix,
            boards_tally(totals@, hands@, available@, missing as nat, index as int, prefix) == goal,
        decreases available.len() - index,
    {
        board[5 - missing] = available[index];
        assert(board@.take(5 - missing + 1) =~= prefix.push(available@[index as int]));
        let ghost before = totals@;
        let ghost bb = board@;
        let ok = enumerate_board_completions(available, missing - 1, index + 1, board, hands, totals);
        proof {
            assert(board@.take(5 - missing + 1) == bb.take(5 - missing + 1));
            assert(boards_tally(before, hands@, available@, missing as nat, index as int, prefix)
                == boards_tally(
                boards_tally(before, hands@, available@, (missing - 1) as nat, index + 1, prefix.push(available@[index as int])),
                hands@,
                available@,
                missing as nat,
                index + 1,
                prefix,
            ));
            assert(board@.take(5 - missing) =~= board@.take(5 - missing + 1).take(5 - missing));
            assert(prefix.push(available@[index as int]).take(5 - missing) =~= prefix);
        }
        if !ok {
            proof {
                let first = boards_tally(before, hands@, available@, (missing - 1) as nat, index + 1, prefix.push(available@[index as int]));
                lemma_boards_grows(first, hands@, available@, missing as nat, index + 1, prefix);
            }
            return false;
        }
        index += 1;
    }
    true
}

/// Counts the showdowns of one deal: every completion of the board from the
/// cards that neither the board nor a holding uses.
fn tally_deal(board: &[Card], hands: &Vec<[Card; 2]>, totals: &mut Tally) -> (ok: bool)
    requires
        board.len() <= 5,
        hands.len() >= 1,
        tally_wf(old(totals)@, hands.len() as nat),
        tally_bounded(old(totals)@),
    ensures
        tally_wf(final(totals)@, hands.len() as nat),
        tally_bounded(final(totals)@),
        ok ==> final(totals)@ == deal_tally(old(totals)@, board@, hands@),
        !ok ==> deal_tally(old(totals)@, board@, hands@).showdowns > u64::MAX,
{
    let dead = collect_dead(board, hands);
    let available = available_cards(&dead);
    let missing = 5 - board.len();
    if available.len() < missing {
        return true;
    }
    let filler = Card::new(2, 0);
    let mut full: [Card; 5] = [filler, filler, filler, filler, filler];
    let mut i: usize = 0;
    while i < board.len()
        invariant
            i <= board.len() <= 5,
            full@.take(i as int) == board@.take(i as int),
        decreases board.len() - i,
    {
        full[i] = board[i];
        i += 1;
        assert(full@.take(i as int) =~= board@.take(i as int));
    }
    assert(board@.take(i as int) =~= board@);
    enumerate_board_completions(&available, missing, 0, &mut full, hands, totals)
}

/// Counts every deal that gives the players after those of `hands` one
/// holding of their range each, skipping holdings that share a card with the
/// board or an earlier holding.
fn enumerate_assignments(
    ranges: &[HandRange],
    board: &[Card],
    hands: &mut Vec<[Card; 2]>,
    totals: &mut Tally,
) -> (ok: bool)
    requires
        old(hands).len() <= ranges.len(),
        ranges.len() >= 1,
        board.len() <= 5,
        tally_wf(old(totals)@, ranges.len() as nat),
        tally_bounded(old(totals)@),
    ensures
        final(hands)@ == old(hands)@,
        tally_wf(final(totals)@, ranges.len() as nat),
        tally_bounded(final(totals)@),
        ok ==> final(totals)@ == hands_tally(old(totals)@, ranges_view(ranges@), board@, old(hands)@, 0),
        !ok ==> hands_tally(old(totals)@, ranges_view(ranges@), board@, old(hands)@, 0).showdowns
            > u64::MAX,
    decreases ranges.len() - hands.len(),
{
    let ghost rv = ranges_view(ranges@);
    if hands.len() == ranges.len() {
        return tally_deal(board, hands, totals);
    }
    let dead = collect_dead(board, hands);
    let range = &ranges[hands.len()];
    assert(range@ == rv[hands.len() as int]);
    let ghost h0 = hands@;
    let ghost goal = hands_tally(totals@, rv, board@, h0, 0);
    let mut j: usize = 0;
    while j < range.len()
        invariant
            hands@ == h0,
            h0 == old(hands)@,
            goal == hands_tally(old(totals)@, rv, board@, h0, 0),
            h0.len() < ranges.len(),
            ranges.len() >= 1,
            board.len() <= 5,
            rv == ranges_view(ranges@),
            range@ == rv[h0.len() as int],
            dead@ == dead_cards(board@, h0),
            tally_wf(totals@, ranges.len() as nat),
            tally_bounded(totals@),
            hands_tally(totals@, rv, board@, h0, j as int) == goal,
        decreases range.len() - j,
    {
        let hand = range[j];
        if !contains_card(&dead, hand[0]) && !contains_card(&dead, hand[1]) {
            let ghost before = totals@;
            hands.push(hand);
            let ok = enumerate_assignments(ranges, board, hands, totals);
            hands.pop();
            assert(hands@ =~= h0);
            if !ok {
                proof {
                    lemma_hands_grows(hands_tally(before, rv, board@, h0.push(hand), 0), rv, board@, h0, j + 1);
                }
                return false;
            }
        }
        j += 1;
    }
    true
}

/// Counts how each player's showdowns end over every deal of one holding per
/// range, none sharing a card with the board or another holding, and every
/// completion of the board from the rest of the deck. `None` when the number
/// of showdowns does not fit in 64 bits.
pub fn exact_tally(ranges: &[HandRange], board: &[Card]) -> (r: Option<Tally>)
    requires
        1 <= ranges.len() < usize::MAX,
        board.len() <= 5,
        distinct_cards(board@),
    ensures
        r matches Some(t) ==> t@ == spec_exact_tally(ranges_view(ranges@), board@),
        r is None <==> spec_exact_tally(ranges_view(ranges@), board@).showdowns > u64::MAX,
{
    let mut totals = Tally::new(ranges.len());
    let mut hands: Vec<[Card; 2]> = Vec::new();
    assert(hands@ =~= Seq::<[Card; 2]>::empty());
    proof {
        let e = empty_tally(ranges.len() as nat);
        assert(tally_bounded(e));
    }
    if enumerate_assignments(ranges, board, &mut hands, &mut totals) {
        Some(totals)
    } else {
        None
    }
}

/// Sum of the first `k` entries.
pub open spec fn sum_first(s: Seq<nat>, k: int) -> int
    decreases k,
{
    if k <= 0 {
        0
    } else {
        sum_first(s, k - 1) + s[k - 1]
    }
}

/// How many showdowns a player's counts cover.
pub open spec fn counted(p: PlayerTallyView) -> int {
    p.wins + p.losses + sum_first(p.splits, p.splits.len() as int)
}

/// Showdowns won alone by the first `i` players.
pub open spec fn wins_of_first(ps: Seq<PlayerTallyView>, i: int) -> int
    decreases i,
{
    if i <= 0 {
        0
    } else {
        wins_of_first(ps, i - 1) + ps[i - 1].wins
    }
}

/// Shares of `k`-way split pots held by the first `i` players.
pub open spec fn splits_of_first(ps: Seq<PlayerTallyView>, i: int, k: int) -> int
    decreases i,
{
    if i <= 0 {
        0
    } else {
        splits_of_first(ps, i - 1, k) + ps[i - 1].splits[k]
    }
}

/// Split pots with `k` to `n` winners: each was counted once by each of its
/// winners.
pub open spec fn split_pots(ps: Seq<PlayerTallyView>, n: int, k: int) -> int
    decreases n + 1 - k,
{
    if k > n || k < 1 {
        0
    } else {
        splits_of_first(ps, n, k) / k + split_pots(ps, n, k + 1)
    }
}

/// Every showdown was counted once for each of the `n` players, split pots
/// only among two or more winners, and the pots add up: the wins alone and
/// the split pots together are the showdowns.
pub open spec fn pots_conserved(t: TallyView, n: nat) -> bool {
    &&& tally_wf(t, n)
    &&& forall|i: int| 0 <= i < n ==> #[trigger] counted(t.players[i]) == t.showdowns
    &&& forall|i: int|
        0 <= i < n ==> (#[trigger] t.players[i]).splits[0] == 0 && t.players[i].splits[1] == 0
    &&& forall|k: int| 2 <= k <= n ==> #[trigger] splits_of_first(t.players, n as int, k) % k == 0
    &&& wins_of_first(t.players, n as int) + split_pots(t.players, n as int, 2) == t.showdowns
}

proof fn lemma_sum_first_update(s: Seq<nat>, j: int, k: int)
    requires
        0 <= j < s.len(),
        k <= s.len(),
    ensures
        sum_first(s.update(j, s[j] + 1), k) == sum_first(s, k) + if 0 <= j < k {
            1int
        } else {
            0int
        },
    decreases k,
{
    if k > 0 {
        lemma_sum_first_update(s, j, k - 1);
    }
}

proof fn lemma_sum_first_zeros(s: Seq<nat>, k: int)
    requires
        k <= s.len(),
        forall|m: int| 0 <= m < s.len() ==> s[m] == 0,
    ensures
        sum_first(s, k) == 0,
    decreases k,
{
    if k > 0 {
        lemma_sum_first_zeros(s, k - 1);
    }
}

proof fn lemma_zero_sums(ps: Seq<PlayerTallyView>, n: nat, i: int)
    requires
        i <= n,
        ps == empty_tally(n).players,
    ensures
        wins_of_first(ps, i) == 0,
        forall|k: int| 0 <= k <= n ==> #[trigger] splits_of_first(ps, i, k) == 0,
    decreases i,
{
    if i > 0 {
        lemma_zero_sums(ps, n, i - 1);
        assert forall|k: int| 0 <= k <= n implies #[trigger] splits_of_first(ps, i, k) == 0 by {
            assert(splits_of_first(ps, i - 1, k) == 0);
        }
    }
}

proof fn lemma_zero_pots(ps: Seq<PlayerTallyView>, n: nat, k: int)
    requires
        forall|m: int| 0 <= m <= n ==> #[trigger] splits_of_first(ps, n as int, m) == 0,
    ensures
        split_pots(ps, n as int, k) == 0,
    decreases n + 1 - k,
{
    if !(k > n || k < 1) {
        lemma_zero_pots(ps, n, k + 1);
        assert(splits_of_first(ps, n as int, k) == 0);
    }
}

/// Nothing counted conserves the pots.
pub proof fn lemma_empty_conserved(n: nat)
    ensures
        pots_conserved(empty_tally(n), n),
{
    let t = empty_tally(n);
    assert forall|i: int| 0 <= i < n implies #[trigger] counted(t.players[i]) == t.showdowns by {
        lemma_sum_first_zeros(t.players[i].splits, (n + 1) as int);
    }
    lemma_zero_sums(t.players, n, n as int);
    lemma_zero_pots(t.players, n, 2);
    assert forall|k: int| 2 <= k <= n implies #[trigger] splits_of_first(t.players, n as int, k) % k == 0 by {
        assert(splits_of_first(t.players, n as int, k) == 0);
    }
}

/// The players' counts after one showdown.
pub open spec fn credited(ps: Seq<PlayerTallyView>, values: Seq<nat>) -> Seq<PlayerTallyView> {
    let b = best_value(values);
    let w = count_of(values, b);
    Seq::new(ps.len(), |i: int| credit(ps[i], values[i] == b, w))
}

proof fn lemma_wins_credited(ps: Seq<PlayerTallyView>, values: Seq<nat>, i: int)
    requires
        ps.len() == values.len(),
        0 <= i <= ps.len(),
    ensures
        wins_of_first(credited(ps, values), i) == wins_of_first(ps, i) + if count_of(
            values,
            best_value(values),
        ) == 1 {
            count_of(values.take(i), best_value(values)) as int
        } else {
            0int
        },
    decreases i,
{
    if i > 0 {
        lemma_wins_credited(ps, values, i - 1);
        assert(values.take(i).drop_last() =~= values.take(i - 1));
        assert(values.take(i).last() == values[i - 1]);
    } else {
        assert(values.take(0) =~= Seq::<nat>::empty());
    }
}

proof fn lemma_splits_credited(ps: Seq<PlayerTallyView>, values: Seq<nat>, i: int, k: int)
    requires
        ps.len() == values.len(),
        0 <= i <= ps.len(),
        0 <= k <= ps.len(),
        count_of(values, best_value(values)) <= ps.len(),
        forall|m: int| 0 <= m < ps.len() ==> (#[trigger] ps[m]).splits.len() == ps.len() + 1,
    ensures
        splits_of_first(credited(ps, values), i, k) == splits_of_first(ps, i, k) + if count_of(
            values,
            best_value(values),
        ) >= 2 && k == count_of(values, best_value(values)) {
            count_of(values.take(i), best_value(values)) as int
        } else {
            0int
        },
    decreases i,
{
    if i > 0 {
        lemma_splits_credited(ps, values, i - 1, k);
        assert(values.take(i).drop_last() =~= values.take(i - 1));
        assert(values.take(i).last() == values[i - 1]);
        let b = best_value(values);
        let w = count_of(values, b);
        let p = ps[i - 1];
        assert(p.splits.len() == ps.len() + 1);
        let q = credited(ps, values)[i - 1];
        assert(q == credit(p, values[i - 1] == b, w));
        if values[i - 1] == b && w >= 2 {
            assert(q.splits == p.splits.update(w as int, p.splits[w as int] + 1));
            assert(q.splits[k] == p.splits[k] + if k == w {
                1int
            } else {
                0int
            });
        } else {
            if values[i - 1] == b {
                lemma_count_positive(values, i - 1);
            }
            assert(q.splits[k] == p.splits[k]);
        }
    } else {
        assert(values.take(0) =~= Seq::<nat>::empty());
    }
}

proof fn lemma_pots_shift(ps: Seq<PlayerTallyView>, qs: Seq<PlayerTallyView>, n: int, k: int, w: int)
    requires
        2 <= k,
        1 <= w,
        forall|m: int| 2 <= m <= n ==> #[trigger] splits_of_first(qs, n, m) == splits_of_first(ps, n, m)
            + if m == w {
            w
        } else {
            0int
        },
    ensures
        split_pots(qs, n, k) == split_pots(ps, n, k) + if k <= w <= n && w >= 2 {
            1int
        } else {
            0int
        },
    decreases n + 1 - k,
{
    if k <= n {
        lemma_pots_shift(ps, qs, n, k + 1, w);
        let x = splits_of_first(ps, n, k);
        if k == w {
            vstd::arithmetic::div_mod::lemma_div_plus_one(x, w);
        }
    }
}

/// One showdown keeps the pots conserved.
pub proof fn lemma_showdown_conserves(t: TallyView, values: Seq<nat>, n: nat)
    requires
        pots_conserved(t, n),
        values.len() == n,
        n >= 1,
    ensures
        pots_conserved(spec_showdown(t, values), n),
{
    let b = best_value(values);
    let w = count_of(values, b);
    let ps = t.players;
    let qs = spec_showdown(t, values).players;
    lemma_best_value(values);
    assert(qs == credited(ps, values));
    assert(values.take(n as int) =~= values);
    assert forall|i: int| 0 <= i < n implies #[trigger] counted(qs[i]) == t.showdowns + 1 by {
        let p = ps[i];
        assert(p.splits.len() == n + 1);
        assert(counted(p) == t.showdowns);
        assert(qs[i] == credit(p, values[i] == b, w));
        if values[i] == b && w != 1 {
            lemma_sum_first_update(p.splits, w as int, (n + 1) as int);
        }
    }
    lemma_wins_credited(ps, values, n as int);
    assert forall|k: int| 0 <= k <= n implies #[trigger] splits_of_first(qs, n as int, k)
        == splits_of_first(ps, n as int, k) + if w >= 2 && k == w {
        w as int
    } else {
        0int
    } by {
        lemma_splits_credited(ps, values, n as int, k);
    }
    assert forall|k: int| 2 <= k <= n implies #[trigger] splits_of_first(qs, n as int, k) % k == 0 by {
        assert(splits_of_first(qs, n as int, k) == splits_of_first(ps, n as int, k) + if w >= 2 && k
            == w {
            w as int
        } else {
            0int
        });
        if w >= 2 && k == w {
            vstd::arithmetic::div_mod::lemma_mod_add_multiples_vanish(splits_of_first(ps, n as int, k), k);
        }
    }
    lemma_pots_shift(ps, qs, n as int, 2, w as int);
}

proof fn lemma_boards_conserve(
    t: TallyView,
    hands: Seq<[Card; 2]>,
    avail: Seq<Card>,
    missing: nat,
    idx: int,
    prefix: Seq<Card>,
)
    requires
        pots_conserved(t, hands.len()),
        hands.len() >= 1,
    ensures
        pots_conserved(boards_tally(t, hands, avail, missing, idx, prefix), hands.len()),
    decreases missing, avail.len() - idx,
{
    if missing == 0 {
        lemma_showdown_conserves(t, showdown_values(hands, prefix), hands.len());
    } else if !(idx < 0 || idx + missing > avail.len()) {
        let first = boards_tally(t, hands, avail, (missing - 1) as nat, idx + 1, prefix.push(avail[idx]));
        lemma_boards_conserve(t, hands, avail, (missing - 1) as nat, idx + 1, prefix.push(avail[idx]));
        lemma_boards_conserve(first, hands, avail, missing, idx + 1, prefix);
    }
}

proof fn lemma_hands_conserve(
    t: TallyView,
    ranges: Seq<Seq<[Card; 2]>>,
    board: Seq<Card>,
    hands: Seq<[Card; 2]>,
    j: int,
)
    requires
        pots_conserved(t, ranges.len()),
        hands.len() <= ranges.len(),
        ranges.len() >= 1,
    ensures
        pots_conserved(hands_tally(t, ranges, board, hands, j), ranges.len()),
    decreases ranges.len() - hands.len(), ranges[hands.len() as int].len() - j,
{
    if hands.len() >= ranges.len() {
        let avail = live_cards(dead_cards(board, hands), 52);
        if avail.len() + board.len() >= 5 {
            lemma_boards_conserve(t, hands, avail, (5 - board.len()) as nat, 0, board);
        }
    } else if !(j < 0 || j >= ranges[hands.len() as int].len()) {
        let h = ranges[hands.len() as int][j];
        let next = if blocked(dead_cards(board, hands), h) {
            t
        } else {
            hands_tally(t, ranges, board, hands.push(h), 0)
        };
        if !blocked(dead_cards(board, hands), h) {
            lemma_hands_conserve(t, ranges, board, hands.push(h), 0);
        }
        lemma_hands_conserve(next, ranges, board, hands, j + 1);
    }
}

/// Every showdown of the exact count hands out exactly one pot: each player
/// is counted once per showdown, and the pots won alone together with the
/// split pots (each counted once by each of its winners) make up all the
/// showdowns. So the players' shares of the pots add up to one.
pub proof fn law_exact_tally_conserves_pots(ranges: Seq<Seq<[Card; 2]>>, board: Seq<Card>)
    requires
        ranges.len() >= 1,
    ensures
        pots_conserved(spec_exact_tally(ranges, board), ranges.len()),
{
    lemma_empty_conserved(ranges.len());
    lemma_hands_conserve(empty_tally(ranges.len()), ranges, board, Seq::empty(), 0);
}

/// Two holdings have no card in common.
pub open spec fn cards_apart(h: [Card; 2], g: [Card; 2]) -> bool {
    &&& h[0] != g[0]
    &&& h[0] != g[1]
    &&& h[1] != g[0]
    &&& h[1] != g[1]
}

/// No card of a holding is on the board or in another holding.
pub open spec fn deal_disjoint(board: Seq<Card>, d: Seq<[Card; 2]>) -> bool {
    &&& forall|i: int| 0 <= i < d.len() ==> !board.contains(#[trigger] d[i][0]) && !board.contains(d[i][1])
    &&& forall|i: int, j: int| 0 <= j < i < d.len() ==> cards_apart(#[trigger] d[i], #[trigger] d[j])
}

/// Each player's holding comes from that player's range.
pub open spec fn deal_from_ranges(ranges: Seq<Seq<[Card; 2]>>, d: Seq<[Card; 2]>) -> bool {
    &&& d.len() == ranges.len()
    &&& forall|i: int| 0 <= i < d.len() ==> ranges[i].contains(#[trigger] d[i])
}

/// Whether the holding has the card.
pub open spec fn holds_card(h: [Card; 2], c: Card) -> bool {
    h[0] == c || h[1] == c
}

/// A card is dead when it is on the board or in one of the holdings.
pub proof fn lemma_dead_cards_has(board: Seq<Card>, hands: Seq<[Card; 2]>, c: Card)
    ensures
        dead_cards(board, hands).contains(c) <==> board.contains(c) || exists|j: int|
            0 <= j < hands.len() && #[trigger] holds_card(hands[j], c),
    decreases hands.len(),
{
    if hands.len() > 0 {
        let p = hands.drop_last();
        lemma_dead_cards_has(board, p, c);
        let d0 = dead_cards(board, p);
        let d = d0.push(hands.last()[0]).push(hands.last()[1]);
        assert(dead_cards(board, hands) == d);
        if d.contains(c) {
            let k = choose|k: int| 0 <= k < d.len() && d[k] == c;
            if k < d0.len() {
                assert(d0[k] == c);
                assert(d0.contains(c));
                if !board.contains(c) {
                    let j = choose|j: int| 0 <= j < p.len() && #[trigger] holds_card(p[j], c);
                    assert(hands[j] == p[j]);
                    assert(holds_card(hands[j], c));
                }
            } else {
                assert(holds_card(hands[hands.len() - 1], c));
            }
        }
        if board.contains(c) {
            assert(d0.contains(c));
            let k = choose|k: int| 0 <= k < d0.len() && d0[k] == c;
            assert(d[k] == c);
        }
        if exists|j: int| 0 <= j < hands.len() && #[trigger] holds_card(hands[j], c) {
            let j = choose|j: int| 0 <= j < hands.len() && #[trigger] holds_card(hands[j], c);
            if j < p.len() {
                assert(p[j] == hands[j]);
                assert(holds_card(p[j], c));
                assert(d0.contains(c));
                let k = choose|k: int| 0 <= k < d0.len() && d0[k] == c;
                assert(d[k] == c);
            } else if hands[j][0] == c {
                assert(d[d0.len() as int] == c);
            } else {
                assert(d[d0.len() as int + 1] == c);
            }
        }
    }
}

/// A holding that no dead card blocks keeps a deal card-disjoint.
pub proof fn lemma_extend_disjoint(board: Seq<Card>, hands: Seq<[Card; 2]>, h: [Card; 2])
    requires
        deal_disjoint(board, hands),
        !blocked(dead_cards(board, hands), h),
    ensures
        deal_disjoint(board, hands.push(h)),
{
    let d = hands.push(h);
    lemma_dead_cards_has(board, hands, h[0]);
    lemma_dead_cards_has(board, hands, h[1]);
    assert forall|i: int| 0 <= i < d.len() implies !board.contains(#[trigger] d[i][0]) && !board.contains(
        d[i][1],
    ) by {
        if i < hands.len() {
            assert(d[i] == hands[i]);
        }
    }
    assert forall|i: int, j: int| 0 <= j < i < d.len() implies cards_apart(#[trigger] d[i], #[trigger] d[j]) by {
        assert(d[j] == hands[j]);
        if i < hands.len() {
            assert(d[i] == hands[i]);
        } else {
            assert(d[i] == h);
            assert(!holds_card(hands[j], h[0]));
            assert(!holds_card(hands[j], h[1]));
        }
    }
}

/// The deals that the exact count visits, in its order: for each player in
/// turn, each holding of the range that shares no card with the board or an
/// earlier holding.
pub open spec fn exact_deals(
    ranges: Seq<Seq<[Card; 2]>>,
    board: Seq<Card>,
    hands: Seq<[Card; 2]>,
    j: int,
) -> Seq<Seq<[Card; 2]>>
    decreases ranges.len() - hands.len(), ranges[hands.len() as int].len() - j,
{
    if hands.len() >= ranges.len() {
        seq![hands]
    } else if j < 0 || j >= ranges[hands.len() as int].len() {
        Seq::empty()
    } else {
        let h = ranges[hands.len() as int][j];
        let first = if blocked(dead_cards(board, hands), h) {
            Seq::empty()
        } else {
            exact_deals(ranges, board, hands.push(h), 0)
        };
        first + exact_deals(ranges, board, hands, j + 1)
    }
}

/// The tally after the showdowns of each deal in turn.
pub open spec fn deals_tally(t: TallyView, board: Seq<Card>, ds: Seq<Seq<[Card; 2]>>) -> TallyView
    decreases ds.len(),
{
    if ds.len() == 0 {
        t
    } else {
        deal_tally(deals_tally(t, board, ds.drop_last()), board, ds.last())
    }
}

proof fn lemma_deals_tally_concat(t: TallyView, board: Seq<Card>, a: Seq<Seq<[Card; 2]>>, b: Seq<Seq<[Card; 2]>>)
    ensures
        deals_tally(t, board, a + b) == deals_tally(deals_tally(t, board, a), board, b),
    decreases b.len(),
{
    if b.len() == 0 {
        assert(a + b =~= a);
    } else {
        lemma_deals_tally_concat(t, board, a, b.drop_last());
        assert((a + b).drop_last() =~= a + b.drop_last());
        assert((a + b).last() == b.last());
    }
}

proof fn lemma_hands_tally_deals(
    t: TallyView,
    ranges: Seq<Seq<[Card; 2]>>,
    board: Seq<Card>,
    hands: Seq<[Card; 2]>,
    j: int,
)
    ensures
        hands_tally(t, ranges, board, hands, j) == deals_tally(t, board, exact_deals(ranges, board, hands, j)),
    decreases ranges.len() - hands.len(), ranges[hands.len() as int].len() - j,
{
    if hands.len() >= ranges.len() {
        assert(seq![hands].drop_last() =~= Seq::<Seq<[Card; 2]>>::empty());
        assert(seq![hands].last() == hands);
        assert(deals_tally(t, board, Seq::<Seq<[Card; 2]>>::empty()) == t);
    } else if j < 0 || j >= ranges[hands.len() as int].len() {
    } else {
        let h = ranges[hands.len() as int][j];
        let rest = exact_deals(ranges, board, hands, j + 1);
        if blocked(dead_cards(board, hands), h) {
            lemma_hands_tally_deals(t, ranges, board, hands, j + 1);
            assert(Seq::<Seq<[Card; 2]>>::empty() + rest =~= rest);
        } else {
            let first = exact_deals(ranges, board, hands.push(h), 0);
            lemma_hands_tally_deals(t, ranges, board, hands.push(h), 0);
            let next = hands_tally(t, ranges, board, hands.push(h), 0);
            lemma_hands_tally_deals(next, ranges, board, hands, j + 1);
            lemma_deals_tally_concat(t, board, first, rest);
        }
    }
}

proof fn lemma_exact_deals_sound(
    ranges: Seq<Seq<[Card; 2]>>,
    board: Seq<Card>,
    hands: Seq<[Card; 2]>,
    j: int,
)
    requires
        hands.len() <= ranges.len(),
        deal_disjoint(board, hands),
        forall|i: int| 0 <= i < hands.len() ==> ranges[i].contains(#[trigger] hands[i]),
    ensures
        forall|k: int| 0 <= k < exact_deals(ranges, board, hands, j).len() ==> {
            let d = #[trigger] exact_deals(ranges, board, hands, j)[k];
            deal_from_ranges(ranges, d) && deal_disjoint(board, d)
        },
    decreases ranges.len() - hands.len(), ranges[hands.len() as int].len() - j,
{
    let ds = exact_deals(ranges, board, hands, j);
    if hands.len() >= ranges.len() {
        assert forall|k: int| 0 <= k < ds.len() implies {
            let d = #[trigger] ds[k];
            deal_from_ranges(ranges, d) && deal_disjoint(board, d)
        } by {
            assert(ds[k] == hands);
        }
    } else if j < 0 || j >= ranges[hands.len() as int].len() {
    } else {
        let h = ranges[hands.len() as int][j];
        let rest = exact_deals(ranges, board, hands, j + 1);
        lemma_exact_deals_sound(ranges, board, hands, j + 1);
        let first = if blocked(dead_cards(board, hands), h) {
            Seq::<Seq<[Card; 2]>>::empty()
        } else {
            exact_deals(ranges, board, hands.push(h), 0)
        };
        if !blocked(dead_cards(board, hands), h) {
            lemma_extend_disjoint(board, hands, h);
            let hp = hands.push(h);
            assert forall|i: int| 0 <= i < hp.len() implies ranges[i].contains(#[trigger] hp[i]) by {
                if i < hands.len() {
                    assert(hp[i] == hands[i]);
                } else {
                    assert(hp[i] == ranges[hands.len() as int][j]);
                }
            }
            lemma_exact_deals_sound(ranges, board, hp, 0);
        }
        assert(ds == first + rest);
        assert forall|k: int| 0 <= k < ds.len() implies {
            let d = #[trigger] ds[k];
            deal_from_ranges(ranges, d) && deal_disjoint(board, d)
        } by {
            if k < first.len() {
                assert(ds[k] == first[k]);
            } else {
                assert(ds[k] == rest[k - first.len()]);
            }
        }
    }
}

/// The exact count is the showdowns of its deals taken in turn, each deal
/// with every completion of the board.
pub proof fn law_exact_tally_is_its_deals(ranges: Seq<Seq<[Card; 2]>>, board: Seq<Card>)
    ensures
        spec_exact_tally(ranges, board) == deals_tally(
            empty_tally(ranges.len()),
            board,
            exact_deals(ranges, board, Seq::empty(), 0),
        ),
{
    lemma_hands_tally_deals(empty_tally(ranges.len()), ranges, board, Seq::empty(), 0);
}

/// Every deal the exact count takes gives each player a holding of that
/// player's range, and no two players, nor a player and the board, share a
/// card.
pub proof fn law_exact_deals_disjoint(ranges: Seq<Seq<[Card; 2]>>, board: Seq<Card>, k: int)
    requires
        0 <= k < exact_deals(ranges, board, Seq::empty(), 0).len(),
    ensures
        deal_from_ranges(ranges, exact_deals(ranges, board, Seq::empty(), 0)[k]),
        deal_disjoint(board, exact_deals(ranges, board, Seq::empty(), 0)[k]),
{
    lemma_exact_deals_sound(ranges, board, Seq::empty(), 0);
}

proof fn lemma_seq_contains_concat<A>(a: Seq<A>, b: Seq<A>, x: A)
    ensures
        a.contains(x) || b.contains(x) ==> (a + b).contains(x),
{
    if a.contains(x) {
        let i = choose|i: int| 0 <= i < a.len() && a[i] == x;
        assert((a + b)[i] == x);
    } else if b.contains(x) {
        let i = choose|i: int| 0 <= i < b.len() && b[i] == x;
        assert((a + b)[a.len() + i] == x);
    }
}

proof fn lemma_exact_deals_complete(
    ranges: Seq<Seq<[Card; 2]>>,
    board: Seq<Card>,
    hands: Seq<[Card; 2]>,
    j: int,
    d: Seq<[Card; 2]>,
)
    requires
        deal_from_ranges(ranges, d),
        deal_disjoint(board, d),
        hands.len() <= ranges.len(),
        0 <= j,
        hands == d.take(hands.len() as int),
        hands.len() < ranges.len() ==> exists|m: int|
            j <= m < ranges[hands.len() as int].len() && #[trigger] ranges[hands.len() as int][m] == d[hands.len() as int],
    ensures
        exact_deals(ranges, board, hands, j).contains(d),
    decreases ranges.len() - hands.len(), ranges[hands.len() as int].len() - j,
{
    let n = hands.len() as int;
    if n >= ranges.len() {
        assert(hands =~= d);
        assert(exact_deals(ranges, board, hands, j) == seq![hands]);
        assert(seq![hands][0] == d);
    } else {
        let m = choose|m: int| j <= m < ranges[n].len() && #[trigger] ranges[n][m] == d[n];
        let h = ranges[n][j];
        let rest = exact_deals(ranges, board, hands, j + 1);
        if j < m {
            lemma_exact_deals_complete(ranges, board, hands, j + 1, d);
            let first = if blocked(dead_cards(board, hands), h) {
                Seq::<Seq<[Card; 2]>>::empty()
            } else {
                exact_deals(ranges, board, hands.push(h), 0)
            };
            lemma_seq_contains_concat(first, rest, d);
            assert(exact_deals(ranges, board, hands, j) == first + rest);
        } else {
            assert(h == d[n]);
            lemma_dead_cards_has(board, hands, h[0]);
            lemma_dead_cards_has(board, hands, h[1]);
            assert forall|k: int| 0 <= k < hands.len() implies !#[trigger] holds_card(hands[k], h[0]) && !holds_card(
                hands[k],
                h[1],
            ) by {
                assert(hands[k] == d[k]);
                assert(cards_apart(d[n], d[k]));
            }
            assert(!blocked(dead_cards(board, hands), h));
            let hp = hands.push(h);
            assert(hp =~= d.take(n + 1));
            if n + 1 < ranges.len() {
                assert(ranges[n + 1].contains(d[n + 1]));
                let m2 = choose|m2: int| 0 <= m2 < ranges[n + 1].len() && #[trigger] ranges[n + 1][m2] == d[n + 1];
                assert(ranges[hp.len() as int][m2] == d[hp.len() as int]);
            }
            lemma_exact_deals_complete(ranges, board, hp, 0, d);
            let first = exact_deals(ranges, board, hp, 0);
            lemma_seq_contains_concat(first, rest, d);
            assert(exact_deals(ranges, board, hands, j) == first + rest);
        }
    }
}

/// Every deal that gives each player a holding of that player's range, with
/// no card shared between players or with the board, is one the exact count
/// takes.
pub proof fn law_exact_deals_complete(ranges: Seq<Seq<[Card; 2]>>, board: Seq<Card>, d: Seq<[Card; 2]>)
    requires
        deal_from_ranges(ranges, d),
        deal_disjoint(board, d),
    ensures
        exact_deals(ranges, board, Seq::empty(), 0).contains(d),
{
    assert(d.take(0) =~= Seq::<[Card; 2]>::empty());
    if 0 < ranges.len() {
        assert(ranges[0].contains(d[0]));
        let m = choose|m: int| 0 <= m < ranges[0].len() && ranges[0][m] == d[0];
        assert(ranges[0][m] == d[0]);
    }
    lemma_exact_deals_complete(ranges, board, Seq::empty(), 0, d);
}

} // verus!
