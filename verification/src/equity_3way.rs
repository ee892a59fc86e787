use vstd::prelude::*;

use crate::card::{card_text_unreadable, group_card, spec_parse_card, Card};
use crate::hand_evaluator::{evaluate_hand, HandRank};
use crate::rng::{lcg_next, Rng};
use crate::showdown::{
    accumulate_showdown, available_cards, best7, distinct_cards, lemma_best7, empty_tally, evaluate_seven,
    has_duplicates, lemma_empty_conserved, lemma_live_count, lemma_showdown_conserves, pots_conserved, live_cards, showdown_values, spec_showdown, tally_bounded,
    tally_wf, Tally, TallyView,
};

verus! {

broadcast use group_card;

/// Seed of the chip-share sampler.
pub const SHARES_SEED: u64 = 0xC3A5_9B17_F4D2_81E9;

/// Seed of the finishing-place and prize samplers.
pub const PLACES_SEED: u64 = 0x91D3_E70A_22BC_44F1;

/// The hash after one more card: its rank, then its suit, each folded in
/// as `h * 53 + x` modulo 2^64.
pub open spec fn hash_step(h: u64, c: Card) -> u64 {
    let h1 = vstd::wrapping::u64_specs::wrapping_add(
        vstd::wrapping::u64_specs::wrapping_mul(h, 53),
        c.rank_of() as u64,
    );
    vstd::wrapping::u64_specs::wrapping_add(
        vstd::wrapping::u64_specs::wrapping_mul(h1, 53),
        c.suit_of() as u64,
    )
}

/// The hash of cards, folded in order from 0.
pub open spec fn spec_hash(cards: Seq<Card>) -> u64
    decreases cards.len(),
{
    if cards.len() == 0 {
        0
    } else {
        hash_step(spec_hash(cards.drop_last()), cards.last())
    }
}

/// A hash of six cards, which seeds the sampler of a showdown.
pub fn hash_six(cards: [Card; 6]) -> (h: u64)
    ensures
        h == spec_hash(cards@),
{
    let mut hash: u64 = 0;
    let mut i: usize = 0;
    assert(cards@.take(0) =~= Seq::<Card>::empty());
    while i < 6
        invariant
            i <= 6,
            hash == spec_hash(cards@.take(i as int)),
        decreases 6 - i,
    {
        let card = cards[i];
        assert(cards@.take(i + 1).drop_last() =~= cards@.take(i as int));
        hash = hash.wrapping_mul(53).wrapping_add(card.rank() as u64);
        hash = hash.wrapping_mul(53).wrapping_add(card.suit() as u64);
        i += 1;
    }
    assert(cards@.take(6) =~= cards@);
    hash
}

/// Whether some card of the three holdings occurs twice.
pub fn has_duplicate(cards: &[Card; 6]) -> (b: bool)
    ensures
        b == !distinct_cards(cards@),
{
    has_duplicates(cards.as_slice())
}

/// `s` with the entries at `i` and `j` exchanged.
pub open spec fn swap_at(s: Seq<usize>, i: int, j: int) -> Seq<usize> {
    s.update(i, s[j]).update(j, s[i])
}

/// The order after filling slots `slot` to 4 in turn, each with a position
/// drawn from those not yet placed: the state and the order that follow.
pub open spec fn shuffle_front(order: Seq<usize>, state: u64, slot: nat) -> (Seq<usize>, u64)
    decreases 5 - slot,
{
    if slot >= 5 {
        (order, state)
    } else {
        let next = lcg_next(state);
        let pick = (next as usize) as int % (order.len() - slot) + slot;
        shuffle_front(swap_at(order, slot as int, pick), next, slot + 1)
    }
}

/// The five cards that the first five positions of the order name.
pub open spec fn board_of(live: Seq<Card>, order: Seq<usize>) -> Seq<Card> {
    Seq::new(5, |k: int| live[order[k] as int])
}

/// The order in which the live cards start: each at its own position.
pub open spec fn identity_order(n: nat) -> Seq<usize> {
    Seq::new(n, |i: int| i as usize)
}

/// Deals random boards from the cards that three holdings leave.
pub struct BoardSampler {
    available: Vec<Card>,
    indices: Vec<usize>,
    rng: Rng,
}

impl BoardSampler {
    /// At least five live cards, and an order that names each by position.
    pub closed spec fn wf(self) -> bool {
        &&& self.available.len() >= 5
        &&& self.indices.len() == self.available.len()
        &&& forall|i: int| 0 <= i < self.indices.len() ==> #[trigger] self.indices@[i] < self.available.len()
    }

    /// The cards boards are dealt from, in deck order.
    pub closed spec fn live(self) -> Seq<Card> {
        self.available@
    }

    /// The current order of the live cards' positions.
    pub closed spec fn order(self) -> Seq<usize> {
        self.indices@
    }

    /// The generator's state.
    pub closed spec fn state(self) -> u64 {
        self.rng.state_of()
    }

    /// A sampler for the cards that the six dead cards leave, seeded with
    /// `seed` mixed with their hash and made odd.
    pub fn new(dead: [Card; 6], seed: u64) -> (s: BoardSampler)
        requires
            distinct_cards(dead@),
        ensures
            s.wf(),
            s.live() == live_cards(dead@, 52),
            s.order() == identity_order(s.live().len()),
            s.state() == (seed ^ spec_hash(dead@)) | 1,
    {
        let mut list: Vec<Card> = Vec::new();
        let mut k: usize = 0;
        while k < 6
            invariant
                k <= 6,
                list@ == dead@.take(k as int),
            decreases 6 - k,
        {
            list.push(dead[k]);
            k += 1;
            assert(list@ =~= dead@.take(k as int));
        }
        assert(dead@.take(6) =~= dead@);
        let available = available_cards(&list);
        proof {
            lemma_live_count(dead@);
        }
        let n = available.len();
        let mut indices: Vec<usize> = Vec::new();
        let mut i: usize = 0;
        while i < n
            invariant
                i <= n,
                indices@ =~= identity_order(i as nat),
            decreases n - i,
        {
            indices.push(i);
            i += 1;
        }
        let rng = Rng::new((seed ^ hash_six(dead)) | 1);
        BoardSampler { available, indices, rng }
    }

    /// Deals the next board: each of the first five slots in turn takes a
    /// position drawn from those not yet placed, and the board is the
    /// cards at those five positions.
    pub fn next_board(&mut self) -> (board: [Card; 5])
        requires
            old(self).wf(),
        ensures
            final(self).wf(),
            final(self).live() == old(self).live(),
            (final(self).order(), final(self).state()) == shuffle_front(old(self).order(), old(self).state(), 0),
            board@ == board_of(final(self).live(), final(self).order()),
    {
        let n = self.available.len();
        let mut slot: usize = 0;
        let ghost start = (self.indices@, self.rng.state_of());
        let ghost start_live = self.available@;
        while slot < 5
            invariant
                slot <= 5,
                self.available@ == start_live,
                n == self.available.len() == self.indices.len(),
                n >= 5,
                forall|i: int| 0 <= i < self.indices.len() ==> #[trigger] self.indices@[i] < n,
                shuffle_front(self.indices@, self.rng.state_of(), slot as nat) == shuffle_front(start.0, start.1, 0),
            decreases 5 - slot,
        {
            let remaining = n - slot;
            let pick = self.rng.gen_range(remaining) + slot;
            let a = self.indices[slot];
            let b = self.indices[pick];
            let ghost before = self.indices@;
            assert(a < n && b < n);
            self.indices[slot] = b;
            assert(forall|i: int| 0 <= i < self.indices.len() ==> #[trigger] self.indices@[i] < n);
            self.indices[pick] = a;
            assert(forall|i: int| 0 <= i < self.indices.len() ==> #[trigger] self.indices@[i] < n);
            assert(self.indices@ =~= swap_at(before, slot as int, pick as int));
            slot += 1;
        }
        [
            self.available[self.indices[0]],
            self.available[self.indices[1]],
            self.available[self.indices[2]],
            self.available[self.indices[3]],
            self.available[self.indices[4]],
        ]
    }
}

/// The value of each holding after each of `count` boards dealt in turn,
/// counted into `t`.
pub open spec fn sampled_tally(
    t: TallyView,
    hands: Seq<[Card; 2]>,
    live: Seq<Card>,
    order: Seq<usize>,
    state: u64,
    count: nat,
) -> TallyView
    decreases count,
{
    if count == 0 {
        t
    } else {
        let (o, s) = shuffle_front(order, state, 0);
        sampled_tally(
            spec_showdown(t, showdown_values(hands, board_of(live, o))),
            hands,
            live,
            o,
            s,
            (count - 1) as nat,
        )
    }
}

/// Showdown counts of three holdings over `iterations` boards dealt by the
/// chip-share sampler, or `None` when two holdings share a card.
pub open spec fn spec_shares_tally(hands: Seq<[Card; 2]>, iterations: nat) -> Option<TallyView> {
    let dead = seq![hands[0][0], hands[0][1], hands[1][0], hands[1][1], hands[2][0], hands[2][1]];
    if !distinct_cards(dead) {
        None
    } else {
        let live = live_cards(dead, 52);
        Some(
            sampled_tally(
                empty_tally(3),
                hands,
                live,
                identity_order(live.len()),
                (SHARES_SEED ^ spec_hash(dead)) | 1,
                iterations,
            ),
        )
    }
}

/// Counts how the showdowns of three holdings end over `iterations` random
/// boards: alone, split two ways or three ways, or lost. `None` when two
/// holdings share a card.
pub fn shares_tally(hand1: [Card; 2], hand2: [Card; 2], hand3: [Card; 2], iterations: u64) -> (r:
    Option<Tally>)
    ensures
        match r {
            Some(t) => spec_shares_tally(seq![hand1, hand2, hand3], iterations as nat) == Some(t@),
            None => spec_shares_tally(seq![hand1, hand2, hand3], iterations as nat) is None,
        },
{
    let dead = [hand1[0], hand1[1], hand2[0], hand2[1], hand3[0], hand3[1]];
    let ghost hands = seq![hand1, hand2, hand3];
    assert(dead@ =~= seq![hands[0][0], hands[0][1], hands[1][0], hands[1][1], hands[2][0], hands[2][1]]);
    if has_duplicate(&dead) {
        return None;
    }
    let mut sampler = BoardSampler::new(dead, SHARES_SEED);
    let mut holdings: Vec<[Card; 2]> = Vec::new();
    holdings.push(hand1);
    holdings.push(hand2);
    holdings.push(hand3);
    assert(holdings@ =~= hands);
    let mut totals = Tally::new(3);
    let ghost live = sampler.live();
    let ghost goal = sampled_tally(totals@, hands, live, sampler.order(), sampler.state(), iterations as nat);
    proof {
        assert(tally_bounded(empty_tally(3)));
    }
    let mut done: u64 = 0;
    while done < iterations
        invariant
            done <= iterations,
            hands == seq![hand1, hand2, hand3],
            holdings@ == hands,
            sampler.live() == live,
            sampler.wf(),
            tally_wf(totals@, 3),
            tally_bounded(totals@),
            totals@.showdowns == done,
            sampled_tally(totals@, hands, live, sampler.order(), sampler.state(), (iterations - done) as nat)
                == goal,
        decreases iterations - done,
    {
        let board = sampler.next_board();
        let r1 = evaluate_seven(hand1, &board);
        let r2 = evaluate_seven(hand2, &board);
        let r3 = evaluate_seven(hand3, &board);
        let mut ranks: Vec<HandRank> = Vec::new();
        ranks.push(r1);
        ranks.push(r2);
        ranks.push(r3);
        assert(ranks@ =~= seq![r1, r2, r3]);
        assert(hands[0] == hand1 && hands[1] == hand2 && hands[2] == hand3);
        assert(crate::showdown::rank_values(ranks@)[0] == r1.spec_value());
        assert(crate::showdown::rank_values(ranks@)[1] == r2.spec_value());
        assert(crate::showdown::rank_values(ranks@)[2] == r3.spec_value());
        assert(crate::showdown::rank_values(ranks@) =~= showdown_values(hands, board@));
        accumulate_showdown(&ranks, &mut totals);
        done += 1;
    }
    Some(totals)
}

/// How many of the three ranks beat that of `player`, and how many equal
/// it (the player included).
pub open spec fn spec_place_of(values: Seq<nat>, player: int) -> (nat, nat) {
    let v = values[player];
    (
        ((if values[0] > v { 1nat } else { 0nat }) + (if values[1] > v { 1nat } else { 0nat }) + (
        if values[2] > v { 1nat } else { 0nat })) as nat,
        ((if values[0] == v { 1nat } else { 0nat }) + (if values[1] == v { 1nat } else { 0nat }) + (
        if values[2] == v { 1nat } else { 0nat })) as nat,
    )
}

/// Where a player finishes among three: how many ranks beat theirs and how
/// many tie with it, the player included.
pub fn place_of(ranks: [HandRank; 3], player: usize) -> (r: (usize, usize))
    requires
        player < 3,
    ensures
        (r.0 as nat, r.1 as nat) == spec_place_of(
            seq![ranks[0].spec_value(), ranks[1].spec_value(), ranks[2].spec_value()],
            player as int,
        ),
        1 <= r.1,
        r.0 + r.1 <= 3,
{
    let v = ranks[player].value();
    let mut better: usize = 0;
    let mut tied: usize = 0;
    let mut i: usize = 0;
    while i < 3
        invariant
            i <= 3,
            player < 3,
            v == ranks[player as int].spec_value(),
            better as nat == (if i > 0 && ranks[0].spec_value() > v { 1nat } else { 0nat }) + (if i
                > 1 && ranks[1].spec_value() > v { 1nat } else { 0nat }) + (if i > 2 && ranks[2].spec_value()
                > v { 1nat } else { 0nat }),
            tied as nat == (if i > 0 && ranks[0].spec_value() == v { 1nat } else { 0nat }) + (if i > 1
                && ranks[1].spec_value() == v { 1nat } else { 0nat }) + (if i > 2 && ranks[2].spec_value()
                == v { 1nat } else { 0nat }),
        decreases 3 - i,
    {
        let w = ranks[i].value();
        if w > v {
            better += 1;
        } else if w == v {
            tied += 1;
        }
        i += 1;
    }
    (better, tied)
}

/// The cards that seven card texts name, when each reads as a card.
pub open spec fn parsed_seven(cards: [&str; 7]) -> Seq<Card> {
    Seq::new(7, |i: int| spec_parse_card(cards[i]@)->Ok_0)
}

/// The rank of seven cards given as text, such as `"Ah"`; each text must
/// name a card.
pub fn dummy_rank(cards: [&str; 7]) -> (r: HandRank)
    requires
        forall|i: int| 0 <= i < 7 ==> !card_text_unreadable(#[trigger] cards[i]@) && spec_parse_card(
            cards[i]@,
        ) is Ok,
    ensures
        r.spec_value() == best7(parsed_seven(cards)),
{
    let filler = Card::new(2, 0);
    let mut parsed: [Card; 7] = [filler, filler, filler, filler, filler, filler, filler];
    let mut i: usize = 0;
    while i < 7
        invariant
            i <= 7,
            forall|j: int| 0 <= j < 7 ==> !card_text_unreadable(#[trigger] cards[j]@) && spec_parse_card(
                cards[j]@,
            ) is Ok,
            forall|j: int| 0 <= j < i ==> parsed[j] == #[trigger] parsed_seven(cards)[j],
        decreases 7 - i,
    {
        let text = cards[i];
        assert(!card_text_unreadable(cards[i as int]@));
        let card = match Card::parse(text) {
            Ok(c) => c,
            Err(_) => filler,
        };
        parsed[i] = card;
        i += 1;
    }
    assert(parsed@ =~= parsed_seven(cards));
    let r = evaluate_hand(&parsed);
    proof {
        lemma_best7(parsed@, r.spec_value());
    }
    r
}

proof fn lemma_sampled_conserves(
    t: TallyView,
    hands: Seq<[Card; 2]>,
    live: Seq<Card>,
    order: Seq<usize>,
    state: u64,
    count: nat,
)
    requires
        pots_conserved(t, hands.len()),
        hands.len() >= 1,
    ensures
        pots_conserved(sampled_tally(t, hands, live, order, state, count), hands.len()),
    decreases count,
{
    if count > 0 {
        let (o, s) = shuffle_front(order, state, 0);
        let next = spec_showdown(t, showdown_values(hands, board_of(live, o)));
        lemma_showdown_conserves(t, showdown_values(hands, board_of(live, o)), hands.len());
        lemma_sampled_conserves(next, hands, live, o, s, (count - 1) as nat);
    }
}

/// Every sampled three-way showdown hands out exactly one pot: the chip
/// shares of the three players add up to one.
pub proof fn law_shares_conserve_pots(hands: Seq<[Card; 2]>, iterations: nat)
    requires
        hands.len() == 3,
    ensures
        spec_shares_tally(hands, iterations) matches Some(t) ==> pots_conserved(t, 3),
{
    let dead = seq![hands[0][0], hands[0][1], hands[1][0], hands[1][1], hands[2][0], hands[2][1]];
    if distinct_cards(dead) {
        let live = live_cards(dead, 52);
        lemma_empty_conserved(3);
        lemma_sampled_conserves(
            empty_tally(3),
            hands,
            live,
            identity_order(live.len()),
            (SHARES_SEED ^ spec_hash(dead)) | 1,
            iterations,
        );
    }
}

/// How a three-way showdown ends for the big blind: 1 when BB has the best
/// hand alone, 2 when SB beats BB who beats BTN, 3 when SB beats BTN who
/// beats BB, 4 when BTN has the best hand alone, 0 otherwise.
pub open spec fn spec_bb_scenario(btn: nat, sb: nat, bb: nat) -> u8 {
    if bb > sb && bb > btn {
        1
    } else if sb > bb && bb > btn {
        2
    } else if sb > btn && btn > bb {
        3
    } else if btn > sb && btn > bb {
        4
    } else {
        0
    }
}

/// Classifies a three-way showdown from the big blind's point of view.
pub fn classify_bb_scenario(r_btn: HandRank, r_sb: HandRank, r_bb: HandRank) -> (s: u8)
    ensures
        s == spec_bb_scenario(r_btn.spec_value(), r_sb.spec_value(), r_bb.spec_value()),
{
    let btn = r_btn.value();
    let sb = r_sb.value();
    let bb = r_bb.value();
    if bb > sb && bb > btn {
        1
    } else if sb > bb && bb > btn {
        2
    } else if sb > btn && btn > bb {
        3
    } else if btn > sb && btn > bb {
        4
    } else {
        0
    }
}

} // verus!
