use vstd::prelude::*;

use crate::card::{group_card, Card};
use crate::equity::HandRange;
use crate::equity_3way::{identity_order, spec_hash, swap_at};
use crate::hand_evaluator::HandRank;
use crate::rng::{lcg_next, Rng};
use crate::showdown::{
    accumulate_showdown, available_cards, blocked, dead_cards, deal_disjoint, deal_from_ranges,
    distinct_cards, empty_tally, lemma_extend_disjoint,
    best7, evaluate_seven, lemma_empty_conserved, lemma_live_count, lemma_showdown_conserves,
    pots_conserved, live_cards, rank_values, seven_of, ranges_view, showdown_values, spec_showdown,
    tally_bounded, tally_wf, Tally, TallyView,
};

verus! {

broadcast use group_card;

/// Seed of the equity sampler.
pub const MONTE_CARLO_SEED: u64 = 0x9E37_79B9_7F4A_7C15;

/// The holdings of the range that share no card with the dead cards, in
/// order.
pub open spec fn candidates(range: Seq<[Card; 2]>, dead: Seq<Card>) -> Seq<[Card; 2]>
    decreases range.len(),
{
    if range.len() == 0 {
        Seq::empty()
    } else {
        let rest = candidates(range.drop_last(), dead);
        if blocked(dead, range.last()) {
            rest
        } else {
            rest.push(range.last())
        }
    }
}

/// Deals a holding to each player from `i` on, each drawn by the generator
/// among the holdings of the player's range that no earlier card blocks:
/// the holdings (none when a player has no such holding) and the state that
/// follows.
pub open spec fn deal_from(
    ranges: Seq<Seq<[Card; 2]>>,
    board: Seq<Card>,
    i: int,
    hands: Seq<[Card; 2]>,
    state: u64,
) -> (Option<Seq<[Card; 2]>>, u64)
    decreases ranges.len() - i,
{
    if i < 0 || i >= ranges.len() {
        (Some(hands), state)
    } else {
        let c = candidates(ranges[i], dead_cards(board, hands));
        if ranges[i].len() == 0 || c.len() == 0 {
            (None, state)
        } else {
            let next = lcg_next(state);
            let h = c[(next as usize) as int % (c.len() as int)];
            deal_from(ranges, board, i + 1, hands.push(h), next)
        }
    }
}

/// Draws `count - slot` more cards: each time a position among those not
/// yet drawn is moved to the end of the undrawn part and its card taken.
pub open spec fn partial_shuffle(
    avail: Seq<Card>,
    order: Seq<usize>,
    state: u64,
    count: nat,
    slot: nat,
    out: Seq<Card>,
) -> (Seq<Card>, u64)
    decreases count - slot,
{
    if slot >= count {
        (out, state)
    } else {
        let next = lcg_next(state);
        let pick = (next as usize) as int % (order.len() - slot);
        let chosen = order.len() - slot - 1;
        let o = swap_at(order, pick, chosen);
        partial_shuffle(avail, o, next, count, slot + 1, out.push(avail[o[chosen] as int]))
    }
}

/// One round of sampling: deal holdings, then complete the board from the
/// live cards, and count the showdown. Rounds that cannot be dealt count
/// nothing.
pub open spec fn mc_round(t: TallyView, ranges: Seq<Seq<[Card; 2]>>, board: Seq<Card>, state: u64) -> (
    TallyView,
    u64,
) {
    let (dealt, s1) = deal_from(ranges, board, 0, Seq::empty(), state);
    match dealt {
        None => (t, s1),
        Some(hands) => {
            let avail = live_cards(dead_cards(board, hands), 52);
            let missing = 5 - board.len();
            if avail.len() < missing {
                (t, s1)
            } else {
                let (extra, s2) = partial_shuffle(
                    avail,
                    identity_order(avail.len()),
                    s1,
                    missing as nat,
                    0,
                    Seq::empty(),
                );
                (spec_showdown(t, showdown_values(hands, board + extra)), s2)
            }
        },
    }
}

/// `count` rounds of sampling in turn.
pub open spec fn mc_rounds(
    t: TallyView,
    ranges: Seq<Seq<[Card; 2]>>,
    board: Seq<Card>,
    state: u64,
    count: nat,
) -> TallyView
    decreases count,
{
    if count == 0 {
        t
    } else {
        let (t1, s1) = mc_round(t, ranges, board, state);
        mc_rounds(t1, ranges, board, s1, (count - 1) as nat)
    }
}

/// Showdown counts over `iterations` sampled deals and boards, from the
/// fixed seed; nothing is counted without ranges.
pub open spec fn spec_monte_carlo_tally(ranges: Seq<Seq<[Card; 2]>>, board: Seq<Card>, iterations: nat) -> TallyView {
    if ranges.len() == 0 {
        empty_tally(0)
    } else {
        mc_rounds(empty_tally(ranges.len()), ranges, board, MONTE_CARLO_SEED, iterations)
    }
}

/// Deals one holding per range, each drawn among the holdings that share no
/// card with the board or an earlier holding; `None` when a player has no
/// such holding.
fn sample_assignment(ranges: &[HandRange], board: &[Card], rng: &mut Rng) -> (r: Option<Vec<[Card; 2]>>)
    ensures
        deal_from(ranges_view(ranges@), board@, 0, Seq::empty(), old(rng).state_of()) == (match r {
            Some(h) => Some(h@),
            None => None::<Seq<[Card; 2]>>,
        }, final(rng).state_of()),
{
    let ghost rv = ranges_view(ranges@);
    let ghost goal = deal_from(rv, board@, 0, Seq::empty(), rng.state_of());
    let mut hands: Vec<[Card; 2]> = Vec::new();
    let mut dead: Vec<Card> = Vec::new();
    let mut b: usize = 0;
    while b < board.len()
        invariant
            b <= board.len(),
            dead@ == board@.take(b as int),
        decreases board.len() - b,
    {
        dead.push(board[b]);
        b += 1;
        assert(dead@ =~= board@.take(b as int));
    }
    assert(board@.take(b as int) =~= board@);
    assert(hands@ =~= Seq::<[Card; 2]>::empty());
    let mut i: usize = 0;
    while i < ranges.len()
        invariant
            i <= ranges.len(),
            rv == ranges_view(ranges@),
            goal == deal_from(rv, board@, 0, Seq::empty(), old(rng).state_of()),
            hands.len() == i,
            dead@ == dead_cards(board@, hands@),
            deal_from(rv, board@, i as int, hands@, rng.state_of()) == goal,
        decreases ranges.len() - i,
    {
        let range = &ranges[i];
        assert(range@ == rv[i as int]);
        if range.len() == 0 {
            return None;
        }
        let mut cands: Vec<[Card; 2]> = Vec::new();
        let mut j: usize = 0;
        assert(range@.take(0) =~= Seq::<[Card; 2]>::empty());
        while j < range.len()
            invariant
                j <= range.len(),
                cands@ == candidates(range@.take(j as int), dead@),
            decreases range.len() - j,
        {
            let hand = range[j];
            assert(range@.take(j + 1).drop_last() =~= range@.take(j as int));
            let mut hit = false;
            let mut k: usize = 0;
            while k < dead.len()
                invariant
                    k <= dead.len(),
                    hit == exists|m: int| 0 <= m < k && (dead@[m] == hand[0] || dead@[m] == hand[1]),
                decreases dead.len() - k,
            {
                if dead[k] == hand[0] || dead[k] == hand[1] {
                    hit = true;
                }
                k += 1;
            }
            proof {
                if blocked(dead@, hand) {
                    if dead@.contains(hand[0]) {
                        let m = choose|m: int| 0 <= m < dead.len() && dead@[m] == hand[0];
                        assert(dead@[m] == hand[0]);
                    } else {
                        let m = choose|m: int| 0 <= m < dead.len() && dead@[m] == hand[1];
                        assert(dead@[m] == hand[1]);
                    }
                }
                if hit {
                    let m = choose|m: int| 0 <= m < k && (dead@[m] == hand[0] || dead@[m] == hand[1]);
                    assert(dead@[m] == dead@[m]);
                }
                assert(hit == blocked(dead@, hand));
            }
            if !hit {
                cands.push(hand);
            }
            j += 1;
        }
        assert(range@.take(j as int) =~= range@);
        if cands.len() == 0 {
            return None;
        }
        let pick = rng.gen_range(cands.len());
        let hand = cands[pick];
        let ghost before = hands@;
        dead.push(hand[0]);
        dead.push(hand[1]);
        hands.push(hand);
        assert(hands@.drop_last() =~= before);
        i += 1;
    }
    Some(hands)
}

/// Draws `count` cards of `available`: each time a position not yet drawn
/// is moved to the end of the undrawn part and its card taken.
fn sample_partial_shuffle(available: &Vec<Card>, count: usize, rng: &mut Rng) -> (out: Vec<Card>)
    requires
        count <= available.len(),
    ensures
        (out@, final(rng).state_of()) == partial_shuffle(
            available@,
            identity_order(available.len() as nat),
            old(rng).state_of(),
            count as nat,
            0,
            Seq::empty(),
        ),
{
    let n = available.len();
    let mut indices: Vec<usize> = Vec::new();
    let mut i: usize = 0;
    while i < n
        invariant
            i <= n,
            indices@ =~= identity_order(i as nat),
        decreases n - i,
    {
        indices.push(i);
        i += 1;
    }
    let ghost goal = partial_shuffle(available@, indices@, rng.state_of(), count as nat, 0, Seq::empty());
    let mut out: Vec<Card> = Vec::new();
    let mut slot: usize = 0;
    while slot < count
        invariant
            slot <= count <= n == available.len() == indices.len(),
            forall|k: int| 0 <= k < indices.len() ==> #[trigger] indices@[k] < n,
            partial_shuffle(available@, indices@, rng.state_of(), count as nat, slot as nat, out@) == goal,
        decreases count - slot,
    {
        let remaining = n - slot;
        let pick = rng.gen_range(remaining);
        let chosen = n - slot - 1;
        let a = indices[pick];
        let c = indices[chosen];
        let ghost before = indices@;
        indices.set(pick, c);
        indices.set(chosen, a);
        assert(indices@ =~= swap_at(before, pick as int, chosen as int));
        out.push(available[indices[chosen]]);
        slot += 1;
    }
    out
}

/// Counts how each player's showdowns end over `iterations` sampled rounds:
/// each round deals one holding per range and completes the board from the
/// live cards, skipping rounds that cannot be dealt. Nothing is counted
/// without ranges.
pub fn monte_carlo_tally(ranges: &[HandRange], board: &[Card], iterations: u64) -> (t: Tally)
    requires
        ranges.len() < usize::MAX,
        board.len() <= 5,
        distinct_cards(board@),
    ensures
        t@ == spec_monte_carlo_tally(ranges_view(ranges@), board@, iterations as nat),
{
    if ranges.len() == 0 {
        return Tally::new(0);
    }
    let ghost rv = ranges_view(ranges@);
    let mut totals = Tally::new(ranges.len());
    let mut rng = Rng::new(MONTE_CARLO_SEED);
    let ghost goal = mc_rounds(totals@, rv, board@, rng.state_of(), iterations as nat);
    proof {
        assert(tally_bounded(empty_tally(ranges.len() as nat)));
    }
    let mut done: u64 = 0;
    while done < iterations
        invariant
            done <= iterations,
            1 <= ranges.len() < usize::MAX,
            board.len() <= 5,
            rv == ranges_view(ranges@),
            tally_wf(totals@, ranges.len() as nat),
            tally_bounded(totals@),
            totals@.showdowns <= done,
            mc_rounds(totals@, rv, board@, rng.state_of(), (iterations - done) as nat) == goal,
        decreases iterations - done,
    {
        let ghost t0 = totals@;
        let ghost s0 = rng.state_of();
        let dealt = sample_assignment(ranges, board, &mut rng);
        if let Some(hands) = dealt {
            assert(hands.len() == ranges.len()) by {
                lemma_deal_len(rv, board@, 0, Seq::empty(), s0);
            }
            let dead = crate::showdown::collect_dead(board, &hands);
            let available = available_cards(&dead);
            let missing = 5 - board.len();
            if available.len() >= missing {
                let ghost s1 = rng.state_of();
                let extra = sample_partial_shuffle(&available, missing, &mut rng);
                proof {
                    lemma_shuffle_len(available@, identity_order(available.len() as nat), s1, missing as nat, 0, Seq::empty());
                }
                let filler = board_filler();
                let mut full: [Card; 5] = [filler, filler, filler, filler, filler];
                let mut k: usize = 0;
                while k < 5
                    invariant
                        k <= 5,
                        board.len() <= 5,
                        extra.len() == 5 - board.len(),
                        full@.take(k as int) == (board@ + extra@).take(k as int),
                    decreases 5 - k,
                {
                    if k < board.len() {
                        full[k] = board[k];
                    } else {
                        full[k] = extra[k - board.len()];
                    }
                    k += 1;
                    assert(full@.take(k as int) =~= (board@ + extra@).take(k as int));
                }
                assert((board@ + extra@).len() == 5);
                assert(full@.take(5) =~= full@);
                assert((board@ + extra@).take(5) =~= board@ + extra@);
                assert(full@ =~= board@ + extra@);
                let mut ranks: Vec<HandRank> = Vec::new();
                let mut p: usize = 0;
                while p < hands.len()
                    invariant
                        p <= hands.len(),
                        ranks.len() == p,
                        forall|m: int| 0 <= m < p ==> #[trigger] ranks@[m].spec_value() == crate::showdown::best7(
                            crate::showdown::seven_of(hands@[m], full@),
                        ),
                    decreases hands.len() - p,
                {
                    ranks.push(evaluate_seven(hands[p], &full));
                    p += 1;
                }
                assert(rank_values(ranks@) =~= showdown_values(hands@, full@));
                accumulate_showdown(&ranks, &mut totals);
            }
        }
        assert((totals@, rng.state_of()) == mc_round(t0, rv, board@, s0));
        done += 1;
    }
    totals
}

/// The two of clubs, which fills board slots before they are dealt.
fn board_filler() -> (c: Card)
    ensures
        c == Card::spec_new(2, 0),
{
    Card::new(2, 0)
}

proof fn lemma_shuffle_len(
    avail: Seq<Card>,
    order: Seq<usize>,
    state: u64,
    count: nat,
    slot: nat,
    out: Seq<Card>,
)
    requires
        slot <= count,
    ensures
        partial_shuffle(avail, order, state, count, slot, out).0.len() == out.len() + count - slot,
    decreases count - slot,
{
    if slot < count {
        let next = lcg_next(state);
        let pick = (next as usize) as int % (order.len() - slot);
        let chosen = order.len() - slot - 1;
        let o = swap_at(order, pick, chosen);
        lemma_shuffle_len(avail, o, next, count, slot + 1, out.push(avail[o[chosen] as int]));
    }
}

proof fn lemma_deal_len(ranges: Seq<Seq<[Card; 2]>>, board: Seq<Card>, i: int, hands: Seq<[Card; 2]>, state: u64)
    requires
        0 <= i <= ranges.len(),
        hands.len() == i,
    ensures
        deal_from(ranges, board, i, hands, state).0 matches Some(h) ==> h.len() == ranges.len(),
    decreases ranges.len() - i,
{
    if i < ranges.len() {
        let c = candidates(ranges[i], dead_cards(board, hands));
        if !(ranges[i].len() == 0 || c.len() == 0) {
            let next = lcg_next(state);
            let h = c[(next as usize) as int % (c.len() as int)];
            lemma_deal_len(ranges, board, i + 1, hands.push(h), next);
        }
    }
}

/// Seed of the heads-up sampler of the equity table.
pub const HEADS_UP_SEED: u64 = 0xD1B5_4A32_D192_ED03;

/// A hash of the four cards of two holdings, which seeds their sampler.
pub fn hash_hand(hero: [Card; 2], villain: [Card; 2]) -> (h: u64)
    ensures
        h == spec_hash(seq![hero[0], hero[1], villain[0], villain[1]]),
{
    let cards = [hero[0], hero[1], villain[0], villain[1]];
    let ghost cs = seq![hero[0], hero[1], villain[0], villain[1]];
    assert(cards@ =~= cs);
    let mut hash: u64 = 0;
    let mut i: usize = 0;
    assert(cs.take(0) =~= Seq::<Card>::empty());
    while i < 4
        invariant
            i <= 4,
            cards@ == cs,
            hash == spec_hash(cs.take(i as int)),
        decreases 4 - i,
    {
        let card = cards[i];
        assert(cs.take(i + 1).drop_last() =~= cs.take(i as int));
        hash = hash.wrapping_mul(53).wrapping_add(card.rank() as u64);
        hash = hash.wrapping_mul(53).wrapping_add(card.suit() as u64);
        i += 1;
    }
    assert(cs.take(4) =~= cs);
    hash
}

/// Wins and ties of `hero` against `villain` over `count` boards, each
/// drawn afresh from the live cards.
pub open spec fn heads_up_counts(
    hero: [Card; 2],
    villain: [Card; 2],
    avail: Seq<Card>,
    state: u64,
    count: nat,
) -> (nat, nat)
    decreases count,
{
    if count == 0 {
        (0, 0)
    } else {
        let (board, next) = partial_shuffle(avail, identity_order(avail.len()), state, 5, 0, Seq::empty());
        let h = best7(seven_of(hero, board));
        let v = best7(seven_of(villain, board));
        let (w, t) = heads_up_counts(hero, villain, avail, next, (count - 1) as nat);
        ((w + if h > v { 1nat } else { 0nat }) as nat, (t + if h == v { 1nat } else { 0nat }) as nat)
    }
}

/// The cards that neither holding uses, in deck order.
pub open spec fn heads_up_live(hero: [Card; 2], villain: [Card; 2]) -> Seq<Card> {
    live_cards(seq![hero[0], hero[1], villain[0], villain[1]], 52)
}

/// Counts the boards on which `hero` beats `villain` and those on which they
/// tie, over `iterations` boards drawn from the cards neither holds.
pub fn heads_up_tally(hero: [Card; 2], villain: [Card; 2], iterations: u64) -> (r: (u64, u64))
    ensures
        (r.0 as nat, r.1 as nat) == heads_up_counts(
            hero,
            villain,
            heads_up_live(hero, villain),
            HEADS_UP_SEED ^ spec_hash(seq![hero[0], hero[1], villain[0], villain[1]]),
            iterations as nat,
        ),
{
    let mut dead: Vec<Card> = Vec::new();
    dead.push(hero[0]);
    dead.push(hero[1]);
    dead.push(villain[0]);
    dead.push(villain[1]);
    assert(dead@ =~= seq![hero[0], hero[1], villain[0], villain[1]]);
    let available = available_cards(&dead);
    proof {
        lemma_live_count(dead@);
    }
    let mut rng = Rng::new(HEADS_UP_SEED ^ hash_hand(hero, villain));
    let ghost goal = heads_up_counts(hero, villain, available@, rng.state_of(), iterations as nat);
    let mut wins: u64 = 0;
    let mut ties: u64 = 0;
    let mut done: u64 = 0;
    while done < iterations
        invariant
            done <= iterations,
            available.len() >= 48,
            wins + ties <= done,
            ({
                let rest = heads_up_counts(hero, villain, available@, rng.state_of(), (iterations - done) as nat);
                (wins + rest.0, ties + rest.1) == (goal.0 as int, goal.1 as int)
            }),
        decreases iterations - done,
    {
        let ghost before = rng.state_of();
        let drawn = sample_partial_shuffle(&available, 5, &mut rng);
        proof {
            lemma_shuffle_len(available@, identity_order(available.len() as nat), before, 5, 0, Seq::empty());
        }
        assert(drawn.len() == 5);
        let board: [Card; 5] = [drawn[0], drawn[1], drawn[2], drawn[3], drawn[4]];
        assert(board@ =~= drawn@);
        let hero_rank = evaluate_seven(hero, &board);
        let villain_rank = evaluate_seven(villain, &board);
        if hero_rank.value() > villain_rank.value() {
            wins += 1;
        } else if hero_rank.value() == villain_rank.value() {
            ties += 1;
        }
        done += 1;
    }
    (wins, ties)
}

proof fn lemma_rounds_conserve(
    t: TallyView,
    ranges: Seq<Seq<[Card; 2]>>,
    board: Seq<Card>,
    state: u64,
    count: nat,
)
    requires
        pots_conserved(t, ranges.len()),
        ranges.len() >= 1,
    ensures
        pots_conserved(mc_rounds(t, ranges, board, state, count), ranges.len()),
    decreases count,
{
    if count > 0 {
        let (t1, s1) = mc_round(t, ranges, board, state);
        let (dealt, s0) = deal_from(ranges, board, 0, Seq::empty(), state);
        if let Some(hands) = dealt {
            lemma_deal_len(ranges, board, 0, Seq::empty(), state);
            let avail = live_cards(dead_cards(board, hands), 52);
            let missing = 5 - board.len();
            if avail.len() >= missing {
                let (extra, s2) = partial_shuffle(
                    avail,
                    identity_order(avail.len()),
                    s0,
                    missing as nat,
                    0,
                    Seq::empty(),
                );
                lemma_showdown_conserves(t, showdown_values(hands, board + extra), ranges.len());
            }
        }
        lemma_rounds_conserve(t1, ranges, board, s1, (count - 1) as nat);
    }
}

/// Every sampled showdown hands out exactly one pot: the players' shares
/// of the pots add up to one.
pub proof fn law_monte_carlo_conserves_pots(ranges: Seq<Seq<[Card; 2]>>, board: Seq<Card>, iterations: nat)
    requires
        ranges.len() >= 1,
    ensures
        pots_conserved(spec_monte_carlo_tally(ranges, board, iterations), ranges.len()),
{
    lemma_empty_conserved(ranges.len());
    lemma_rounds_conserve(empty_tally(ranges.len()), ranges, board, MONTE_CARLO_SEED, iterations);
}

/// A small seed made from the ranks and suits of a holding.
pub fn card_seed(hand: [Card; 2]) -> (s: u64)
    ensures
        s == hand[0].rank_of() * 17 + hand[0].suit_of() * 5 + hand[1].rank_of() * 13
            + hand[1].suit_of(),
{
    hand[0].rank() as u64 * 17 + hand[0].suit() as u64 * 5 + hand[1].rank() as u64 * 13
        + hand[1].suit() as u64
}

/// Whether a holding uses one of the dead cards.
pub fn overlaps(dead: &[Card], hand: [Card; 2]) -> (b: bool)
    ensures
        b == (dead@.contains(hand[0]) || dead@.contains(hand[1])),
{
    let mut i: usize = 0;
    while i < dead.len()
        invariant
            i <= dead.len(),
            forall|k: int| 0 <= k < i ==> dead@[k] != hand[0] && dead@[k] != hand[1],
        decreases dead.len() - i,
    {
        if dead[i] == hand[0] || dead[i] == hand[1] {
            return true;
        }
        i += 1;
    }
    false
}

proof fn lemma_candidates_sound(range: Seq<[Card; 2]>, dead: Seq<Card>)
    ensures
        forall|k: int| 0 <= k < candidates(range, dead).len() ==> range.contains(
            #[trigger] candidates(range, dead)[k],
        ) && !blocked(dead, candidates(range, dead)[k]),
    decreases range.len(),
{
    if range.len() > 0 {
        let p = range.drop_last();
        lemma_candidates_sound(p, dead);
        let rest = candidates(p, dead);
        let c = candidates(range, dead);
        assert forall|k: int| 0 <= k < c.len() implies range.contains(#[trigger] c[k]) && !blocked(dead, c[k]) by {
            if k < rest.len() {
                assert(c[k] == rest[k]);
                let i = choose|i: int| 0 <= i < p.len() && p[i] == rest[k];
                assert(range[i] == p[i]);
            } else {
                assert(c[k] == range.last());
                assert(range[range.len() - 1] == range.last());
            }
        }
    }
}

proof fn lemma_deal_sound(ranges: Seq<Seq<[Card; 2]>>, board: Seq<Card>, i: int, hands: Seq<[Card; 2]>, state: u64)
    requires
        0 <= i <= ranges.len(),
        hands.len() == i,
        deal_disjoint(board, hands),
        forall|k: int| 0 <= k < hands.len() ==> ranges[k].contains(#[trigger] hands[k]),
    ensures
        deal_from(ranges, board, i, hands, state).0 matches Some(out) ==> deal_from_ranges(ranges, out)
            && deal_disjoint(board, out),
    decreases ranges.len() - i,
{
    if i < ranges.len() {
        let c = candidates(ranges[i], dead_cards(board, hands));
        if !(ranges[i].len() == 0 || c.len() == 0) {
            let next = lcg_next(state);
            let h = c[(next as usize) as int % (c.len() as int)];
            lemma_candidates_sound(ranges[i], dead_cards(board, hands));
            lemma_extend_disjoint(board, hands, h);
            let hp = hands.push(h);
            assert forall|k: int| 0 <= k < hp.len() implies ranges[k].contains(#[trigger] hp[k]) by {
                if k < hands.len() {
                    assert(hp[k] == hands[k]);
                }
            }
            lemma_deal_sound(ranges, board, i + 1, hp, next);
        }
    }
}

/// Every deal the sampler draws gives each player a holding of that player's
/// range, and no two players, nor a player and the board, share a card: a
/// holding is only drawn among those that miss the board and both cards of
/// every earlier holding.
pub proof fn law_sampled_deal_disjoint(ranges: Seq<Seq<[Card; 2]>>, board: Seq<Card>, state: u64)
    ensures
        deal_from(ranges, board, 0, Seq::empty(), state).0 matches Some(hands) ==> deal_from_ranges(ranges, hands)
            && deal_disjoint(board, hands),
{
    lemma_deal_sound(ranges, board, 0, Seq::empty(), state);
}

} // verus!
