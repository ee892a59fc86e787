use vstd::prelude::*;

use crate::card::{group_card, valid_rank, Card};

verus! {

broadcast use group_card;

/// The value of a hand: the category in the bits from 52 up, then up to five
/// kickers of eight bits each, most significant first. A larger value is a
/// stronger hand.
#[derive(Debug, Clone, Copy, PartialEq, Eq, PartialOrd, Ord, Structural)]
pub struct HandRank(u64);

#[derive(Debug, Clone, Copy, PartialEq, Eq, Structural)]
pub enum HandCategory {
    HighCard,
    OnePair,
    TwoPair,
    ThreeOfAKind,
    Straight,
    Flush,
    FullHouse,
    FourOfAKind,
    StraightFlush,
}

/// The place of the category bits: `2^52`.
pub open spec fn category_unit() -> nat {
    4503599627370496
}

/// Code of a category, from 0 for a high card to 8 for a straight flush.
pub open spec fn category_code(c: HandCategory) -> nat {
    match c {
        HandCategory::HighCard => 0,
        HandCategory::OnePair => 1,
        HandCategory::TwoPair => 2,
        HandCategory::ThreeOfAKind => 3,
        HandCategory::Straight => 4,
        HandCategory::Flush => 5,
        HandCategory::FullHouse => 6,
        HandCategory::FourOfAKind => 7,
        HandCategory::StraightFlush => 8,
    }
}

/// The category of a hand value: its bits from 52 up.
pub open spec fn category_of_value(v: nat) -> HandCategory {
    let code = v / category_unit();
    if code == 0 { HandCategory::HighCard }
    else if code == 1 { HandCategory::OnePair }
    else if code == 2 { HandCategory::TwoPair }
    else if code == 3 { HandCategory::ThreeOfAKind }
    else if code == 4 { HandCategory::Straight }
    else if code == 5 { HandCategory::Flush }
    else if code == 6 { HandCategory::FullHouse }
    else if code == 7 { HandCategory::FourOfAKind }
    else { HandCategory::StraightFlush }
}

/// Weight of the kicker at position `i`: `256^(4 - i)`.
pub open spec fn kicker_weight(i: int) -> nat {
    if i == 0 { 4294967296 }
    else if i == 1 { 16777216 }
    else if i == 2 { 65536 }
    else if i == 3 { 256 }
    else { 1 }
}

/// The kicker part of a value: the first five kickers from position `i` on,
/// each in its byte.
pub open spec fn kicker_sum(ks: Seq<u8>, i: int) -> nat
    decreases 5 - i,
{
    if i < 0 || i >= 5 || i >= ks.len() {
        0
    } else {
        ks[i] as nat * kicker_weight(i) + kicker_sum(ks, i + 1)
    }
}

/// The value of a category code and a list of kickers.
pub open spec fn spec_encode(code: nat, ks: Seq<u8>) -> nat {
    code * category_unit() + kicker_sum(ks, 0)
}

/// How many of the cards have the rank.
pub open spec fn count_rank(cards: Seq<Card>, r: int) -> nat
    decreases cards.len(),
{
    if cards.len() == 0 {
        0
    } else {
        count_rank(cards.drop_last(), r) + if cards.last().rank_of() == r { 1nat } else { 0nat }
    }
}

/// The count of every rank code `0..15`.
pub open spec fn rank_counts(cards: Seq<Card>) -> Seq<nat> {
    Seq::new(15, |r: int| count_rank(cards, r))
}

/// Ranks from `r` down to 2 that occur exactly `c` times, highest first.
pub open spec fn ranks_with_count(cnt: Seq<nat>, c: nat, r: int) -> Seq<u8>
    decreases r,
{
    if r < 2 {
        Seq::empty()
    } else {
        (if cnt[r] == c { seq![r as u8] } else { Seq::empty() }) + ranks_with_count(cnt, c, r - 1)
    }
}

/// Ranks from `r` down to 2 that occur at all, highest first.
pub open spec fn distinct_ranks(cnt: Seq<nat>, r: int) -> Seq<u8>
    decreases r,
{
    if r < 2 {
        Seq::empty()
    } else {
        (if cnt[r] > 0 { seq![r as u8] } else { Seq::empty() }) + distinct_ranks(cnt, r - 1)
    }
}

/// Ranks from `r` down to 2, each as often as it occurs, highest first.
pub open spec fn desc_ranks(cnt: Seq<nat>, r: int) -> Seq<u8>
    decreases r,
{
    if r < 2 {
        Seq::empty()
    } else {
        Seq::new(cnt[r], |i: int| r as u8) + desc_ranks(cnt, r - 1)
    }
}

/// The ranks that occur, ordered by how often they occur and then by rank,
/// both descending: counts `c` down to 1.
pub open spec fn groups_from(cnt: Seq<nat>, c: nat) -> Seq<u8>
    decreases c,
{
    if c == 0 {
        Seq::empty()
    } else {
        ranks_with_count(cnt, c, 14) + groups_from(cnt, (c - 1) as nat)
    }
}

/// The rank at position `i` of a list, or 0 past its end.
pub open spec fn rank_at(g: Seq<u8>, i: int) -> u8 {
    if 0 <= i < g.len() {
        g[i]
    } else {
        0
    }
}

/// High card of the straight that five distinct ranks (highest first) make,
/// the wheel `A 5 4 3 2` counting as five high.
pub open spec fn straight_high(d: Seq<u8>) -> Option<u8> {
    if d.len() < 5 {
        None
    } else if d[0] - d[4] == 4 {
        Some(d[0])
    } else if d[0] == 14 && d[1] == 5 && d[2] == 4 && d[3] == 3 && d[4] == 2 {
        Some(5u8)
    } else {
        None
    }
}

/// Whether five cards all have one suit.
pub open spec fn flush5(c: Seq<Card>) -> bool {
    &&& c[0].suit_of() == c[1].suit_of()
    &&& c[1].suit_of() == c[2].suit_of()
    &&& c[2].suit_of() == c[3].suit_of()
    &&& c[3].suit_of() == c[4].suit_of()
}

/// The value of five cards.
pub open spec fn spec_rank5(c: Seq<Card>) -> nat {
    let cnt = rank_counts(c);
    let sorted = desc_ranks(cnt, 14);
    let flush = flush5(c);
    let sh = straight_high(distinct_ranks(cnt, 14));
    let g = groups_from(cnt, 5);
    if flush && sh is Some {
        spec_encode(8, seq![sh->0])
    } else if g.len() > 0 && cnt[g[0] as int] == 4 {
        spec_encode(7, seq![g[0], rank_at(g, 1)])
    } else if g.len() > 1 && cnt[g[0] as int] == 3 && cnt[g[1] as int] == 2 {
        spec_encode(6, seq![g[0], g[1]])
    } else if g.len() > 2 && cnt[g[0] as int] == 3 {
        spec_encode(3, seq![g[0], g[1], g[2]])
    } else if g.len() > 2 && cnt[g[0] as int] == 2 && cnt[g[1] as int] == 2 {
        spec_encode(2, seq![g[0], g[1], g[2]])
    } else if g.len() > 3 && cnt[g[0] as int] == 2 {
        spec_encode(1, seq![g[0], g[1], g[2], g[3]])
    } else if flush {
        spec_encode(5, sorted)
    } else if sh is Some {
        spec_encode(4, seq![sh->0])
    } else {
        spec_encode(0, sorted)
    }
}

/// The five of seven cards that remain when those at `i` and `j` (`i < j`)
/// are left out, in their order.
pub open spec fn remove_two(c: Seq<Card>, i: int, j: int) -> Seq<Card> {
    Seq::new(
        5,
        |k: int|
            if k < i {
                c[k]
            } else if k + 1 < j {
                c[k + 1]
            } else {
                c[k + 2]
            },
    )
}

/// `v` is the value of the best five of the seven cards: no choice of five is
/// worth more, and some choice is worth exactly `v`.
pub open spec fn is_best_of_seven(c: Seq<Card>, v: nat) -> bool {
    &&& forall|i: int, j: int|
        0 <= i < j < 7 ==> #[trigger] spec_rank5(remove_two(c, i, j)) <= v
    &&& exists|i: int, j: int| 0 <= i < j < 7 && v == #[trigger] spec_rank5(remove_two(c, i, j))
}

impl HandRank {
    #[verifier::type_invariant]
    spec fn within_range(self) -> bool {
        self.0 < 9 * category_unit()
    }

    pub closed spec fn spec_value(self) -> nat {
        self.0 as nat
    }

    pub fn category(self) -> (c: HandCategory)
        ensures
            c == category_of_value(self.spec_value()),
            category_code(c) == self.spec_value() / category_unit(),
    {
        proof {
            use_type_invariant(&self);
        }
        let v = self.0;
        assert(v >> 52u64 == v / 4503599627370496u64) by (bit_vector);
        match v >> 52 {
            0 => HandCategory::HighCard,
            1 => HandCategory::OnePair,
            2 => HandCategory::TwoPair,
            3 => HandCategory::ThreeOfAKind,
            4 => HandCategory::Straight,
            5 => HandCategory::Flush,
            6 => HandCategory::FullHouse,
            7 => HandCategory::FourOfAKind,
            _ => HandCategory::StraightFlush,
        }
    }

    pub fn value(self) -> (v: u64)
        ensures
            v == self.spec_value(),
    {
        self.0
    }
}

proof fn lemma_kicker_sum_bound(ks: Seq<u8>, i: int)
    requires
        0 <= i <= 5,
    ensures
        kicker_sum(ks, i) < 256 * kicker_weight(i) || (i == 5 && kicker_sum(ks, i) == 0),
        i == 0 ==> kicker_sum(ks, i) < 1099511627776,
    decreases 5 - i,
{
    if i < 5 && i < ks.len() {
        lemma_kicker_sum_bound(ks, i + 1);
    }
}

proof fn lemma_encode_category(code: nat, ks: Seq<u8>)
    ensures
        spec_encode(code, ks) / category_unit() == code,
        spec_encode(code, ks) < (code + 1) * category_unit(),
{
    lemma_kicker_sum_bound(ks, 0);
    let k = kicker_sum(ks, 0);
    assert(k < category_unit());
    vstd::arithmetic::div_mod::lemma_fundamental_div_mod_converse(
        (code * category_unit() + k) as int,
        category_unit() as int,
        code as int,
        k as int,
    );
}

fn encode(category: HandCategory, kickers: &Vec<u8>) -> (r: HandRank)
    ensures
        r.spec_value() == spec_encode(category_code(category), kickers@),
{
    let code: u64 = match category {
        HandCategory::HighCard => 0,
        HandCategory::OnePair => 1,
        HandCategory::TwoPair => 2,
        HandCategory::ThreeOfAKind => 3,
        HandCategory::Straight => 4,
        HandCategory::Flush => 5,
        HandCategory::FullHouse => 6,
        HandCategory::FourOfAKind => 7,
        HandCategory::StraightFlush => 8,
    };
    let mut sum: u64 = 0;
    let mut index: usize = 0;
    let n = if kickers.len() < 5 { kickers.len() } else { 5 };
    proof {
        lemma_kicker_sum_bound(kickers@, 0);
    }
    while index < n
        invariant
            n <= 5,
            n <= kickers.len(),
            n == 5 || n == kickers.len(),
            index <= n,
            sum + kicker_sum(kickers@, index as int) == kicker_sum(kickers@, 0),
            kicker_sum(kickers@, 0) < 1099511627776,
        decreases n - index,
    {
        let weight: u64 = if index == 0 {
            4294967296
        } else if index == 1 {
            16777216
        } else if index == 2 {
            65536
        } else if index == 3 {
            256
        } else {
            1
        };
        proof {
            lemma_kicker_sum_bound(kickers@, index as int + 1);
        }
        sum = sum + (kickers[index] as u64) * weight;
        index += 1;
    }
    proof {
        lemma_encode_category(code as nat, kickers@);
    }
    HandRank(code * 4503599627370496u64 + sum)
}

/// View of a count table as numbers.
pub open spec fn counts_view(counts: [u8; 15]) -> Seq<nat> {
    Seq::new(15, |r: int| counts[r] as nat)
}

fn count_ranks(cards: &[Card; 5]) -> (counts: [u8; 15])
    ensures
        counts_view(counts) == rank_counts(cards@),
        counts[0] == 0,
        counts[1] == 0,
{
    let mut counts = [0u8; 15];
    let mut i: usize = 0;
    while i < 5
        invariant
            i <= 5,
            forall|r: int| 0 <= r < 15 ==> #[trigger] counts[r] as nat == count_rank(cards@.take(i as int), r),
            forall|r: int| 0 <= r < 15 ==> #[trigger] counts[r] <= i,
            counts[0] == 0,
            counts[1] == 0,
        decreases 5 - i,
    {
        let r = cards[i].rank();
        assert(cards@.take(i + 1).drop_last() =~= cards@.take(i as int));
        counts[r as usize] = counts[r as usize] + 1;
        i += 1;
    }
    assert(cards@.take(5) =~= cards@);
    assert(counts_view(counts) =~= rank_counts(cards@));
    counts
}

fn desc_ranks_of(counts: &[u8; 15]) -> (v: Vec<u8>)
    ensures
        v@ == desc_ranks(counts_view(*counts), 14),
{
    let ghost cnt = counts_view(*counts);
    let mut v: Vec<u8> = Vec::new();
    let mut r: u8 = 14;
    while r >= 2
        invariant
            1 <= r <= 14,
            v@ + desc_ranks(cnt, r as int) == desc_ranks(cnt, 14),
            cnt == counts_view(*counts),
        decreases r,
    {
        let ghost before = v@;
        let c = counts[r as usize];
        let mut k: u8 = 0;
        while k < c
            invariant
                k <= c,
                c == counts[r as int],
                v@ == before + Seq::new(k as nat, |i: int| r as u8),
            decreases c - k,
        {
            v.push(r);
            k += 1;
            assert(v@ =~= before + Seq::new(k as nat, |i: int| r as u8));
        }
        assert(v@ + desc_ranks(cnt, r - 1) =~= before + desc_ranks(cnt, r as int));
        r -= 1;
    }
    assert(v@ + desc_ranks(cnt, 1) =~= v@);
    v
}

fn distinct_ranks_of(counts: &[u8; 15]) -> (v: Vec<u8>)
    ensures
        v@ == distinct_ranks(counts_view(*counts), 14),
{
    let ghost cnt = counts_view(*counts);
    let mut v: Vec<u8> = Vec::new();
    let mut r: u8 = 14;
    while r >= 2
        invariant
            1 <= r <= 14,
            v@ + distinct_ranks(cnt, r as int) == distinct_ranks(cnt, 14),
            cnt == counts_view(*counts),
        decreases r,
    {
        let ghost before = v@;
        if counts[r as usize] > 0 {
            v.push(r);
        }
        assert(v@ + distinct_ranks(cnt, r - 1) =~= before + distinct_ranks(cnt, r as int));
        r -= 1;
    }
    assert(v@ + distinct_ranks(cnt, 1) =~= v@);
    v
}

fn groups_of(counts: &[u8; 15]) -> (v: Vec<u8>)
    ensures
        v@ == groups_from(counts_view(*counts), 5),
{
    let ghost cnt = counts_view(*counts);
    let mut v: Vec<u8> = Vec::new();
    let mut c: u8 = 5;
    while c >= 1
        invariant
            c <= 5,
            v@ + groups_from(cnt, c as nat) == groups_from(cnt, 5),
            cnt == counts_view(*counts),
        decreases c,
    {
        let ghost outer = v@;
        let mut r: u8 = 14;
        while r >= 2
            invariant
                1 <= r <= 14,
                1 <= c <= 5,
                v@ + ranks_with_count(cnt, c as nat, r as int) == outer + ranks_with_count(cnt, c as nat, 14),
                cnt == counts_view(*counts),
            decreases r,
        {
            let ghost before = v@;
            if counts[r as usize] == c {
                v.push(r);
            }
            assert(v@ + ranks_with_count(cnt, c as nat, r - 1) =~= before + ranks_with_count(
                cnt,
                c as nat,
                r as int,
            ));
            r -= 1;
        }
        assert(v@ =~= v@ + ranks_with_count(cnt, c as nat, 1));
        assert(v@ + groups_from(cnt, (c - 1) as nat) =~= outer + groups_from(cnt, c as nat));
        c -= 1;
    }
    assert(v@ + groups_from(cnt, 0) =~= v@);
    v
}

fn straight_high_rank(distinct: &Vec<u8>) -> (r: Option<u8>)
    requires
        distinct.len() >= 5 ==> distinct[0] >= distinct[4],
    ensures
        r == straight_high(distinct@),
{
    if distinct.len() < 5 {
        return None;
    }
    if distinct[0] - distinct[4] == 4 {
        return Some(distinct[0]);
    }
    if distinct[0] == 14 && distinct[1] == 5 && distinct[2] == 4 && distinct[3] == 3 && distinct[4]
        == 2 {
        return Some(5);
    }
    None
}

proof fn lemma_distinct_desc(cnt: Seq<nat>, r: int)
    requires
        r <= 14,
    ensures
        forall|k: int|
            0 <= k < distinct_ranks(cnt, r).len() ==> 2 <= #[trigger] distinct_ranks(cnt, r)[k] <= r,
        forall|a: int, b: int|
            0 <= a < b < distinct_ranks(cnt, r).len() ==> #[trigger] distinct_ranks(cnt, r)[a]
                > #[trigger] distinct_ranks(cnt, r)[b],
    decreases r,
{
    if r >= 2 {
        lemma_distinct_desc(cnt, r - 1);
        let head: Seq<u8> = if cnt[r] > 0 { seq![r as u8] } else { Seq::empty() };
        let rest = distinct_ranks(cnt, r - 1);
        assert(distinct_ranks(cnt, r) == head + rest);
        assert forall|k: int| 0 <= k < distinct_ranks(cnt, r).len() implies 2
            <= #[trigger] distinct_ranks(cnt, r)[k] <= r by {
            if k >= head.len() {
                assert(distinct_ranks(cnt, r)[k] == rest[k - head.len()]);
            }
        }
        assert forall|a: int, b: int| 0 <= a < b < distinct_ranks(cnt, r).len() implies #[trigger] distinct_ranks(
            cnt,
            r,
        )[a] > #[trigger] distinct_ranks(cnt, r)[b] by {
            if a >= head.len() {
                assert(distinct_ranks(cnt, r)[a] == rest[a - head.len()]);
            }
            assert(distinct_ranks(cnt, r)[b] == rest[b - head.len()]);
        }
    }
}

proof fn lemma_rwc_range(cnt: Seq<nat>, c: nat, r: int)
    requires
        r <= 14,
    ensures
        forall|k: int|
            0 <= k < ranks_with_count(cnt, c, r).len() ==> 2 <= #[trigger] ranks_with_count(cnt, c, r)[k]
                <= 14,
        forall|k: int|
            0 <= k < ranks_with_count(cnt, c, r).len() ==> cnt[#[trigger] ranks_with_count(cnt, c, r)[k] as int]
                == c,
    decreases r,
{
    if r >= 2 {
        lemma_rwc_range(cnt, c, r - 1);
        let head: Seq<u8> = if cnt[r] == c { seq![r as u8] } else { Seq::empty() };
        let rest = ranks_with_count(cnt, c, r - 1);
        assert(ranks_with_count(cnt, c, r) == head + rest);
        assert forall|k: int| 0 <= k < ranks_with_count(cnt, c, r).len() implies 2
            <= #[trigger] ranks_with_count(cnt, c, r)[k] <= 14 && cnt[ranks_with_count(cnt, c, r)[k] as int]
            == c by {
            if k >= head.len() {
                assert(ranks_with_count(cnt, c, r)[k] == rest[k - head.len()]);
            }
        }
    }
}

proof fn lemma_groups_range(cnt: Seq<nat>, c: nat)
    ensures
        forall|k: int| 0 <= k < groups_from(cnt, c).len() ==> 2 <= #[trigger] groups_from(cnt, c)[k] <= 14,
    decreases c,
{
    if c > 0 {
        lemma_groups_range(cnt, (c - 1) as nat);
        lemma_rwc_range(cnt, c, 14);
        let head = ranks_with_count(cnt, c, 14);
        let rest = groups_from(cnt, (c - 1) as nat);
        assert forall|k: int| 0 <= k < groups_from(cnt, c).len() implies 2 <= #[trigger] groups_from(
            cnt,
            c,
        )[k] <= 14 by {
            if k < head.len() {
                assert(groups_from(cnt, c)[k] == head[k]);
            } else {
                assert(groups_from(cnt, c)[k] == rest[k - head.len()]);
            }
        }
    }
}

fn evaluate_five(cards: &[Card; 5]) -> (r: HandRank)
    ensures
        r.spec_value() == spec_rank5(cards@),
{
    let counts = count_ranks(cards);
    let ghost cnt = counts_view(counts);
    let sorted = desc_ranks_of(&counts);
    let distinct = distinct_ranks_of(&counts);
    let groups = groups_of(&counts);
    proof {
        lemma_distinct_desc(cnt, 14);
        lemma_groups_range(cnt, 5);
    }

    let s0 = cards[0].suit();
    let s1 = cards[1].suit();
    let s2 = cards[2].suit();
    let s3 = cards[3].suit();
    let s4 = cards[4].suit();
    let is_flush = s0 == s1 && s1 == s2 && s2 == s3 && s3 == s4;
    assert(is_flush == flush5(cards@));

    let straight_high = straight_high_rank(&distinct);
    let is_straight = straight_high.is_some();

    if is_flush && is_straight {
        let high = match straight_high {
            Some(h) => h,
            None => 0,
        };
        let mut kickers: Vec<u8> = Vec::new();
        kickers.push(high);
        assert(kickers@ =~= seq![high]);
        return encode(HandCategory::StraightFlush, &kickers);
    }
    let glen = groups.len();
    let c0: u8 = if glen > 0 { counts[groups[0] as usize] } else { 0 };
    let c1: u8 = if glen > 1 { counts[groups[1] as usize] } else { 0 };
    if glen > 0 && c0 == 4 {
        let second: u8 = if glen > 1 { groups[1] } else { 0 };
        return encode(HandCategory::FourOfAKind, &vec![groups[0], second]);
    }
    if glen > 1 && c0 == 3 && c1 == 2 {
        return encode(HandCategory::FullHouse, &vec![groups[0], groups[1]]);
    }
    if glen > 2 && c0 == 3 {
        return encode(HandCategory::ThreeOfAKind, &vec![groups[0], groups[1], groups[2]]);
    }
    if glen > 2 && c0 == 2 && c1 == 2 {
        return encode(HandCategory::TwoPair, &vec![groups[0], groups[1], groups[2]]);
    }
    if glen > 3 && c0 == 2 {
        return encode(HandCategory::OnePair, &vec![groups[0], groups[1], groups[2], groups[3]]);
    }
    if is_flush {
        return encode(HandCategory::Flush, &sorted);
    }
    if is_straight {
        let high = match straight_high {
            Some(h) => h,
            None => 0,
        };
        let mut kickers: Vec<u8> = Vec::new();
        kickers.push(high);
        assert(kickers@ =~= seq![high]);
        return encode(HandCategory::Straight, &kickers);
    }
    encode(HandCategory::HighCard, &sorted)
}

/// Number of pairs `(i, j)` with `i < j < 7` whose first index is below `i`.
pub open spec fn pairs_before(i: int) -> int
    decreases i,
{
    if i <= 0 {
        0
    } else {
        pairs_before(i - 1) + (7 - i)
    }
}

/// Position of the pair `(i, j)` in the lexicographic list of pairs of `0..7`.
pub open spec fn pair_index(i: int, j: int) -> int {
    pairs_before(i) + (j - i - 1)
}

proof fn lemma_pairs_before_values()
    ensures
        pairs_before(0) == 0,
        pairs_before(1) == 6,
        pairs_before(2) == 11,
        pairs_before(3) == 15,
        pairs_before(4) == 18,
        pairs_before(5) == 20,
        pairs_before(6) == 21,
{
    reveal_with_fuel(pairs_before, 7);
}

/// Whether the pair `(a, b)` comes before `(i, j)` in lexicographic order.
pub open spec fn pair_done(a: int, b: int, i: int, j: int) -> bool {
    0 <= a < b < 7 && (a < i || (a == i && b < j))
}

fn five_card_combinations(cards: &[Card; 7]) -> (combos: [[Card; 5]; 21])
    ensures
        forall|i: int, j: int|
            0 <= i < j < 7 ==> (#[trigger] combos[pair_index(i, j)])@ == remove_two(cards@, i, j),
{
    let filler = Card::new(2, 0);
    let mut combos = [[filler; 5]; 21];
    let mut index: usize = 0;
    proof {
        lemma_pairs_before_values();
    }
    let mut i: usize = 0;
    while i < 7
        invariant
            i <= 7,
            i < 7 ==> index == pairs_before(i as int),
            i == 7 ==> index == 21,
            forall|a: int, b: int|
                pair_done(a, b, i as int, i as int + 1) ==> (#[trigger] combos[pair_index(a, b)])@ == remove_two(
                    cards@,
                    a,
                    b,
                ),
            pairs_before(0) == 0 && pairs_before(1) == 6 && pairs_before(2) == 11 && pairs_before(3)
                == 15 && pairs_before(4) == 18 && pairs_before(5) == 20 && pairs_before(6) == 21,
        decreases 7 - i,
    {
        let mut j: usize = i + 1;
        while j < 7
            invariant
                i < 7,
                i + 1 <= j <= 7,
                index == pairs_before(i as int) + (j - i - 1),
                forall|a: int, b: int|
                    pair_done(a, b, i as int, j as int) ==> (#[trigger] combos[pair_index(a, b)])@
                        == remove_two(cards@, a, b),
                pairs_before(0) == 0 && pairs_before(1) == 6 && pairs_before(2) == 11 && pairs_before(3)
                    == 15 && pairs_before(4) == 18 && pairs_before(5) == 20 && pairs_before(6) == 21,
            decreases 7 - j,
        {
            let mut combo = [filler; 5];
            let mut combo_index: usize = 0;
            let mut source_index: usize = 0;
            while source_index < 7
                invariant
                    i < j < 7,
                    source_index <= 7,
                    combo_index == source_index - (if source_index > i { 1int } else { 0 }) - (if source_index > j { 1int } else { 0 }),
                    forall|k: int| 0 <= k < combo_index ==> #[trigger] combo[k] == remove_two(cards@, i as int, j as int)[k],
                decreases 7 - source_index,
            {
                if source_index != i && source_index != j {
                    combo[combo_index] = cards[source_index];
                    combo_index += 1;
                }
                source_index += 1;
            }
            assert(combo@ =~= remove_two(cards@, i as int, j as int));
            assert(index == pair_index(i as int, j as int));
            assert(index < 21);
            combos[index] = combo;
            index += 1;
            j += 1;
        }
        i += 1;
    }
    combos
}

/// The value of the best five-card hand that seven cards hold.
pub fn evaluate_hand(cards: &[Card; 7]) -> (best: HandRank)
    ensures
        is_best_of_seven(cards@, best.spec_value()),
{
    let combos = five_card_combinations(cards);
    let mut best = HandRank(0);
    let ghost mut wi: int = 0;
    let ghost mut wj: int = 1;
    proof {
        lemma_pairs_before_values();
    }
    let mut index: usize = 0;
    let mut i: usize = 0;
    while i < 7
        invariant
            i <= 7,
            i < 7 ==> index == pairs_before(i as int),
            forall|a: int, b: int|
                0 <= a < b < 7 ==> (#[trigger] combos[pair_index(a, b)])@ == remove_two(cards@, a, b),
            forall|a: int, b: int|
                pair_done(a, b, i as int, i as int + 1) ==> #[trigger] spec_rank5(remove_two(cards@, a, b)) <= best.spec_value(),
            best.spec_value() == 0 || (pair_done(wi, wj, i as int, i as int + 1) && best.spec_value() == spec_rank5(remove_two(cards@, wi, wj))),
            pairs_before(0) == 0 && pairs_before(1) == 6 && pairs_before(2) == 11 && pairs_before(3)
                == 15 && pairs_before(4) == 18 && pairs_before(5) == 20 && pairs_before(6) == 21,
        decreases 7 - i,
    {
        let mut j: usize = i + 1;
        while j < 7
            invariant
                i < 7,
                i + 1 <= j <= 7,
                index == pairs_before(i as int) + (j - i - 1),
                forall|a: int, b: int|
                    0 <= a < b < 7 ==> (#[trigger] combos[pair_index(a, b)])@ == remove_two(cards@, a, b),
                forall|a: int, b: int|
                    pair_done(a, b, i as int, j as int) ==> #[trigger] spec_rank5(remove_two(cards@, a, b)) <= best.spec_value(),
                best.spec_value() == 0 || (pair_done(wi, wj, i as int, j as int) && best.spec_value() == spec_rank5(remove_two(cards@, wi, wj))),
                pairs_before(0) == 0 && pairs_before(1) == 6 && pairs_before(2) == 11 && pairs_before(3)
                    == 15 && pairs_before(4) == 18 && pairs_before(5) == 20 && pairs_before(6) == 21,
            decreases 7 - j,
        {
            assert(index == pair_index(i as int, j as int));
            let rank = evaluate_five(&combos[index]);
            assert(combos[pair_index(i as int, j as int)]@ == remove_two(cards@, i as int, j as int));
            if rank.0 > best.0 {
                best = rank;
                proof {
                    wi = i as int;
                    wj = j as int;
                }
            }
            index += 1;
            j += 1;
        }
        i += 1;
    }
    proof {
        if best.spec_value() == 0 {
            assert(spec_rank5(remove_two(cards@, 0, 1)) <= best.spec_value());
            assert(best.spec_value() == spec_rank5(remove_two(cards@, 0, 1)));
        } else {
            assert(best.spec_value() == spec_rank5(remove_two(cards@, wi, wj)));
        }
    }
    best
}

/// A hand of a higher category is worth more than any hand of a lower one,
/// whatever the kickers.
pub proof fn law_higher_category_wins(a: HandRank, b: HandRank)
    requires
        category_code(category_of_value(a.spec_value())) > category_code(category_of_value(b.spec_value())),
    ensures
        a.spec_value() > b.spec_value(),
{
    let u = category_unit() as int;
    let qa = a.spec_value() as int / u;
    let qb = b.spec_value() as int / u;
    vstd::arithmetic::div_mod::lemma_fundamental_div_mod(a.spec_value() as int, u);
    vstd::arithmetic::div_mod::lemma_fundamental_div_mod(b.spec_value() as int, u);
    assert(qb < qa);
    vstd::arithmetic::mul::lemma_mul_inequality(qb + 1, qa, u);
    assert((qb + 1) * u == qb * u + u) by (nonlinear_arith);
}

/// The English name of a category.
pub open spec fn spec_category_name(category: HandCategory) -> Seq<char> {
    match category {
        HandCategory::HighCard => "High Card"@,
        HandCategory::OnePair => "One Pair"@,
        HandCategory::TwoPair => "Two Pair"@,
        HandCategory::ThreeOfAKind => "Three of a Kind"@,
        HandCategory::Straight => "Straight"@,
        HandCategory::Flush => "Flush"@,
        HandCategory::FullHouse => "Full House"@,
        HandCategory::FourOfAKind => "Four of a Kind"@,
        HandCategory::StraightFlush => "Straight Flush"@,
    }
}

/// The name of a category for display.
pub fn category_name(category: HandCategory) -> (name: &'static str)
    ensures
        name@ == spec_category_name(category),
{
    match category {
        HandCategory::HighCard => "High Card",
        HandCategory::OnePair => "One Pair",
        HandCategory::TwoPair => "Two Pair",
        HandCategory::ThreeOfAKind => "Three of a Kind",
        HandCategory::Straight => "Straight",
        HandCategory::Flush => "Flush",
        HandCategory::FullHouse => "Full House",
        HandCategory::FourOfAKind => "Four of a Kind",
        HandCategory::StraightFlush => "Straight Flush",
    }
}

proof fn lemma_count_rank_remove(t: Seq<Card>, k: int, r: int)
    requires
        0 <= k < t.len(),
    ensures
        count_rank(t, r) == count_rank(t.remove(k), r) + if t[k].rank_of() == r {
            1nat
        } else {
            0nat
        },
    decreases t.len(),
{
    if k == t.len() - 1 {
        assert(t.remove(k) =~= t.drop_last());
    } else {
        lemma_count_rank_remove(t.drop_last(), k, r);
        assert(t.remove(k).drop_last() =~= t.drop_last().remove(k));
        assert(t.remove(k).last() == t.last());
    }
}

proof fn lemma_count_rank_perm(s: Seq<Card>, t: Seq<Card>, r: int)
    requires
        s.to_multiset() == t.to_multiset(),
    ensures
        count_rank(s, r) == count_rank(t, r),
    decreases s.len(),
{
    broadcast use vstd::seq_lib::group_to_multiset_ensures, vstd::multiset::group_multiset_axioms;

    if s.len() == 0 {
        assert(t.to_multiset().len() == 0);
        assert(t.len() == 0);
    } else {
        let x = s.last();
        let s1 = s.drop_last();
        assert(s1.push(x) =~= s);
        assert(s[s.len() - 1] == x);
        assert(s.to_multiset().count(x) > 0);
        assert(t.to_multiset().count(x) > 0);
        let k = choose|k: int| 0 <= k < t.len() && t[k] == x;
        let t1 = t.remove(k);
        assert(t1.to_multiset() =~= s1.to_multiset());
        lemma_count_rank_perm(s1, t1, r);
        lemma_count_rank_remove(t, k, r);
    }
}

proof fn lemma_flush_perm(x: Seq<Card>, y: Seq<Card>)
    requires
        x.len() == 5,
        y.len() == 5,
        x.to_multiset() == y.to_multiset(),
        flush5(x),
    ensures
        flush5(y),
{
    broadcast use vstd::seq_lib::group_to_multiset_ensures, vstd::multiset::group_multiset_axioms;

    assert forall|i: int| 0 <= i < 5 implies #[trigger] y[i].suit_of() == x[0].suit_of() by {
        assert(y[i] == y[i]);
        assert(y.to_multiset().count(y[i]) > 0);
        assert(x.to_multiset().count(y[i]) > 0);
        let j = choose|j: int| 0 <= j < x.len() && x[j] == y[i];
    }
    assert(y[0].suit_of() == x[0].suit_of());
    assert(y[1].suit_of() == x[0].suit_of());
    assert(y[2].suit_of() == x[0].suit_of());
    assert(y[3].suit_of() == x[0].suit_of());
    assert(y[4].suit_of() == x[0].suit_of());
}

/// The value of five cards depends only on which cards they are.
proof fn lemma_rank5_perm(x: Seq<Card>, y: Seq<Card>)
    requires
        x.len() == 5,
        y.len() == 5,
        x.to_multiset() == y.to_multiset(),
    ensures
        spec_rank5(x) == spec_rank5(y),
{
    assert forall|r: int| 0 <= r < 15 implies #[trigger] rank_counts(x)[r] == rank_counts(y)[r] by {
        lemma_count_rank_perm(x, y, r);
    }
    assert(rank_counts(x) =~= rank_counts(y));
    if flush5(x) {
        lemma_flush_perm(x, y);
    }
    if flush5(y) {
        lemma_flush_perm(y, x);
    }
}

proof fn lemma_remove_two_is_removes(c: Seq<Card>, i: int, j: int)
    requires
        c.len() == 7,
        0 <= i < j < 7,
    ensures
        remove_two(c, i, j) == c.remove(j).remove(i),
{
    assert(remove_two(c, i, j) =~= c.remove(j).remove(i));
}

/// Every five of a rearrangement of seven cards are, as cards, some five of
/// the first seven.
proof fn lemma_five_of_perm(c: Seq<Card>, d: Seq<Card>, i: int, j: int)
    requires
        c.len() == 7,
        d.len() == 7,
        c.to_multiset() == d.to_multiset(),
        0 <= i < j < 7,
    ensures
        exists|a: int, b: int|
            0 <= a < b < 7 && spec_rank5(remove_two(d, i, j)) == #[trigger] spec_rank5(remove_two(c, a, b)),
{
    broadcast use vstd::seq_lib::group_to_multiset_ensures, vstd::multiset::group_multiset_axioms;

    lemma_remove_two_is_removes(d, i, j);
    let dj = d[j];
    let di = d[i];
    let d1 = d.remove(j);
    assert(d1[i] == di);
    assert(d.to_multiset().count(dj) > 0);
    assert(c.to_multiset().count(dj) > 0);
    let a = choose|a: int| 0 <= a < c.len() && c[a] == dj;
    let c1 = c.remove(a);
    assert(c1.to_multiset() =~= d1.to_multiset());
    assert(d1.to_multiset().count(di) > 0);
    assert(c1.to_multiset().count(di) > 0);
    let b1 = choose|b: int| 0 <= b < c1.len() && c1[b] == di;
    let b = if b1 < a {
        b1
    } else {
        b1 + 1
    };
    assert(c[b] == di);
    let lo = if a < b {
        a
    } else {
        b
    };
    let hi = if a < b {
        b
    } else {
        a
    };
    lemma_remove_two_is_removes(c, lo, hi);
    let c2 = c.remove(hi);
    assert(c2[lo] == c[lo]);
    assert(c2.remove(lo).to_multiset() =~= d1.remove(i).to_multiset());
    lemma_rank5_perm(remove_two(d, i, j), remove_two(c, lo, hi));
    assert(0 <= lo < hi < 7);
}

/// The rank of seven cards does not depend on their order: the best five of
/// any rearrangement of the seven cards has the same value.
pub proof fn law_best_of_seven_order(c: Seq<Card>, d: Seq<Card>, v: nat, w: nat)
    requires
        c.len() == 7,
        d.len() == 7,
        c.to_multiset() == d.to_multiset(),
        is_best_of_seven(c, v),
        is_best_of_seven(d, w),
    ensures
        v == w,
{
    let (i, j) = choose|i: int, j: int| 0 <= i < j < 7 && w == #[trigger] spec_rank5(remove_two(d, i, j));
    lemma_five_of_perm(c, d, i, j);
    let (a, b) = choose|a: int, b: int|
        0 <= a < b < 7 && spec_rank5(remove_two(d, i, j)) == #[trigger] spec_rank5(remove_two(c, a, b));
    assert(spec_rank5(remove_two(c, a, b)) <= v);
    let (x, y) = choose|x: int, y: int| 0 <= x < y < 7 && v == #[trigger] spec_rank5(remove_two(c, x, y));
    lemma_five_of_perm(d, c, x, y);
    let (p, q) = choose|p: int, q: int|
        0 <= p < q < 7 && spec_rank5(remove_two(c, x, y)) == #[trigger] spec_rank5(remove_two(d, p, q));
    assert(spec_rank5(remove_two(d, p, q)) <= w);
}

/// Whether `r` is a rank of the straight whose top card is `top`: the five
/// ranks from `top` down, or for the five-high straight the ace and 5 to 2.
pub open spec fn in_straight(top: int, r: int) -> bool {
    ||| (top - 4 <= r <= top && r >= 2)
    ||| (top == 5 && r == 14)
}

/// Five cards that make the straight topped by `top`: their ranks differ,
/// each is a rank of that straight, and each rank of it is there.
pub open spec fn is_straight_to(c: Seq<Card>, top: int) -> bool {
    &&& c.len() == 5
    &&& 5 <= top <= 14
    &&& forall|i: int, j: int| 0 <= i < j < 5 ==> #[trigger] c[i].rank_of() != #[trigger] c[j].rank_of()
    &&& forall|i: int| 0 <= i < 5 ==> in_straight(top, #[trigger] c[i].rank_of() as int)
    &&& forall|r: int| #[trigger] in_straight(top, r) ==> exists|i: int| 0 <= i < 5 && c[i].rank_of() == r
}

/// Whether five cards all have the suit of the first.
pub open spec fn one_suit(c: Seq<Card>) -> bool {
    forall|i: int| 0 <= i < 5 ==> #[trigger] c[i].suit_of() == c[0].suit_of()
}

proof fn lemma_count_five(c: Seq<Card>, r: int)
    requires
        c.len() == 5,
    ensures
        count_rank(c, r) == (if c[0].rank_of() == r { 1nat } else { 0nat }) + (if c[1].rank_of() == r {
            1nat
        } else {
            0nat
        }) + (if c[2].rank_of() == r { 1nat } else { 0nat }) + (if c[3].rank_of() == r { 1nat } else {
            0nat
        }) + (if c[4].rank_of() == r { 1nat } else { 0nat }),
{
    let c4 = c.drop_last();
    let c3 = c4.drop_last();
    let c2 = c3.drop_last();
    let c1 = c2.drop_last();
    let c0 = c1.drop_last();
    assert(c0.len() == 0);
    assert(count_rank(c0, r) == 0);
    assert(c1.last() == c[0]);
    assert(c2.last() == c[1]);
    assert(c3.last() == c[2]);
    assert(c4.last() == c[3]);
    assert(count_rank(c1, r) == count_rank(c0, r) + (if c[0].rank_of() == r { 1nat } else { 0nat }));
    assert(count_rank(c2, r) == count_rank(c1, r) + (if c[1].rank_of() == r { 1nat } else { 0nat }));
    assert(count_rank(c3, r) == count_rank(c2, r) + (if c[2].rank_of() == r { 1nat } else { 0nat }));
    assert(count_rank(c4, r) == count_rank(c3, r) + (if c[3].rank_of() == r { 1nat } else { 0nat }));
}

/// Ranks above `lo` up to `r` that do not occur add nothing to the list of
/// ranks that do.
proof fn lemma_distinct_skip(cnt: Seq<nat>, lo: int, r: int)
    requires
        1 <= lo <= r,
        forall|x: int| lo < x <= r ==> cnt[x] == 0,
    ensures
        distinct_ranks(cnt, r) == distinct_ranks(cnt, lo),
    decreases r - lo,
{
    if r > lo {
        lemma_distinct_skip(cnt, lo, r - 1);
        assert(distinct_ranks(cnt, r) =~= Seq::<u8>::empty() + distinct_ranks(cnt, r - 1));
    }
}

/// The value of five cards that make a straight is that of a straight (or a
/// straight flush when they share a suit) whose only kicker is the top card,
/// 5 for `A 5 4 3 2`.
pub proof fn law_straight_value(c: Seq<Card>, top: int)
    requires
        is_straight_to(c, top),
    ensures
        !one_suit(c) ==> spec_rank5(c) == 4 * category_unit() + top * 4294967296,
        one_suit(c) ==> spec_rank5(c) == 8 * category_unit() + top * 4294967296,
{
    let cnt = rank_counts(c);
    assert forall|r: int| 0 <= r < 15 implies #[trigger] cnt[r] == (if in_straight(top, r) { 1nat } else {
        0nat
    }) by {
        lemma_count_five(c, r);
        if in_straight(top, r) {
            let i = choose|i: int| 0 <= i < 5 && c[i].rank_of() == r;
            assert forall|k: int| 0 <= k < 5 && k != i implies c[k].rank_of() != r by {
                if k < i {
                    assert(c[k].rank_of() != c[i].rank_of());
                } else {
                    assert(c[i].rank_of() != c[k].rank_of());
                }
            }
        } else {
            assert forall|k: int| 0 <= k < 5 implies c[k].rank_of() != r by {
                assert(in_straight(top, c[k].rank_of() as int));
            }
        }
    }
    let d = distinct_ranks(cnt, 14);
    assert(distinct_ranks(cnt, 1) =~= Seq::<u8>::empty());
    if top == 5 {
        lemma_distinct_skip(cnt, 5, 13);
        assert(cnt[14] == 1 && cnt[5] == 1 && cnt[4] == 1 && cnt[3] == 1 && cnt[2] == 1);
        assert(distinct_ranks(cnt, 2) =~= seq![2u8] + distinct_ranks(cnt, 1));
        assert(distinct_ranks(cnt, 3) =~= seq![3u8] + distinct_ranks(cnt, 2));
        assert(distinct_ranks(cnt, 4) =~= seq![4u8] + distinct_ranks(cnt, 3));
        assert(distinct_ranks(cnt, 5) =~= seq![5u8] + distinct_ranks(cnt, 4));
        assert(d =~= seq![14u8] + distinct_ranks(cnt, 13));
        assert(d =~= seq![14u8, 5u8, 4u8, 3u8, 2u8]);
    } else {
        lemma_distinct_skip(cnt, top, 14);
        lemma_distinct_skip(cnt, 1, top - 5);
        let t = top;
        assert(cnt[t] == 1 && cnt[t - 1] == 1 && cnt[t - 2] == 1 && cnt[t - 3] == 1 && cnt[t - 4] == 1);
        assert(distinct_ranks(cnt, t - 4) =~= seq![(t - 4) as u8] + distinct_ranks(cnt, t - 5));
        assert(distinct_ranks(cnt, t - 3) =~= seq![(t - 3) as u8] + distinct_ranks(cnt, t - 4));
        assert(distinct_ranks(cnt, t - 2) =~= seq![(t - 2) as u8] + distinct_ranks(cnt, t - 3));
        assert(distinct_ranks(cnt, t - 1) =~= seq![(t - 1) as u8] + distinct_ranks(cnt, t - 2));
        assert(distinct_ranks(cnt, t) =~= seq![t as u8] + distinct_ranks(cnt, t - 1));
        assert(d =~= seq![t as u8, (t - 1) as u8, (t - 2) as u8, (t - 3) as u8, (t - 4) as u8]);
    }
    assert(straight_high(d) == Some(top as u8));
    let g = groups_from(cnt, 5);
    lemma_groups_range(cnt, 5);
    if g.len() > 0 {
        assert(cnt[g[0] as int] <= 1);
    }
    if g.len() > 1 {
        assert(cnt[g[1] as int] <= 1);
    }
    let ks = seq![top as u8];
    assert(kicker_sum(ks, 1) == 0);
    assert(kicker_sum(ks, 0) == top * 4294967296);
    if one_suit(c) {
        assert(c[1].suit_of() == c[0].suit_of());
        assert(c[2].suit_of() == c[0].suit_of());
        assert(c[3].suit_of() == c[0].suit_of());
        assert(c[4].suit_of() == c[0].suit_of());
        assert(flush5(c));
    } else {
        let k = choose|k: int| 0 <= k < 5 && #[trigger] c[k].suit_of() != c[0].suit_of();
        assert(!flush5(c));
    }
}

/// Of two straights that do not share one suit, the one with the higher top
/// card is worth more; with equal tops they are worth the same.
pub proof fn law_straight_order(c: Seq<Card>, s: int, d: Seq<Card>, t: int)
    requires
        is_straight_to(c, s),
        is_straight_to(d, t),
        !one_suit(c),
        !one_suit(d),
    ensures
        s > t ==> spec_rank5(c) > spec_rank5(d),
        s == t ==> spec_rank5(c) == spec_rank5(d),
{
    law_straight_value(c, s);
    law_straight_value(d, t);
}

} // verus!
