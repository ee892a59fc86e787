use vstd::prelude::*;

use crate::card::{group_card, rank_to_char, spec_rank_char, Card};
use crate::text::push_char;
use crate::equity::{
    expand_offsuit, expand_pair, expand_suited, hand_of, hands_view, offsuit_hands, pair_hands,
    spec_normalize, suited_hands, Hand, HandRange,
};

verus! {

broadcast use group_card;

/// Number of starting-hand types: 13 pairs, 78 suited and 78 offsuit.
pub const COMBO_COUNT: usize = 169;

/// Cells of the suited (upper) triangle of the 13 x 13 matrix before `row`.
pub open spec fn upper_before(row: int) -> int
    decreases row,
{
    if row <= 0 {
        0
    } else {
        upper_before(row - 1) + (13 - row)
    }
}

/// Cells of the offsuit (lower) triangle of the 13 x 13 matrix before `row`.
pub open spec fn lower_before(row: int) -> int
    decreases row,
{
    if row <= 0 {
        0
    } else {
        lower_before(row - 1) + (row - 1)
    }
}

/// Place of a suited type `high`, `low` (`low < high`) among the 78 suited
/// types: the matrix rows run from ace down, the upper triangle row by row.
pub open spec fn suited_pos(high: int, low: int) -> int {
    upper_before(14 - high) + (14 - low) - (14 - high) - 1
}

/// Place of an offsuit type `high`, `low` (`low < high`) among the 78
/// offsuit types: the lower triangle row by row, the row given by `low`.
pub open spec fn offsuit_pos(high: int, low: int) -> int {
    lower_before(14 - low) + (14 - high)
}

/// The ranks of two cards, higher first, and whether they share a suit.
pub open spec fn spec_normalized_ranks(a: Card, b: Card) -> (u8, u8, bool) {
    if a.rank_of() < b.rank_of() {
        (b.rank_of(), a.rank_of(), b.suit_of() == a.suit_of())
    } else {
        (a.rank_of(), b.rank_of(), a.suit_of() == b.suit_of())
    }
}

/// Index `0..169` of the type of two cards in the 13 x 13 matrix: pairs
/// `AA..22` first, then the suited types, then the offsuit types.
pub open spec fn spec_combo_index(a: Card, b: Card) -> int {
    let (high, low, suited) = spec_normalized_ranks(a, b);
    if high == low {
        14 - high
    } else if suited {
        13 + suited_pos(high as int, low as int)
    } else {
        91 + offsuit_pos(high as int, low as int)
    }
}

/// `(high, low, suited)` are the ranks of the type with index `idx`.
pub open spec fn ranks_of_index(idx: int, high: u8, low: u8, suited: bool) -> bool {
    if idx < 13 {
        high == 14 - idx && low == high && !suited
    } else if idx < 91 {
        suited && 2 <= low < high <= 14 && suited_pos(high as int, low as int) == idx - 13
    } else if idx < 169 {
        !suited && 2 <= low < high <= 14 && offsuit_pos(high as int, low as int) == idx - 91
    } else {
        high == 14 && low == 13 && !suited
    }
}

/// The holdings of a type.
pub open spec fn type_hands(high: u8, low: u8, suited: bool) -> Seq<Hand> {
    if high == low {
        pair_hands(high as int)
    } else if suited {
        suited_hands(high as int, low as int)
    } else {
        offsuit_hands(high as int, low as int)
    }
}

proof fn lemma_triangle_values()
    ensures
        upper_before(0) == 0,
        upper_before(1) == 12,
        upper_before(2) == 23,
        upper_before(3) == 33,
        upper_before(4) == 42,
        upper_before(5) == 50,
        upper_before(6) == 57,
        upper_before(7) == 63,
        upper_before(8) == 68,
        upper_before(9) == 72,
        upper_before(10) == 75,
        upper_before(11) == 77,
        upper_before(12) == 78,
        upper_before(13) == 78,
        lower_before(0) == 0,
        lower_before(1) == 0,
        lower_before(2) == 1,
        lower_before(3) == 3,
        lower_before(4) == 6,
        lower_before(5) == 10,
        lower_before(6) == 15,
        lower_before(7) == 21,
        lower_before(8) == 28,
        lower_before(9) == 36,
        lower_before(10) == 45,
        lower_before(11) == 55,
        lower_before(12) == 66,
        lower_before(13) == 78,
{
    reveal_with_fuel(upper_before, 14);
    reveal_with_fuel(lower_before, 14);
}

fn rank_to_row(rank: u8) -> (row: u8)
    requires
        rank <= 14,
    ensures
        row == 14 - rank,
{
    Card::MAX_RANK - rank
}

fn row_to_rank(row: u8) -> (rank: u8)
    requires
        row <= 14,
    ensures
        rank == 14 - row,
{
    Card::MAX_RANK - row
}

fn suited_position(row: u8, col: u8) -> (position: u8)
    requires
        row < col < 13,
    ensures
        position == upper_before(row as int) + col - row - 1,
{
    proof {
        lemma_triangle_values();
    }
    let mut position: u8 = 0;
    let mut current_row: u8 = 0;
    while current_row < 13
        invariant
            current_row <= row,
            row < col < 13,
            position == upper_before(current_row as int),
            upper_before(0) == 0 && upper_before(1) == 12 && upper_before(2) == 23 && upper_before(3) == 33
                && upper_before(4) == 42 && upper_before(5) == 50 && upper_before(6) == 57
                && upper_before(7) == 63 && upper_before(8) == 68 && upper_before(9) == 72
                && upper_before(10) == 75 && upper_before(11) == 77 && upper_before(12) == 78,
        decreases 13 - current_row,
    {
        let mut current_col: u8 = current_row + 1;
        while current_col < 13
            invariant
                current_row <= row,
                row < col < 13,
                current_row + 1 <= current_col <= 13,
                current_row < row ==> position == upper_before(current_row as int) + current_col
                    - current_row - 1,
                current_row == row ==> current_col <= col && position == upper_before(current_row as int)
                    + current_col - current_row - 1,
                upper_before(0) == 0 && upper_before(1) == 12 && upper_before(2) == 23 && upper_before(3) == 33
                    && upper_before(4) == 42 && upper_before(5) == 50 && upper_before(6) == 57
                    && upper_before(7) == 63 && upper_before(8) == 68 && upper_before(9) == 72
                    && upper_before(10) == 75 && upper_before(11) == 77 && upper_before(12) == 78,
            decreases 13 - current_col,
        {
            if current_row == row && current_col == col {
                return position;
            }
            position += 1;
            current_col += 1;
        }
        current_row += 1;
    }
    0
}

fn offsuit_position(row: u8, col: u8) -> (position: u8)
    requires
        col < row < 13,
    ensures
        position == lower_before(row as int) + col,
{
    proof {
        lemma_triangle_values();
    }
    let mut position: u8 = 0;
    let mut current_row: u8 = 0;
    while current_row < 13
        invariant
            current_row <= row,
            col < row < 13,
            position == lower_before(current_row as int),
            lower_before(0) == 0 && lower_before(1) == 0 && lower_before(2) == 1 && lower_before(3) == 3
                && lower_before(4) == 6 && lower_before(5) == 10 && lower_before(6) == 15
                && lower_before(7) == 21 && lower_before(8) == 28 && lower_before(9) == 36
                && lower_before(10) == 45 && lower_before(11) == 55 && lower_before(12) == 66
                && lower_before(13) == 78,
        decreases 13 - current_row,
    {
        let mut current_col: u8 = 0;
        while current_col < current_row
            invariant
                current_row <= row,
                col < row < 13,
                current_col <= current_row,
                current_row < row ==> position == lower_before(current_row as int) + current_col,
                current_row == row ==> current_col <= col && position == lower_before(current_row as int)
                    + current_col,
                lower_before(0) == 0 && lower_before(1) == 0 && lower_before(2) == 1 && lower_before(3) == 3
                    && lower_before(4) == 6 && lower_before(5) == 10 && lower_before(6) == 15
                    && lower_before(7) == 21 && lower_before(8) == 28 && lower_before(9) == 36
                    && lower_before(10) == 45 && lower_before(11) == 55 && lower_before(12) == 66
                    && lower_before(13) == 78,
            decreases current_row - current_col,
        {
            if current_row == row && current_col == col {
                return position;
            }
            position += 1;
            current_col += 1;
        }
        current_row += 1;
    }
    0
}

fn suited_index(row: u8, col: u8) -> (idx: u8)
    requires
        row < col < 13,
    ensures
        idx == 13 + upper_before(row as int) + col - row - 1,
{
    proof {
        lemma_triangle_values();
        assert(upper_before(row as int) + col - row - 1 < 78);
    }
    13 + suited_position(row, col)
}

fn offsuit_index(row: u8, col: u8) -> (idx: u8)
    requires
        col < row < 13,
    ensures
        idx == 91 + lower_before(row as int) + col,
{
    proof {
        lemma_triangle_values();
        assert(lower_before(row as int) + col < 78);
    }
    91 + offsuit_position(row, col)
}

fn normalized_ranks(cards: [Card; 2]) -> (r: (u8, u8, bool))
    ensures
        r == spec_normalized_ranks(cards[0], cards[1]),
        2 <= r.1 <= r.0 <= 14,
{
    let mut first = cards[0];
    let mut second = cards[1];
    if first.rank() < second.rank() {
        let tmp = first;
        first = second;
        second = tmp;
    }
    let suited = first.suit() == second.suit();
    (first.rank(), second.rank(), suited)
}

/// Index `0..169` of the type of two cards in the 13 x 13 matrix.
pub fn combo_index(cards: [Card; 2]) -> (idx: u8)
    ensures
        idx == spec_combo_index(cards[0], cards[1]),
        idx < 169,
{
    proof {
        lemma_triangle_values();
    }
    let (high_rank, low_rank, suited) = normalized_ranks(cards);
    let row_high = rank_to_row(high_rank);
    let row_low = rank_to_row(low_rank);

    if high_rank == low_rank {
        return row_high;
    }
    if suited {
        suited_index(row_high, row_low)
    } else {
        offsuit_index(row_low, row_high)
    }
}

fn suited_row_col(position: u8) -> (rc: (u8, u8))
    requires
        position < 78,
    ensures
        rc.0 < rc.1 < 13,
        upper_before(rc.0 as int) + rc.1 - rc.0 - 1 == position,
{
    proof {
        lemma_triangle_values();
    }
    let mut current: u8 = 0;
    let mut row: u8 = 0;
    while row < 13
        invariant
            row <= 13,
            position < 78,
            current == upper_before(row as int),
            current <= position,
            upper_before(0) == 0 && upper_before(1) == 12 && upper_before(2) == 23 && upper_before(3) == 33
                && upper_before(4) == 42 && upper_before(5) == 50 && upper_before(6) == 57
                && upper_before(7) == 63 && upper_before(8) == 68 && upper_before(9) == 72
                && upper_before(10) == 75 && upper_before(11) == 77 && upper_before(12) == 78
                && upper_before(13) == 78,
        decreases 13 - row,
    {
        let mut col: u8 = row + 1;
        while col < 13
            invariant
                row < 13,
                row + 1 <= col <= 13,
                position < 78,
                current == upper_before(row as int) + col - row - 1,
                current <= position,
                upper_before(0) == 0 && upper_before(1) == 12 && upper_before(2) == 23 && upper_before(3) == 33
                    && upper_before(4) == 42 && upper_before(5) == 50 && upper_before(6) == 57
                    && upper_before(7) == 63 && upper_before(8) == 68 && upper_before(9) == 72
                    && upper_before(10) == 75 && upper_before(11) == 77 && upper_before(12) == 78
                    && upper_before(13) == 78,
            decreases 13 - col,
        {
            if current == position {
                return (row, col);
            }
            current += 1;
            col += 1;
        }
        row += 1;
    }
    (0, 1)
}

fn offsuit_row_col(position: u8) -> (rc: (u8, u8))
    requires
        position < 78,
    ensures
        rc.1 < rc.0 < 13,
        lower_before(rc.0 as int) + rc.1 == position,
{
    proof {
        lemma_triangle_values();
    }
    let mut current: u8 = 0;
    let mut row: u8 = 0;
    while row < 13
        invariant
            row <= 13,
            position < 78,
            current == lower_before(row as int),
            current <= position,
            lower_before(0) == 0 && lower_before(1) == 0 && lower_before(2) == 1 && lower_before(3) == 3
                && lower_before(4) == 6 && lower_before(5) == 10 && lower_before(6) == 15
                && lower_before(7) == 21 && lower_before(8) == 28 && lower_before(9) == 36
                && lower_before(10) == 45 && lower_before(11) == 55 && lower_before(12) == 66
                && lower_before(13) == 78,
        decreases 13 - row,
    {
        let mut col: u8 = 0;
        while col < row
            invariant
                row < 13,
                col <= row,
                position < 78,
                current == lower_before(row as int) + col,
                current <= position,
                lower_before(0) == 0 && lower_before(1) == 0 && lower_before(2) == 1 && lower_before(3) == 3
                    && lower_before(4) == 6 && lower_before(5) == 10 && lower_before(6) == 15
                    && lower_before(7) == 21 && lower_before(8) == 28 && lower_before(9) == 36
                    && lower_before(10) == 45 && lower_before(11) == 55 && lower_before(12) == 66
                    && lower_before(13) == 78,
            decreases row - col,
        {
            if current == position {
                return (row, col);
            }
            current += 1;
            col += 1;
        }
        row += 1;
    }
    (1, 0)
}

/// The ranks of the type with index `idx`, higher first, and whether it is
/// suited; an index past 168 reads as ace-king offsuit.
pub fn index_to_ranks(idx: u8) -> (r: (u8, u8, bool))
    ensures
        ranks_of_index(idx as int, r.0, r.1, r.2),
        2 <= r.1 <= r.0 <= 14,
{
    if idx < 13 {
        let rank = row_to_rank(idx);
        return (rank, rank, false);
    }
    if idx < 91 {
        let position = idx - 13;
        let (row, col) = suited_row_col(position);
        return (row_to_rank(row), row_to_rank(col), true);
    }
    if idx >= 169 {
        return (14, 13, false);
    }
    let position = idx - 91;
    let (row, col) = offsuit_row_col(position);
    (row_to_rank(col), row_to_rank(row), false)
}

/// The holdings of the type with index `idx`.
pub fn expand_combo(idx: u8) -> (combos: HandRange)
    ensures
        exists|high: u8, low: u8, suited: bool|
            ranks_of_index(idx as int, high, low, suited) && 2 <= low <= high <= 14 && hands_view(combos@)
                == type_hands(high, low, suited),
{
    let (high_rank, low_rank, suited) = index_to_ranks(idx);
    let mut combos: HandRange = Vec::new();
    assert(hands_view(combos@) =~= Seq::<Hand>::empty());
    if high_rank == low_rank {
        expand_pair(high_rank, &mut combos);
    } else if suited {
        expand_suited(high_rank, low_rank, &mut combos);
    } else {
        expand_offsuit(high_rank, low_rank, &mut combos);
    }
    assert(hands_view(combos@) =~= type_hands(high_rank, low_rank, suited));
    combos
}

/// Every holding of a type has that type's index: expanding an index and
/// indexing the holdings gives the index back.
pub proof fn law_expand_then_index(idx: u8, high: u8, low: u8, suited: bool, k: int)
    requires
        idx < 169,
        ranks_of_index(idx as int, high, low, suited),
        0 <= k < type_hands(high, low, suited).len(),
    ensures
        spec_combo_index(type_hands(high, low, suited)[k].0, type_hands(high, low, suited)[k].1) == idx,
{
    lemma_triangle_values();
}

/// The index of any two cards of different ranks or suits names their type:
/// it is below 169 and reads back as their ranks and suitedness.
pub proof fn law_index_then_ranks(a: Card, b: Card)
    requires
        2 <= a.rank_of() <= 14,
        2 <= b.rank_of() <= 14,
        a != b,
    ensures
        0 <= spec_combo_index(a, b) < 169,
        ranks_of_index(
            spec_combo_index(a, b),
            spec_normalized_ranks(a, b).0,
            spec_normalized_ranks(a, b).1,
            spec_normalized_ranks(a, b).2,
        ),
{
    lemma_triangle_values();
    let (h, l, s) = spec_normalized_ranks(a, b);
    if h == l {
        if s {
            assert(a == Card::spec_new(a.rank_of(), a.suit_of()));
            assert(b == Card::spec_new(b.rank_of(), b.suit_of()));
        }
    } else {
        assert(0 <= suited_pos(h as int, l as int) < 78);
        assert(0 <= offsuit_pos(h as int, l as int) < 78);
    }
}

/// Whether two holdings share a card.
pub fn hands_overlap(h1: [Card; 2], h2: [Card; 2]) -> (b: bool)
    ensures
        b == (h1[0] == h2[0] || h1[0] == h2[1] || h1[1] == h2[0] || h1[1] == h2[1]),
{
    h1[0] == h2[0] || h1[0] == h2[1] || h1[1] == h2[0] || h1[1] == h2[1]
}

/// Number of holdings of a type: 6 for a pair, 4 suited, 12 offsuit.
pub fn combo_weight(idx: u8) -> (w: u8)
    ensures
        exists|high: u8, low: u8, suited: bool|
            ranks_of_index(idx as int, high, low, suited) && w == type_hands(high, low, suited).len(),
{
    let (high, low, suited) = index_to_ranks(idx);
    if high == low {
        6
    } else if suited {
        4
    } else {
        12
    }
}

/// Index of the type in row `row` and column `col` of the 13 x 13 matrix:
/// pairs on the diagonal, suited above it, offsuit below.
pub fn matrix_combo_index(row: u8, col: u8) -> (idx: u8)
    requires
        row < 13,
        col < 13,
    ensures
        row == col ==> idx == row,
        row < col ==> idx == 13 + suited_pos(14 - row, 14 - col),
        row > col ==> idx == 91 + offsuit_pos(14 - col, 14 - row),
{
    let rank_row = 14 - row;
    let rank_col = 14 - col;
    if row == col {
        combo_index([Card::new(rank_row, 0), Card::new(rank_row, 1)])
    } else if row < col {
        combo_index([Card::new(rank_row, 0), Card::new(rank_col, 0)])
    } else {
        combo_index([Card::new(rank_row, 0), Card::new(rank_col, 1)])
    }
}

/// Position of the pair of types `(h1, h2)` in the 169 x 169 equity table.
pub fn table_index(h1: u8, h2: u8) -> (i: usize)
    ensures
        i == h1 as int * 169 + h2 as int,
{
    h1 as usize * 169 + h2 as usize
}

/// The pairs of `hero` with the holdings of `villains` that share no card
/// with it, in order.
pub open spec fn matchups_with(hero: [Card; 2], villains: Seq<[Card; 2]>) -> Seq<([Card; 2], [Card; 2])>
    decreases villains.len(),
{
    if villains.len() == 0 {
        Seq::empty()
    } else {
        let rest = matchups_with(hero, villains.drop_last());
        let v = villains.last();
        if hero[0] == v[0] || hero[0] == v[1] || hero[1] == v[0] || hero[1] == v[1] {
            rest
        } else {
            rest.push((hero, v))
        }
    }
}

/// Every pair of a holding of `heroes` and one of `villains` that share no
/// card, heroes in order and villains in order within each.
pub open spec fn all_matchups(heroes: Seq<[Card; 2]>, villains: Seq<[Card; 2]>) -> Seq<([Card; 2], [Card; 2])>
    decreases heroes.len(),
{
    if heroes.len() == 0 {
        Seq::empty()
    } else {
        all_matchups(heroes.drop_last(), villains) + matchups_with(heroes.last(), villains)
    }
}

/// The pairs of holdings, one of each list, that share no card.
pub fn disjoint_matchups(heroes: &HandRange, villains: &HandRange) -> (m: Vec<([Card; 2], [Card; 2])>)
    ensures
        m@ == all_matchups(heroes@, villains@),
{
    let mut out: Vec<([Card; 2], [Card; 2])> = Vec::new();
    let mut i: usize = 0;
    assert(heroes@.take(0) =~= Seq::<[Card; 2]>::empty());
    while i < heroes.len()
        invariant
            i <= heroes.len(),
            out@ == all_matchups(heroes@.take(i as int), villains@),
        decreases heroes.len() - i,
    {
        let hero = heroes[i];
        let ghost before = out@;
        let mut j: usize = 0;
        assert(villains@.take(0) =~= Seq::<[Card; 2]>::empty());
        assert(before + matchups_with(hero, villains@.take(0)) =~= before);
        while j < villains.len()
            invariant
                j <= villains.len(),
                out@ == before + matchups_with(hero, villains@.take(j as int)),
            decreases villains.len() - j,
        {
            let v = villains[j];
            assert(villains@.take(j + 1).drop_last() =~= villains@.take(j as int));
            if !hands_overlap(hero, v) {
                out.push((hero, v));
            }
            j += 1;
            assert(out@ =~= before + matchups_with(hero, villains@.take(j as int)));
        }
        assert(villains@.take(j as int) =~= villains@);
        assert(heroes@.take(i + 1).drop_last() =~= heroes@.take(i as int));
        i += 1;
    }
    assert(heroes@.take(i as int) =~= heroes@);
    out
}

/// The name of a type: the two rank characters, higher first, then `s`
/// for suited and `o` for offsuit (nothing for a pair).
pub open spec fn spec_type_label(high: u8, low: u8, suited: bool) -> Seq<char> {
    let ranks = seq![spec_rank_char(high), spec_rank_char(low)];
    if high == low {
        ranks
    } else if suited {
        ranks.push('s')
    } else {
        ranks.push('o')
    }
}

/// The name of the type with index `idx`, such as `AA`, `AKs` or `72o`.
pub fn combo_label(idx: u8) -> (label: String)
    ensures
        exists|high: u8, low: u8, suited: bool|
            ranks_of_index(idx as int, high, low, suited) && label@ == spec_type_label(high, low, suited),
{
    let (high, low, suited) = index_to_ranks(idx);
    let mut label = String::new();
    push_char(&mut label, rank_to_char(high));
    push_char(&mut label, rank_to_char(low));
    if high != low {
        if suited {
            push_char(&mut label, 's');
        } else {
            push_char(&mut label, 'o');
        }
    }
    assert(label@ =~= spec_type_label(high, low, suited));
    label
}

/// Each index names exactly one type: the ranks and suitedness that
/// `ranks_of_index` allows for an index are unique.
pub proof fn law_index_names_one_type(idx: int, h1: u8, l1: u8, s1: bool, h2: u8, l2: u8, s2: bool)
    requires
        ranks_of_index(idx, h1, l1, s1),
        ranks_of_index(idx, h2, l2, s2),
    ensures
        h1 == h2,
        l1 == l2,
        s1 == s2,
{
    lemma_triangle_values();
}

} // verus!
