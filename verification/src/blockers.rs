use vstd::prelude::*;

use crate::card::Card;
use crate::equity::HandRange;
use crate::equity_cache::{expand_combo, hands_overlap, ranks_of_index, type_hands};
use crate::equity::hands_view;

verus! {

/// Number of hand types: 13 pairs, 78 suited and 78 offsuit.
pub const HAND_TYPES: usize = 169;

/// Whether two holdings share a card.
pub open spec fn share_card(a: [Card; 2], b: [Card; 2]) -> bool {
    a[0] == b[0] || a[0] == b[1] || a[1] == b[0] || a[1] == b[1]
}

/// How many of the holdings share no card with `hero`.
pub open spec fn unblocked_count(hero: [Card; 2], villains: Seq<[Card; 2]>) -> nat
    decreases villains.len(),
{
    if villains.len() == 0 {
        0
    } else {
        unblocked_count(hero, villains.drop_last()) + if share_card(hero, villains.last()) {
            0nat
        } else {
            1nat
        }
    }
}

/// How many holdings of the range share no card with `hero`, as a byte.
pub fn count_unblocked(hero: [Card; 2], villains: &HandRange) -> (n: u8)
    ensures
        n == unblocked_count(hero, villains@) as u8,
{
    let mut count: usize = 0;
    let mut i: usize = 0;
    assert(villains@.take(0) =~= Seq::<[Card; 2]>::empty());
    while i < villains.len()
        invariant
            i <= villains.len(),
            count == unblocked_count(hero, villains@.take(i as int)),
            count <= i,
        decreases villains.len() - i,
    {
        assert(villains@.take(i + 1).drop_last() =~= villains@.take(i as int));
        if !hands_overlap(hero, villains[i]) {
            count += 1;
        }
        i += 1;
    }
    assert(villains@.take(i as int) =~= villains@);
    count as u8
}

/// For every holding of every type, how many holdings of each type share no
/// card with it (types without holdings count 0).
pub fn build_unblocked(combos: &[HandRange]) -> (r: Vec<Vec<[u8; 169]>>)
    requires
        combos.len() <= HAND_TYPES,
    ensures
        r.len() == combos.len(),
        forall|t: int| 0 <= t < combos.len() ==> (#[trigger] r@[t]).len() == combos@[t].len(),
        forall|t: int, h: int, v: int|
            0 <= t < combos.len() && 0 <= h < combos@[t].len() && 0 <= v < 169 ==> #[trigger] r@[t]@[h][v]
                == if v < combos.len() {
                unblocked_count(combos@[t]@[h], combos@[v]@) as u8
            } else {
                0u8
            },
{
    let mut out: Vec<Vec<[u8; 169]>> = Vec::new();
    let mut t: usize = 0;
    while t < combos.len()
        invariant
            t <= combos.len() <= HAND_TYPES,
            out.len() == t,
            forall|a: int| 0 <= a < t ==> (#[trigger] out@[a]).len() == combos@[a].len(),
            forall|a: int, h: int, v: int|
                0 <= a < t && 0 <= h < combos@[a].len() && 0 <= v < 169 ==> #[trigger] out@[a]@[h][v]
                    == if v < combos.len() {
                    unblocked_count(combos@[a]@[h], combos@[v]@) as u8
                } else {
                    0u8
                },
        decreases combos.len() - t,
    {
        let heroes = &combos[t];
        let mut rows: Vec<[u8; 169]> = Vec::new();
        let mut h: usize = 0;
        while h < heroes.len()
            invariant
                t < combos.len() <= HAND_TYPES,
                heroes@ == combos@[t as int]@,
                h <= heroes.len(),
                rows.len() == h,
                forall|b: int, v: int|
                    0 <= b < h && 0 <= v < 169 ==> #[trigger] rows@[b][v] == if v < combos.len() {
                        unblocked_count(heroes@[b], combos@[v]@) as u8
                    } else {
                        0u8
                    },
            decreases heroes.len() - h,
        {
            let hero = heroes[h];
            let mut counts: [u8; 169] = [0u8; 169];
            let mut v: usize = 0;
            while v < combos.len()
                invariant
                    v <= combos.len() <= HAND_TYPES,
                    forall|w: int| 0 <= w < 169 ==> #[trigger] counts[w] == if w < v {
                        unblocked_count(hero, combos@[w]@) as u8
                    } else {
                        0u8
                    },
                decreases combos.len() - v,
            {
                counts[v] = count_unblocked(hero, &combos[v]);
                v += 1;
            }
            rows.push(counts);
            h += 1;
        }
        out.push(rows);
        t += 1;
    }
    out
}

/// The holdings of a hand type, by its index.
pub fn expand_hand_to_combos(hand_idx: u8) -> (combos: HandRange)
    ensures
        exists|high: u8, low: u8, suited: bool|
            ranks_of_index(hand_idx as int, high, low, suited) && hands_view(combos@) == type_hands(
                high,
                low,
                suited,
            ),
{
    expand_combo(hand_idx)
}

} // verus!
