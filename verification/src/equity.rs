use vstd::prelude::*;

use crate::card::{group_card, law_card_letters, rank_letters, spec_rank_of_char, rank_char_to_u8, Card};
use crate::text::{
    chars_of, is_ws, lemma_split_join, spec_trim, spec_trim_end, spec_trim_start, split_on, sub_chars, trim_chars,
};

verus! {

broadcast use group_card;

/// The possible two-card holdings of one player.
pub type HandRange = Vec<[Card; 2]>;

/// A two-card holding as a pair of cards.
pub type Hand = (Card, Card);

pub open spec fn hand_of(h: [Card; 2]) -> Hand {
    (h[0], h[1])
}

/// The holdings of a range as pairs of cards.
pub open spec fn hands_view(v: Seq<[Card; 2]>) -> Seq<Hand> {
    v.map_values(|h: [Card; 2]| hand_of(h))
}

pub open spec fn card_key(c: Card) -> int {
    (c.rank_of() - 2) * 4 + c.suit_of()
}

/// Position of a holding in the order of first card, then second card, each
/// by rank and then suit.
pub open spec fn hand_key(h: Hand) -> int {
    card_key(h.0) * 52 + card_key(h.1)
}

/// The two cards with the higher one first: by rank, and by suit within a rank.
pub open spec fn spec_normalize(a: Card, b: Card) -> Hand {
    if a.rank_of() > b.rank_of() || (a.rank_of() == b.rank_of() && a.suit_of() > b.suit_of()) {
        (a, b)
    } else {
        (b, a)
    }
}

pub open spec fn mk(rank: int, suit: int) -> Card {
    Card::spec_new(rank as u8, suit as u8)
}

/// The six holdings of a pair of the rank.
pub open spec fn pair_hands(r: int) -> Seq<Hand> {
    seq![
        spec_normalize(mk(r, 0), mk(r, 1)),
        spec_normalize(mk(r, 0), mk(r, 2)),
        spec_normalize(mk(r, 0), mk(r, 3)),
        spec_normalize(mk(r, 1), mk(r, 2)),
        spec_normalize(mk(r, 1), mk(r, 3)),
        spec_normalize(mk(r, 2), mk(r, 3)),
    ]
}

/// The four holdings of two ranks in one suit.
pub open spec fn suited_hands(high: int, low: int) -> Seq<Hand> {
    seq![
        spec_normalize(mk(high, 0), mk(low, 0)),
        spec_normalize(mk(high, 1), mk(low, 1)),
        spec_normalize(mk(high, 2), mk(low, 2)),
        spec_normalize(mk(high, 3), mk(low, 3)),
    ]
}

/// The twelve holdings of two ranks in two different suits.
pub open spec fn offsuit_hands(high: int, low: int) -> Seq<Hand> {
    seq![
        spec_normalize(mk(high, 0), mk(low, 1)),
        spec_normalize(mk(high, 0), mk(low, 2)),
        spec_normalize(mk(high, 0), mk(low, 3)),
        spec_normalize(mk(high, 1), mk(low, 0)),
        spec_normalize(mk(high, 1), mk(low, 2)),
        spec_normalize(mk(high, 1), mk(low, 3)),
        spec_normalize(mk(high, 2), mk(low, 0)),
        spec_normalize(mk(high, 2), mk(low, 1)),
        spec_normalize(mk(high, 2), mk(low, 3)),
        spec_normalize(mk(high, 3), mk(low, 0)),
        spec_normalize(mk(high, 3), mk(low, 1)),
        spec_normalize(mk(high, 3), mk(low, 2)),
    ]
}

/// The pairs of every rank from `lo` up to `hi`.
pub open spec fn pairs_over(lo: int, hi: int) -> Seq<Hand>
    decreases hi - lo + 1,
{
    if hi < lo {
        Seq::empty()
    } else {
        pairs_over(lo, hi - 1) + pair_hands(hi)
    }
}

/// The suited holdings of `high` with every rank from `lo` up to `hi`.
pub open spec fn suited_over(high: int, lo: int, hi: int) -> Seq<Hand>
    decreases hi - lo + 1,
{
    if hi < lo {
        Seq::empty()
    } else {
        suited_over(high, lo, hi - 1) + suited_hands(high, hi)
    }
}

/// The offsuit holdings of `high` with every rank from `lo` up to `hi`.
pub open spec fn offsuit_over(high: int, lo: int, hi: int) -> Seq<Hand>
    decreases hi - lo + 1,
{
    if hi < lo {
        Seq::empty()
    } else {
        offsuit_over(high, lo, hi - 1) + offsuit_hands(high, hi)
    }
}

/// What a notation such as `AA`, `AKs` or `T9o` says: the higher rank, the
/// lower rank (none for a pair), and whether the cards are suited (none when
/// not said).
pub open spec fn spec_notation(t: Seq<char>) -> (Option<u8>, Option<u8>, Option<bool>) {
    if t.len() == 0 {
        (None, None, None)
    } else if t.len() == 2 && spec_rank_of_char(t[0]) is Some && spec_rank_of_char(t[0])
        == spec_rank_of_char(t[1]) {
        (spec_rank_of_char(t[0]), None, None)
    } else if t.len() == 3 && spec_rank_of_char(t[0]) is Some && spec_rank_of_char(t[1]) is Some {
        let a = spec_rank_of_char(t[0])->0;
        let b = spec_rank_of_char(t[1])->0;
        let suited = if t[2] == 's' || t[2] == 'S' {
            Some(true)
        } else if t[2] == 'o' || t[2] == 'O' {
            Some(false)
        } else {
            None
        };
        if a < b {
            (Some(b), Some(a), suited)
        } else {
            (Some(a), Some(b), suited)
        }
    } else {
        (None, None, None)
    }
}

/// `t` without its trailing `+` signs.
pub open spec fn trim_plus(t: Seq<char>) -> Seq<char>
    decreases t.len(),
{
    if t.len() > 0 && t.last() == '+' {
        trim_plus(t.drop_last())
    } else {
        t
    }
}

/// The holdings of one notation, with a trailing `+` meaning "and better".
pub open spec fn notation_hands(token: Seq<char>, allow_plus: bool) -> Seq<Hand> {
    let plus = allow_plus || (token.len() > 0 && token.last() == '+');
    let (high, low, suited) = spec_notation(trim_plus(token));
    if low is None {
        match high {
            Some(r) => if plus {
                pairs_over(r as int, 14)
            } else {
                pair_hands(r as int)
            },
            None => Seq::empty(),
        }
    } else {
        let h = high->0 as int;
        let l = low->0 as int;
        if plus {
            match suited {
                Some(true) => suited_over(h, l, h - 1),
                Some(false) => offsuit_over(h, l, h - 1),
                None => Seq::empty(),
            }
        } else {
            match suited {
                Some(true) => suited_hands(h, l),
                Some(false) => offsuit_hands(h, l),
                None => pair_hands(h),
            }
        }
    }
}

/// The holdings for one rank of a span such as `A2s-A5s`.
pub open spec fn span_step(high: Option<u8>, suited: Option<bool>, rank: int) -> Seq<Hand> {
    if high == Some(rank as u8) {
        pair_hands(rank)
    } else if suited == Some(true) {
        suited_hands(high->0 as int, rank)
    } else if suited == Some(false) {
        offsuit_hands(high->0 as int, rank)
    } else {
        Seq::empty()
    }
}

pub open spec fn span_over(high: Option<u8>, suited: Option<bool>, lo: int, hi: int) -> Seq<Hand>
    decreases hi - lo + 1,
{
    if hi < lo {
        Seq::empty()
    } else {
        span_over(high, suited, lo, hi - 1) + span_step(high, suited, hi)
    }
}

pub open spec fn min_int(a: int, b: int) -> int {
    if a < b { a } else { b }
}

pub open spec fn max_int(a: int, b: int) -> int {
    if a < b { b } else { a }
}

/// The holdings of a span `left-right`: both ends must share the higher rank
/// and the suitedness; the lower ranks between the ends are taken.
pub open spec fn span_hands(left: Seq<char>, right: Seq<char>) -> Seq<Hand> {
    let (lh, ll, ls) = spec_notation(left);
    let (rh, rl, rs) = spec_notation(right);
    if lh != rh || ls != rs {
        Seq::empty()
    } else if ll is None && rl is None {
        if lh is Some && rh is Some {
            pairs_over(
                min_int(lh->0 as int, rh->0 as int),
                max_int(lh->0 as int, rh->0 as int),
            )
        } else {
            Seq::empty()
        }
    } else if ll == rl {
        match lh {
            Some(r) => pair_hands(r as int),
            None => Seq::empty(),
        }
    } else if ll is Some && rl is Some {
        span_over(
            lh,
            ls,
            min_int(ll->0 as int, rl->0 as int),
            max_int(ll->0 as int, rl->0 as int),
        )
    } else {
        Seq::empty()
    }
}

/// Index of the first occurrence of `c` in `s`.
pub open spec fn find_char(s: Seq<char>, c: char) -> Option<int>
    decreases s.len(),
{
    if s.len() == 0 {
        None
    } else if s[0] == c {
        Some(0)
    } else {
        match find_char(s.drop_first(), c) {
            Some(i) => Some(i + 1),
            None => None,
        }
    }
}

/// The holdings that one comma-separated token of a range stands for.
pub open spec fn token_hands(token: Seq<char>) -> Seq<Hand> {
    let t = spec_trim(token);
    if t.len() == 0 {
        Seq::empty()
    } else {
        match find_char(t, '-') {
            Some(i) => span_hands(spec_trim(t.take(i)), spec_trim(t.skip(i + 1))),
            None => notation_hands(t, false),
        }
    }
}

/// The holdings of a list of tokens, in order.
pub open spec fn tokens_hands(tokens: Seq<Seq<char>>) -> Seq<Hand>
    decreases tokens.len(),
{
    if tokens.len() == 0 {
        Seq::empty()
    } else {
        tokens_hands(tokens.drop_last()) + token_hands(tokens.last())
    }
}

/// Every holding that a range text names, before sorting and removing repeats.
pub open spec fn range_hands(s: Seq<char>) -> Seq<Hand> {
    tokens_hands(split_on(s, ','))
}

/// The holdings are in strictly increasing order, so each occurs once.
pub open spec fn strictly_sorted(v: Seq<Hand>) -> bool {
    forall|a: int, b: int| 0 <= a < b < v.len() ==> hand_key(#[trigger] v[a]) < hand_key(#[trigger] v[b])
}

/// `v` holds exactly the holdings of `w`, each once, in increasing order.
pub open spec fn sorted_set_of(v: Seq<Hand>, w: Seq<Hand>) -> bool {
    &&& strictly_sorted(v)
    &&& forall|k: int| 0 <= k < v.len() ==> w.contains(#[trigger] v[k])
    &&& forall|k: int| 0 <= k < w.len() ==> v.contains(#[trigger] w[k])
}

/// Parses a range such as `AA,KK,AKs,AQo+,77+,A2s-A5s` into its holdings,
/// each once, higher card first, in increasing order.
pub fn parse_range(s: &str) -> (combos: HandRange)
    ensures
        sorted_set_of(hands_view(combos@), range_hands(s@)),
{
    let chars = chars_of(s);
    let mut all: HandRange = Vec::new();
    let mut cur: Vec<char> = Vec::new();
    let mut i: usize = 0;
    proof {
        assert(s@.take(0) =~= Seq::<char>::empty());
    }
    while i < chars.len()
        invariant
            i <= chars.len(),
            chars@ == s@,
            hands_view(all@) == tokens_hands(split_on(s@.take(i as int), ',').drop_last()),
            cur@ == split_on(s@.take(i as int), ',').last(),
            split_on(s@.take(i as int), ',').len() >= 1,
        decreases chars.len() - i,
    {
        let c = chars[i];
        let ghost p = split_on(s@.take(i as int), ',');
        assert(s@.take(i + 1).drop_last() =~= s@.take(i as int));
        assert(s@.take(i + 1).last() == c);
        if c == ',' {
            expand_token(&cur, &mut all);
            assert(split_on(s@.take(i + 1), ',').drop_last() =~= p);
            cur = Vec::new();
            assert(cur@ =~= split_on(s@.take(i + 1), ',').last());
        } else {
            cur.push(c);
            assert(split_on(s@.take(i + 1), ',').drop_last() =~= p.drop_last());
        }
        i += 1;
    }
    expand_token(&cur, &mut all);
    proof {
        assert(s@.take(i as int) =~= s@);
        let p = split_on(s@, ',');
        assert(p.drop_last().push(p.last()) =~= p);
    }
    dedup_hands(&mut all);
    all
}

fn find_dash(t: &Vec<char>) -> (r: Option<usize>)
    ensures
        match r {
            Some(i) => find_char(t@, '-') == Some(i as int) && i < t.len(),
            None => find_char(t@, '-') is None,
        },
{
    let mut i: usize = 0;
    while i < t.len()
        invariant
            i <= t.len(),
            forall|k: int| 0 <= k < i ==> t@[k] != '-',
        decreases t.len() - i,
    {
        if t[i] == '-' {
            proof {
                lemma_find_char(t@, '-', i as int);
            }
            return Some(i);
        }
        i += 1;
    }
    proof {
        lemma_find_char(t@, '-', i as int);
    }
    None
}

proof fn lemma_find_char(s: Seq<char>, c: char, i: int)
    requires
        0 <= i <= s.len(),
        forall|k: int| 0 <= k < i ==> s[k] != c,
        i == s.len() || s[i] == c,
    ensures
        i < s.len() ==> find_char(s, c) == Some(i),
        i == s.len() ==> find_char(s, c) is None,
    decreases i,
{
    if i > 0 {
        let t = s.drop_first();
        assert forall|k: int| 0 <= k < i - 1 implies t[k] != c by {
            assert(t[k] == s[k + 1]);
        }
        if i < s.len() {
            assert(t[i - 1] == s[i]);
        }
        lemma_find_char(t, c, i - 1);
    }
}

/// Appends the holdings of one comma-separated token.
fn expand_token(token: &Vec<char>, out: &mut HandRange)
    ensures
        hands_view(final(out)@) == hands_view(old(out)@) + token_hands(token@),
{
    let t = trim_chars(token);
    if t.len() == 0 {
        assert(hands_view(out@) + Seq::<Hand>::empty() =~= hands_view(out@));
        return;
    }
    match find_dash(&t) {
        Some(i) => {
            let left = sub_chars(&t, 0, i);
            let right = sub_chars(&t, i + 1, t.len());
            assert(left@ =~= t@.take(i as int));
            assert(right@ =~= t@.skip(i + 1));
            let left = trim_chars(&left);
            let right = trim_chars(&right);
            expand_notation_range(&left, &right, out);
        },
        None => {
            expand_notation(&t, false, out);
        },
    }
}

/// Appends the holdings of a span `left-right` such as `A2s-A5s`.
fn expand_notation_range(left: &Vec<char>, right: &Vec<char>, out: &mut HandRange)
    ensures
        hands_view(final(out)@) == hands_view(old(out)@) + span_hands(left@, right@),
{
    let (left_high, left_low, left_suited) = parse_hand_notation(left);
    let (right_high, right_low, right_suited) = parse_hand_notation(right);
    proof {
        lemma_notation_ranks(left@);
        lemma_notation_ranks(right@);
    }
    if left_high != right_high || left_suited != right_suited {
        assert(hands_view(out@) + Seq::<Hand>::empty() =~= hands_view(out@));
        return;
    }
    if left_low.is_none() && right_low.is_none() {
        match (left_high, right_high) {
            (Some(start), Some(end)) => {
                let lo = if start < end { start } else { end };
                let hi = if start < end { end } else { start };
                expand_pairs_over(lo, hi, out);
            },
            _ => {
                assert(hands_view(out@) + Seq::<Hand>::empty() =~= hands_view(out@));
            },
        }
        return;
    }
    if left_low == right_low {
        match left_high {
            Some(rank) => expand_pair(rank, out),
            None => {
                assert(hands_view(out@) + Seq::<Hand>::empty() =~= hands_view(out@));
            },
        }
        return;
    }
    match (left_low, right_low) {
        (Some(l), Some(r)) => {
            let start = if l < r { l } else { r };
            let end = if l < r { r } else { l };
            let ghost before = hands_view(out@);
            let mut rank = start;
            assert(before + span_over(left_high, left_suited, start as int, start - 1) =~= before);
            while rank <= end
                invariant
                    2 <= start <= rank <= end + 1,
                    end <= 14,
                    left_high is Some,
                    2 <= left_high->0 <= 14,
                    hands_view(out@) == before + span_over(left_high, left_suited, start as int, rank - 1),
                decreases end + 1 - rank,
            {
                let ghost mid = hands_view(out@);
                if Some(rank) == left_high {
                    expand_pair(rank, out);
                } else if left_suited == Some(true) {
                    expand_suited(left_high.unwrap(), rank, out);
                } else if left_suited == Some(false) {
                    expand_offsuit(left_high.unwrap(), rank, out);
                } else {
                    assert(mid + Seq::<Hand>::empty() =~= mid);
                }
                assert(hands_view(out@) =~= before + span_over(left_high, left_suited, start as int, rank as int));
                rank += 1;
            }
        },
        _ => {
            assert(hands_view(out@) + Seq::<Hand>::empty() =~= hands_view(out@));
        },
    }
}

proof fn lemma_notation_ranks(t: Seq<char>)
    ensures
        spec_notation(t).0 matches Some(h) ==> 2 <= h <= 14,
        spec_notation(t).1 matches Some(l) ==> 2 <= l <= 14 && spec_notation(t).0 is Some && l
            <= spec_notation(t).0->0,
{
}

fn trim_plus_chars(t: &Vec<char>) -> (v: Vec<char>)
    ensures
        v@ == trim_plus(t@),
{
    let mut j = t.len();
    assert(t@.take(j as int) =~= t@);
    while j > 0 && t[j - 1] == '+'
        invariant
            j <= t.len(),
            trim_plus(t@.take(j as int)) == trim_plus(t@),
        decreases j,
    {
        assert(t@.take(j as int).drop_last() =~= t@.take(j - 1));
        j -= 1;
    }
    proof {
        if j == t.len() {
            assert(t@.take(j as int) =~= t@);
        }
    }
    let v = sub_chars(t, 0, j);
    assert(v@ =~= t@.take(j as int));
    v
}

/// Appends the holdings of one notation; a trailing `+` (or `allow_plus`)
/// means the better holdings of the same kind too.
fn expand_notation(token: &Vec<char>, allow_plus: bool, out: &mut HandRange)
    ensures
        hands_view(final(out)@) == hands_view(old(out)@) + notation_hands(token@, allow_plus),
{
    let plus = allow_plus || (token.len() > 0 && token[token.len() - 1] == '+');
    let token = trim_plus_chars(token);
    let (high, low, suited) = parse_hand_notation(&token);
    proof {
        lemma_notation_ranks(token@);
    }
    if low.is_none() {
        match high {
            Some(rank) => {
                if plus {
                    expand_pairs_over(rank, 14, out);
                } else {
                    expand_pair(rank, out);
                }
            },
            None => {
                assert(hands_view(out@) + Seq::<Hand>::empty() =~= hands_view(out@));
            },
        }
        return;
    }
    let high_rank = high.unwrap();
    let low_rank = low.unwrap();
    if plus {
        if suited == Some(true) {
            let ghost before = hands_view(out@);
            let mut rank = low_rank;
            assert(before + suited_over(high_rank as int, low_rank as int, low_rank - 1) =~= before);
            while rank < high_rank
                invariant
                    2 <= low_rank <= rank <= high_rank <= 14,
                    hands_view(out@) == before + suited_over(high_rank as int, low_rank as int, rank - 1),
                decreases high_rank - rank,
            {
                expand_suited(high_rank, rank, out);
                assert(hands_view(out@) =~= before + suited_over(high_rank as int, low_rank as int, rank as int));
                rank += 1;
            }
        } else if suited == Some(false) {
            let ghost before = hands_view(out@);
            let mut rank = low_rank;
            assert(before + offsuit_over(high_rank as int, low_rank as int, low_rank - 1) =~= before);
            while rank < high_rank
                invariant
                    2 <= low_rank <= rank <= high_rank <= 14,
                    hands_view(out@) == before + offsuit_over(high_rank as int, low_rank as int, rank - 1),
                decreases high_rank - rank,
            {
                expand_offsuit(high_rank, rank, out);
                assert(hands_view(out@) =~= before + offsuit_over(high_rank as int, low_rank as int, rank as int));
                rank += 1;
            }
        } else {
            assert(hands_view(out@) + Seq::<Hand>::empty() =~= hands_view(out@));
        }
        return;
    }
    match suited {
        Some(true) => expand_suited(high_rank, low_rank, out),
        Some(false) => expand_offsuit(high_rank, low_rank, out),
        None => expand_pair(high_rank, out),
    }
}

/// Reads a notation: higher rank, lower rank (none for a pair) and suitedness.
fn parse_hand_notation(token: &Vec<char>) -> (r: (Option<u8>, Option<u8>, Option<bool>))
    ensures
        r == spec_notation(token@),
{
    if token.len() == 0 {
        return (None, None, None);
    }
    if token.len() == 2 {
        let first = parse_rank_char(token[0]);
        let second = parse_rank_char(token[1]);
        if first.is_some() && first == second {
            return (first, None, None);
        }
    }
    if token.len() == 3 {
        let first = parse_rank_char(token[0]);
        let second = parse_rank_char(token[1]);
        let suffix = token[2];
        let suited = if suffix == 's' || suffix == 'S' {
            Some(true)
        } else if suffix == 'o' || suffix == 'O' {
            Some(false)
        } else {
            None
        };
        match (first, second) {
            (Some(a), Some(b)) => {
                if a < b {
                    return (Some(b), Some(a), suited);
                } else {
                    return (Some(a), Some(b), suited);
                }
            },
            _ => {},
        }
    }
    (None, None, None)
}

/// Rank code of a rank character, if it is one.
fn parse_rank_char(value: char) -> (r: Option<u8>)
    ensures
        r == spec_rank_of_char(value),
        r matches Some(k) ==> 2 <= k <= 14,
{
    rank_char_to_u8(value)
}

fn push_hand(out: &mut HandRange, a: Card, b: Card)
    ensures
        hands_view(final(out)@) == hands_view(old(out)@).push(spec_normalize(a, b)),
{
    let h = normalize_hand([a, b]);
    out.push(h);
    assert(hands_view(out@) =~= hands_view(old(out)@).push(spec_normalize(a, b)));
}

fn expand_pairs_over(lo: u8, hi: u8, out: &mut HandRange)
    requires
        2 <= lo <= hi,
        hi <= 14,
    ensures
        hands_view(final(out)@) == hands_view(old(out)@) + pairs_over(lo as int, hi as int),
{
    let ghost before = hands_view(out@);
    let mut rank = lo;
    assert(before + pairs_over(lo as int, lo - 1) =~= before);
    while rank <= hi
        invariant
            2 <= lo <= rank,
            hi <= 14,
            rank <= hi + 1,
            hands_view(out@) == before + pairs_over(lo as int, rank - 1),
        decreases hi + 1 - rank,
    {
        expand_pair(rank, out);
        assert(hands_view(out@) =~= before + pairs_over(lo as int, rank as int));
        rank += 1;
    }
}

/// Appends the six holdings of a pair.
pub(crate) fn expand_pair(rank: u8, out: &mut HandRange)
    requires
        2 <= rank <= 14,
    ensures
        hands_view(final(out)@) == hands_view(old(out)@) + pair_hands(rank as int),
{
    let ghost before = hands_view(out@);
    push_hand(out, Card::new(rank, 0), Card::new(rank, 1));
    push_hand(out, Card::new(rank, 0), Card::new(rank, 2));
    push_hand(out, Card::new(rank, 0), Card::new(rank, 3));
    push_hand(out, Card::new(rank, 1), Card::new(rank, 2));
    push_hand(out, Card::new(rank, 1), Card::new(rank, 3));
    push_hand(out, Card::new(rank, 2), Card::new(rank, 3));
    assert(hands_view(out@) =~= before + pair_hands(rank as int));
}

/// Appends the four suited holdings of two ranks.
pub(crate) fn expand_suited(high: u8, low: u8, out: &mut HandRange)
    requires
        2 <= high <= 14,
        2 <= low <= 14,
    ensures
        hands_view(final(out)@) == hands_view(old(out)@) + suited_hands(high as int, low as int),
{
    let ghost before = hands_view(out@);
    push_hand(out, Card::new(high, 0), Card::new(low, 0));
    push_hand(out, Card::new(high, 1), Card::new(low, 1));
    push_hand(out, Card::new(high, 2), Card::new(low, 2));
    push_hand(out, Card::new(high, 3), Card::new(low, 3));
    assert(hands_view(out@) =~= before + suited_hands(high as int, low as int));
}

/// Appends the twelve offsuit holdings of two ranks.
pub(crate) fn expand_offsuit(high: u8, low: u8, out: &mut HandRange)
    requires
        2 <= high <= 14,
        2 <= low <= 14,
    ensures
        hands_view(final(out)@) == hands_view(old(out)@) + offsuit_hands(high as int, low as int),
{
    let ghost before = hands_view(out@);
    push_hand(out, Card::new(high, 0), Card::new(low, 1));
    push_hand(out, Card::new(high, 0), Card::new(low, 2));
    push_hand(out, Card::new(high, 0), Card::new(low, 3));
    push_hand(out, Card::new(high, 1), Card::new(low, 0));
    push_hand(out, Card::new(high, 1), Card::new(low, 2));
    push_hand(out, Card::new(high, 1), Card::new(low, 3));
    push_hand(out, Card::new(high, 2), Card::new(low, 0));
    push_hand(out, Card::new(high, 2), Card::new(low, 1));
    push_hand(out, Card::new(high, 2), Card::new(low, 3));
    push_hand(out, Card::new(high, 3), Card::new(low, 0));
    push_hand(out, Card::new(high, 3), Card::new(low, 1));
    push_hand(out, Card::new(high, 3), Card::new(low, 2));
    assert(hands_view(out@) =~= before + offsuit_hands(high as int, low as int));
}

/// The two cards with the higher one first.
pub fn normalize_hand(hand: [Card; 2]) -> (r: [Card; 2])
    ensures
        hand_of(r) == spec_normalize(hand[0], hand[1]),
{
    if hand[0].rank() > hand[1].rank() || (hand[0].rank() == hand[1].rank() && hand[0].suit()
        > hand[1].suit()) {
        hand
    } else {
        [hand[1], hand[0]]
    }
}

pub open spec fn card_valid(c: Card) -> bool {
    2 <= c.rank_of() <= 14 && c.suit_of() <= 3
}

pub open spec fn hand_valid(h: Hand) -> bool {
    card_valid(h.0) && card_valid(h.1)
}

/// The card with the given position among the 52, ranks first.
pub open spec fn card_at(k: int) -> Card {
    mk(k / 4 + 2, k % 4)
}

/// The holding with the given position among the 52 * 52 pairs of cards.
pub open spec fn hand_at(k: int) -> Hand {
    (card_at(k / 52), card_at(k % 52))
}

proof fn lemma_card_key_roundtrip(c: Card)
    requires
        card_valid(c),
    ensures
        0 <= card_key(c) < 52,
        card_at(card_key(c)) == c,
{
    let k = card_key(c);
    assert(k / 4 == c.rank_of() - 2);
    assert(k % 4 == c.suit_of());
}

proof fn lemma_hand_key_roundtrip(h: Hand)
    requires
        hand_valid(h),
    ensures
        0 <= hand_key(h) < 2704,
        hand_at(hand_key(h)) == h,
{
    lemma_card_key_roundtrip(h.0);
    lemma_card_key_roundtrip(h.1);
    let k = hand_key(h);
    assert(k / 52 == card_key(h.0));
    assert(k % 52 == card_key(h.1));
}

proof fn lemma_hand_at_key(k: int)
    requires
        0 <= k < 2704,
    ensures
        hand_key(hand_at(k)) == k,
        hand_valid(hand_at(k)),
{
    let a = k / 52;
    let b = k % 52;
    assert(0 <= a < 52 && 0 <= b < 52);
    assert(card_key(card_at(a)) == a);
    assert(card_key(card_at(b)) == b);
}

fn card_from_index(k: usize) -> (c: Card)
    requires
        k < 52,
    ensures
        c == card_at(k as int),
{
    Card::new((k / 4) as u8 + 2, (k % 4) as u8)
}

fn hand_index(h: [Card; 2]) -> (k: usize)
    ensures
        k == hand_key(hand_of(h)),
        hand_valid(hand_of(h)),
        k < 2704,
{
    let a = ((h[0].rank() - 2) as usize) * 4 + h[0].suit() as usize;
    let b = ((h[1].rank() - 2) as usize) * 4 + h[1].suit() as usize;
    a * 52 + b
}

/// Puts the holdings in increasing order and removes repeats.
fn dedup_hands(hands: &mut HandRange)
    ensures
        sorted_set_of(hands_view(final(hands)@), hands_view(old(hands)@)),
{
    let ghost w = hands_view(hands@);
    let mut present: Vec<bool> = Vec::new();
    let mut k: usize = 0;
    while k < 2704
        invariant
            k <= 2704,
            present.len() == k,
            forall|m: int| 0 <= m < k ==> !present[m],
        decreases 2704 - k,
    {
        present.push(false);
        k += 1;
    }
    let mut i: usize = 0;
    while i < hands.len()
        invariant
            i <= hands.len(),
            w == hands_view(hands@),
            present.len() == 2704,
            forall|j: int| 0 <= j < i ==> hand_valid(#[trigger] w[j]),
            forall|j: int| 0 <= j < i ==> present[hand_key(#[trigger] w[j])],
            forall|m: int|
                0 <= m < 2704 && #[trigger] present[m] ==> exists|j: int| 0 <= j < i && hand_key(#[trigger] w[j]) == m,
        decreases hands.len() - i,
    {
        let idx = hand_index(hands[i]);
        assert(w[i as int] == hand_of(hands@[i as int]));
        present.set(idx, true);
        proof {
            assert forall|m: int| 0 <= m < 2704 && #[trigger] present[m] implies exists|j: int|
                0 <= j < i + 1 && hand_key(#[trigger] w[j]) == m by {
                if m == idx {
                    assert(hand_key(w[i as int]) == m);
                }
            }
        }
        i += 1;
    }
    let mut out: HandRange = Vec::new();
    let mut k: usize = 0;
    while k < 2704
        invariant
            k <= 2704,
            present.len() == 2704,
            forall|j: int| 0 <= j < w.len() ==> hand_valid(#[trigger] w[j]),
            forall|j: int| 0 <= j < w.len() ==> present[hand_key(#[trigger] w[j])],
            forall|m: int|
                0 <= m < 2704 && #[trigger] present[m] ==> exists|j: int| 0 <= j < w.len() && hand_key(#[trigger] w[j]) == m,
            forall|a: int| 0 <= a < out.len() ==> hand_key(#[trigger] hands_view(out@)[a]) < k,
            strictly_sorted(hands_view(out@)),
            forall|a: int| 0 <= a < out.len() ==> w.contains(#[trigger] hands_view(out@)[a]),
            forall|m: int| 0 <= m < k && #[trigger] present[m] ==> hands_view(out@).contains(hand_at(m)),
        decreases 2704 - k,
    {
        if present[k] {
            let ghost before = hands_view(out@);
            let h = [card_from_index(k / 52), card_from_index(k % 52)];
            proof {
                lemma_hand_at_key(k as int);
                let j = choose|j: int| 0 <= j < w.len() && hand_key(#[trigger] w[j]) == k;
                lemma_hand_key_roundtrip(w[j]);
                assert(w[j] == hand_at(k as int));
            }
            out.push(h);
            assert(hands_view(out@) =~= before.push(hand_at(k as int)));
            proof {
                assert(hands_view(out@)[out.len() - 1] == hand_at(k as int));
                assert forall|m: int| 0 <= m < k + 1 && #[trigger] present[m] implies hands_view(out@).contains(hand_at(m)) by {
                    if m < k {
                        let a = choose|a: int| 0 <= a < before.len() && before[a] == hand_at(m);
                        assert(hands_view(out@)[a] == hand_at(m));
                    } else {
                        assert(hands_view(out@)[out.len() - 1] == hand_at(m));
                    }
                }
            }
        }
        k += 1;
    }
    proof {
        assert forall|j: int| 0 <= j < w.len() implies hands_view(out@).contains(#[trigger] w[j]) by {
            lemma_hand_key_roundtrip(w[j]);
            assert(present[hand_key(w[j])]);
        }
    }
    *hands = out;
}

proof fn lemma_tokens_join(t1: Seq<Seq<char>>, t2: Seq<Seq<char>>)
    ensures
        tokens_hands(t1 + t2) == tokens_hands(t1) + tokens_hands(t2),
    decreases t2.len(),
{
    if t2.len() == 0 {
        assert(t1 + t2 =~= t1);
        assert(tokens_hands(t1) + tokens_hands(t2) =~= tokens_hands(t1));
    } else {
        lemma_tokens_join(t1, t2.drop_last());
        assert((t1 + t2).drop_last() =~= t1 + t2.drop_last());
        assert((t1 + t2).last() == t2.last());
        assert(tokens_hands(t1) + tokens_hands(t2.drop_last()) + token_hands(t2.last()) =~= tokens_hands(
            t1,
        ) + tokens_hands(t2));
    }
}

/// A range joined from two texts by a comma names the holdings of the one
/// followed by those of the other.
pub proof fn lemma_range_join(a: Seq<char>, b: Seq<char>)
    ensures
        range_hands(a + seq![','] + b) == range_hands(a) + range_hands(b),
{
    lemma_split_join(a, b, ',');
    lemma_tokens_join(split_on(a, ','), split_on(b, ','));
}

/// Parsing `a,b` gives the sorted, repeat-free union of what parsing `a`
/// and parsing `b` give: each holding of either once, in increasing order.
/// So the order of the tokens and repeated tokens do not matter.
pub proof fn law_range_union(a: Seq<char>, b: Seq<char>, va: Seq<Hand>, vb: Seq<Hand>, vab: Seq<Hand>)
    requires
        sorted_set_of(va, range_hands(a)),
        sorted_set_of(vb, range_hands(b)),
        sorted_set_of(vab, range_hands(a + seq![','] + b)),
    ensures
        sorted_set_of(vab, va + vb),
{
    lemma_range_join(a, b);
    let ra = range_hands(a);
    let rb = range_hands(b);
    let w = va + vb;
    assert forall|k: int| 0 <= k < vab.len() implies w.contains(#[trigger] vab[k]) by {
        let h = vab[k];
        let i = choose|i: int| 0 <= i < (ra + rb).len() && (ra + rb)[i] == h;
        if i < ra.len() {
            assert(ra[i] == h);
            let j = choose|j: int| 0 <= j < va.len() && va[j] == h;
            assert(w[j] == h);
        } else {
            assert(rb[i - ra.len()] == h);
            let j = choose|j: int| 0 <= j < vb.len() && vb[j] == h;
            assert(w[va.len() + j] == h);
        }
    }
    assert forall|k: int| 0 <= k < w.len() implies vab.contains(#[trigger] w[k]) by {
        let h = w[k];
        if k < va.len() {
            assert(va[k] == h);
            let i = choose|i: int| 0 <= i < ra.len() && ra[i] == h;
            assert((ra + rb)[i] == h);
        } else {
            assert(vb[k - va.len()] == h);
            let i = choose|i: int| 0 <= i < rb.len() && rb[i] == h;
            assert((ra + rb)[ra.len() + i] == h);
        }
    }
}

/// Two strictly increasing lists that hold the same holdings are equal.
proof fn lemma_same_sorted(v1: Seq<Hand>, v2: Seq<Hand>)
    requires
        strictly_sorted(v1),
        strictly_sorted(v2),
        forall|k: int| 0 <= k < v1.len() ==> v2.contains(#[trigger] v1[k]),
        forall|k: int| 0 <= k < v2.len() ==> v1.contains(#[trigger] v2[k]),
    ensures
        v1 == v2,
    decreases v1.len(),
{
    if v1.len() == 0 {
        if v2.len() > 0 {
            assert(v1.contains(v2[0]));
        }
        assert(v1 =~= v2);
    } else {
        if v2.len() == 0 {
            assert(v2.contains(v1[0]));
        }
        assert(v1.contains(v2[0]));
        assert(v2.contains(v1[0]));
        let i = choose|i: int| 0 <= i < v1.len() && v1[i] == v2[0];
        let j = choose|j: int| 0 <= j < v2.len() && v2[j] == v1[0];
        if i > 0 {
            assert(hand_key(v1[0]) < hand_key(v1[i]));
            if j > 0 {
                assert(hand_key(v2[0]) < hand_key(v2[j]));
            }
            assert(false);
        }
        assert(v1[0] == v2[0]);
        let r1 = v1.drop_first();
        let r2 = v2.drop_first();
        assert forall|k: int| 0 <= k < r1.len() implies r2.contains(#[trigger] r1[k]) by {
            assert(r1[k] == v1[k + 1]);
            assert(v2.contains(v1[k + 1]));
            let m = choose|m: int| 0 <= m < v2.len() && v2[m] == v1[k + 1];
            assert(hand_key(v1[0]) < hand_key(v1[k + 1]));
            assert(m != 0);
            assert(r2[m - 1] == v1[k + 1]);
        }
        assert forall|k: int| 0 <= k < r2.len() implies r1.contains(#[trigger] r2[k]) by {
            assert(r2[k] == v2[k + 1]);
            assert(v1.contains(v2[k + 1]));
            let m = choose|m: int| 0 <= m < v1.len() && v1[m] == v2[k + 1];
            assert(hand_key(v2[0]) < hand_key(v2[k + 1]));
            assert(m != 0);
            assert(r1[m - 1] == v2[k + 1]);
        }
        lemma_same_sorted(r1, r2);
        assert(v1 =~= seq![v1[0]] + r1);
        assert(v2 =~= seq![v2[0]] + r2);
    }
}

/// The holdings of a list, each once and in increasing order, are one list
/// only: what a range parses to is fixed by which holdings it names.
pub proof fn law_sorted_set_unique(v1: Seq<Hand>, v2: Seq<Hand>, w: Seq<Hand>)
    requires
        sorted_set_of(v1, w),
        sorted_set_of(v2, w),
    ensures
        v1 == v2,
{
    assert forall|k: int| 0 <= k < v1.len() implies v2.contains(#[trigger] v1[k]) by {
        let i = choose|i: int| 0 <= i < w.len() && w[i] == v1[k];
        assert(v2.contains(w[i]));
    }
    assert forall|k: int| 0 <= k < v2.len() implies v1.contains(#[trigger] v2[k]) by {
        let i = choose|i: int| 0 <= i < w.len() && w[i] == v2[k];
        assert(v1.contains(w[i]));
    }
    lemma_same_sorted(v1, v2);
}

/// Parsing `a,b` and parsing `b,a` give the same list: the order of the
/// tokens does not matter.
pub proof fn law_range_swap(a: Seq<char>, b: Seq<char>, vab: Seq<Hand>, vba: Seq<Hand>)
    requires
        sorted_set_of(vab, range_hands(a + seq![','] + b)),
        sorted_set_of(vba, range_hands(b + seq![','] + a)),
    ensures
        vab == vba,
{
    lemma_range_join(a, b);
    lemma_range_join(b, a);
    let ra = range_hands(a);
    let rb = range_hands(b);
    assert forall|k: int| 0 <= k < vab.len() implies vba.contains(#[trigger] vab[k]) by {
        let i = choose|i: int| 0 <= i < (ra + rb).len() && (ra + rb)[i] == vab[k];
        if i < ra.len() {
            assert((rb + ra)[rb.len() + i] == vab[k]);
            assert(vba.contains((rb + ra)[rb.len() + i]));
        } else {
            assert((rb + ra)[i - ra.len()] == vab[k]);
            assert(vba.contains((rb + ra)[i - ra.len()]));
        }
    }
    assert forall|k: int| 0 <= k < vba.len() implies vab.contains(#[trigger] vba[k]) by {
        let i = choose|i: int| 0 <= i < (rb + ra).len() && (rb + ra)[i] == vba[k];
        if i < rb.len() {
            assert((ra + rb)[ra.len() + i] == vba[k]);
            assert(vab.contains((ra + rb)[ra.len() + i]));
        } else {
            assert((ra + rb)[i - rb.len()] == vba[k]);
            assert(vab.contains((ra + rb)[i - rb.len()]));
        }
    }
    lemma_same_sorted(vab, vba);
}

/// Parsing `a,a` gives what parsing `a` gives: a repeated token adds nothing.
pub proof fn law_range_repeat(a: Seq<char>, va: Seq<Hand>, vaa: Seq<Hand>)
    requires
        sorted_set_of(va, range_hands(a)),
        sorted_set_of(vaa, range_hands(a + seq![','] + a)),
    ensures
        vaa == va,
{
    law_range_union(a, a, va, va, vaa);
    let w = va + va;
    assert forall|k: int| 0 <= k < vaa.len() implies va.contains(#[trigger] vaa[k]) by {
        let i = choose|i: int| 0 <= i < w.len() && w[i] == vaa[k];
        if i < va.len() {
            assert(va[i] == vaa[k]);
        } else {
            assert(va[i - va.len()] == vaa[k]);
        }
    }
    assert forall|k: int| 0 <= k < va.len() implies vaa.contains(#[trigger] va[k]) by {
        assert(w[k] == va[k]);
        assert(vaa.contains(w[k]));
    }
    lemma_same_sorted(vaa, va);
}

/// The holding of a card of rank `r1`, suit `s1` and a card of rank `r2`,
/// suit `s2`, in that order.
pub open spec fn holding(r1: int, s1: int, r2: int, s2: int) -> Hand {
    (Card::spec_new(r1 as u8, s1 as u8), Card::spec_new(r2 as u8, s2 as u8))
}

proof fn lemma_contains_concat(a: Seq<Hand>, b: Seq<Hand>, h: Hand)
    ensures
        (a + b).contains(h) <==> a.contains(h) || b.contains(h),
{
    if (a + b).contains(h) {
        let i = choose|i: int| 0 <= i < (a + b).len() && (a + b)[i] == h;
        if i < a.len() {
            assert(a[i] == h);
        } else {
            assert(b[i - a.len()] == h);
        }
    }
    if a.contains(h) {
        let i = choose|i: int| 0 <= i < a.len() && a[i] == h;
        assert((a + b)[i] == h);
    }
    if b.contains(h) {
        let i = choose|i: int| 0 <= i < b.len() && b[i] == h;
        assert((a + b)[a.len() + i] == h);
    }
}

proof fn lemma_suited_hands_has(high: int, r: int, h: Hand)
    requires
        2 <= r < high <= 14,
    ensures
        suited_hands(high, r).contains(h) <==> exists|s: int| 0 <= s < 4 && h == #[trigger] holding(high, s, r, s),
{
    let v = suited_hands(high, r);
    assert(v[0] == holding(high, 0, r, 0));
    assert(v[1] == holding(high, 1, r, 1));
    assert(v[2] == holding(high, 2, r, 2));
    assert(v[3] == holding(high, 3, r, 3));
    if v.contains(h) {
        let i = choose|i: int| 0 <= i < v.len() && v[i] == h;
        assert(h == holding(high, i, r, i));
    }
    if exists|s: int| 0 <= s < 4 && h == #[trigger] holding(high, s, r, s) {
        let s = choose|s: int| 0 <= s < 4 && h == #[trigger] holding(high, s, r, s);
        assert(v[s] == h);
    }
}

proof fn lemma_offsuit_hands_has(high: int, r: int, h: Hand)
    requires
        2 <= r < high <= 14,
    ensures
        offsuit_hands(high, r).contains(h) <==> exists|s1: int, s2: int|
            0 <= s1 < 4 && 0 <= s2 < 4 && s1 != s2 && h == #[trigger] holding(high, s1, r, s2),
{
    let v = offsuit_hands(high, r);
    assert(v[0] == holding(high, 0, r, 1));
    assert(v[1] == holding(high, 0, r, 2));
    assert(v[2] == holding(high, 0, r, 3));
    assert(v[3] == holding(high, 1, r, 0));
    assert(v[4] == holding(high, 1, r, 2));
    assert(v[5] == holding(high, 1, r, 3));
    assert(v[6] == holding(high, 2, r, 0));
    assert(v[7] == holding(high, 2, r, 1));
    assert(v[8] == holding(high, 2, r, 3));
    assert(v[9] == holding(high, 3, r, 0));
    assert(v[10] == holding(high, 3, r, 1));
    assert(v[11] == holding(high, 3, r, 2));
    if v.contains(h) {
        let i = choose|i: int| 0 <= i < v.len() && v[i] == h;
        let s1 = i / 3;
        let k = i % 3;
        let s2 = if k < s1 { k } else { k + 1 };
        assert(h == holding(high, s1, r, s2));
    }
    if exists|s1: int, s2: int| 0 <= s1 < 4 && 0 <= s2 < 4 && s1 != s2 && h == #[trigger] holding(high, s1, r, s2) {
        let (s1, s2) = choose|s1: int, s2: int|
            0 <= s1 < 4 && 0 <= s2 < 4 && s1 != s2 && h == #[trigger] holding(high, s1, r, s2);
        let i = s1 * 3 + if s2 < s1 { s2 } else { s2 - 1 };
        assert(v[i] == h);
    }
}

proof fn lemma_pair_hands_has(q: int, h: Hand)
    requires
        2 <= q <= 14,
    ensures
        pair_hands(q).contains(h) <==> exists|s1: int, s2: int|
            0 <= s2 < s1 < 4 && h == #[trigger] holding(q, s1, q, s2),
{
    let v = pair_hands(q);
    assert(v[0] == holding(q, 1, q, 0));
    assert(v[1] == holding(q, 2, q, 0));
    assert(v[2] == holding(q, 3, q, 0));
    assert(v[3] == holding(q, 2, q, 1));
    assert(v[4] == holding(q, 3, q, 1));
    assert(v[5] == holding(q, 3, q, 2));
    if v.contains(h) {
        let i = choose|i: int| 0 <= i < v.len() && v[i] == h;
        if i == 0 { assert(h == holding(q, 1, q, 0)); }
        else if i == 1 { assert(h == holding(q, 2, q, 0)); }
        else if i == 2 { assert(h == holding(q, 3, q, 0)); }
        else if i == 3 { assert(h == holding(q, 2, q, 1)); }
        else if i == 4 { assert(h == holding(q, 3, q, 1)); }
        else { assert(h == holding(q, 3, q, 2)); }
    }
    if exists|s1: int, s2: int| 0 <= s2 < s1 < 4 && h == #[trigger] holding(q, s1, q, s2) {
        let (s1, s2) = choose|s1: int, s2: int| 0 <= s2 < s1 < 4 && h == #[trigger] holding(q, s1, q, s2);
        if s2 == 0 {
            assert(v[s1 - 1] == h);
        } else if s2 == 1 {
            assert(v[s1 + 1] == h);
        } else {
            assert(v[5] == h);
        }
    }
}

proof fn lemma_suited_over_has(high: int, lo: int, top: int, h: Hand)
    requires
        2 <= lo,
        top < high <= 14,
    ensures
        suited_over(high, lo, top).contains(h) <==> exists|r: int, s: int|
            lo <= r <= top && 0 <= s < 4 && h == #[trigger] holding(high, s, r, s),
    decreases top - lo + 1,
{
    if top >= lo {
        lemma_suited_over_has(high, lo, top - 1, h);
        lemma_contains_concat(suited_over(high, lo, top - 1), suited_hands(high, top), h);
        lemma_suited_hands_has(high, top, h);
    }
}

proof fn lemma_offsuit_over_has(high: int, lo: int, top: int, h: Hand)
    requires
        2 <= lo,
        top < high <= 14,
    ensures
        offsuit_over(high, lo, top).contains(h) <==> exists|r: int, s1: int, s2: int|
            lo <= r <= top && 0 <= s1 < 4 && 0 <= s2 < 4 && s1 != s2 && h == #[trigger] holding(high, s1, r, s2),
    decreases top - lo + 1,
{
    if top >= lo {
        lemma_offsuit_over_has(high, lo, top - 1, h);
        lemma_contains_concat(offsuit_over(high, lo, top - 1), offsuit_hands(high, top), h);
        lemma_offsuit_hands_has(high, top, h);
    }
}

proof fn lemma_pairs_over_has(lo: int, top: int, h: Hand)
    requires
        2 <= lo,
        top <= 14,
    ensures
        pairs_over(lo, top).contains(h) <==> exists|q: int, s1: int, s2: int|
            lo <= q <= top && 0 <= s2 < s1 < 4 && h == #[trigger] holding(q, s1, q, s2),
    decreases top - lo + 1,
{
    if top >= lo {
        lemma_pairs_over_has(lo, top - 1, h);
        lemma_contains_concat(pairs_over(lo, top - 1), pair_hands(top), h);
        lemma_pair_hands_has(top, h);
    }
}

proof fn lemma_split_no_sep(s: Seq<char>, sep: char)
    requires
        forall|i: int| 0 <= i < s.len() ==> s[i] != sep,
    ensures
        split_on(s, sep) == seq![s],
    decreases s.len(),
{
    if s.len() > 0 {
        lemma_split_no_sep(s.drop_last(), sep);
        assert(s.drop_last().push(s.last()) =~= s);
        assert(seq![s.drop_last()].update(0, s) =~= seq![s]);
    } else {
        assert(s =~= Seq::<char>::empty());
    }
}

/// A range text that is one token without whitespace at its ends, commas or
/// dashes names the holdings of that notation.
proof fn lemma_single_token(t: Seq<char>)
    requires
        t.len() > 0,
        !is_ws(t[0]),
        !is_ws(t.last()),
        forall|i: int| 0 <= i < t.len() ==> t[i] != ',' && t[i] != '-',
    ensures
        range_hands(t) == notation_hands(t, false),
{
    lemma_split_no_sep(t, ',');
    assert(spec_trim_start(t) == t);
    assert(spec_trim_end(t) == t);
    lemma_find_char(t, '-', t.len() as int);
    assert(seq![t].drop_last() =~= Seq::<Seq<char>>::empty());
    assert(seq![t].last() == t);
    assert(tokens_hands(Seq::<Seq<char>>::empty()) == Seq::<Hand>::empty());
    assert(tokens_hands(seq![t]) == tokens_hands(Seq::<Seq<char>>::empty()) + token_hands(t));
    assert(tokens_hands(seq![t]) =~= token_hands(t));
}

proof fn lemma_rank_letter_plain(i: int)
    requires
        0 <= i < 13,
    ensures
        !is_ws(rank_letters()[i]),
        rank_letters()[i] != ',',
        rank_letters()[i] != '-',
        rank_letters()[i] != '+',
        spec_rank_of_char(rank_letters()[i]) == Some((i + 2) as u8),
{
    law_card_letters(i, 0);
}

/// A suited notation with `+`, such as `ATs+`, names the suited holdings of
/// the higher rank with every lower rank from the given one up to one below
/// the higher rank, the higher card first; `XYs+` includes `X(X-1)s`.
pub proof fn law_suited_plus(hi: int, lo: int, h: Hand)
    requires
        2 <= lo < hi <= 14,
    ensures
        range_hands(seq![rank_letters()[hi - 2], rank_letters()[lo - 2], 's', '+']).contains(h)
            <==> exists|r: int, s: int| lo <= r < hi && 0 <= s < 4 && h == #[trigger] holding(hi, s, r, s),
{
    let t = seq![rank_letters()[hi - 2], rank_letters()[lo - 2], 's', '+'];
    lemma_rank_letter_plain(hi - 2);
    lemma_rank_letter_plain(lo - 2);
    lemma_single_token(t);
    assert(t.drop_last() =~= seq![t[0], t[1], 's']);
    assert(trim_plus(t.drop_last()) == t.drop_last());
    assert(trim_plus(t) == t.drop_last());
    assert(notation_hands(t, false) == suited_over(hi, lo, hi - 1));
    lemma_suited_over_has(hi, lo, hi - 1, h);
}

/// An offsuit notation with `+`, such as `AJo+`, names the holdings of the
/// higher rank with every lower rank from the given one up to one below the
/// higher rank, in two different suits, the higher card first.
pub proof fn law_offsuit_plus(hi: int, lo: int, h: Hand)
    requires
        2 <= lo < hi <= 14,
    ensures
        range_hands(seq![rank_letters()[hi - 2], rank_letters()[lo - 2], 'o', '+']).contains(h)
            <==> exists|r: int, s1: int, s2: int|
            lo <= r < hi && 0 <= s1 < 4 && 0 <= s2 < 4 && s1 != s2 && h == #[trigger] holding(hi, s1, r, s2),
{
    let t = seq![rank_letters()[hi - 2], rank_letters()[lo - 2], 'o', '+'];
    lemma_rank_letter_plain(hi - 2);
    lemma_rank_letter_plain(lo - 2);
    lemma_single_token(t);
    assert(t.drop_last() =~= seq![t[0], t[1], 'o']);
    assert(trim_plus(t.drop_last()) == t.drop_last());
    assert(trim_plus(t) == t.drop_last());
    assert(notation_hands(t, false) == offsuit_over(hi, lo, hi - 1));
    lemma_offsuit_over_has(hi, lo, hi - 1, h);
}

/// A pair with `+`, such as `77+`, names every pair from that rank up to
/// aces, the card of the higher suit first.
pub proof fn law_pairs_plus(lo: int, h: Hand)
    requires
        2 <= lo <= 14,
    ensures
        range_hands(seq![rank_letters()[lo - 2], rank_letters()[lo - 2], '+']).contains(h)
            <==> exists|q: int, s1: int, s2: int| lo <= q <= 14 && 0 <= s2 < s1 < 4 && h == #[trigger] holding(q, s1, q, s2),
{
    let t = seq![rank_letters()[lo - 2], rank_letters()[lo - 2], '+'];
    lemma_rank_letter_plain(lo - 2);
    lemma_single_token(t);
    assert(t.drop_last() =~= seq![t[0], t[1]]);
    assert(trim_plus(t.drop_last()) == t.drop_last());
    assert(trim_plus(t) == t.drop_last());
    assert(notation_hands(t, false) == pairs_over(lo, 14));
    lemma_pairs_over_has(lo, 14, h);
}

/// A suited notation such as `AKs` names the four holdings of those two ranks
/// in one suit, the higher card first.
pub proof fn law_suited(hi: int, lo: int, h: Hand)
    requires
        2 <= lo < hi <= 14,
    ensures
        range_hands(seq![rank_letters()[hi - 2], rank_letters()[lo - 2], 's']).contains(h)
            <==> exists|s: int| 0 <= s < 4 && h == #[trigger] holding(hi, s, lo, s),
{
    let t = seq![rank_letters()[hi - 2], rank_letters()[lo - 2], 's'];
    lemma_rank_letter_plain(hi - 2);
    lemma_rank_letter_plain(lo - 2);
    lemma_single_token(t);
    assert(trim_plus(t) == t);
    assert(notation_hands(t, false) == suited_hands(hi, lo));
    lemma_suited_hands_has(hi, lo, h);
}

/// An offsuit notation such as `AKo` names the twelve holdings of those two
/// ranks in two different suits, the higher card first.
pub proof fn law_offsuit(hi: int, lo: int, h: Hand)
    requires
        2 <= lo < hi <= 14,
    ensures
        range_hands(seq![rank_letters()[hi - 2], rank_letters()[lo - 2], 'o']).contains(h)
            <==> exists|s1: int, s2: int| 0 <= s1 < 4 && 0 <= s2 < 4 && s1 != s2 && h == #[trigger] holding(hi, s1, lo, s2),
{
    let t = seq![rank_letters()[hi - 2], rank_letters()[lo - 2], 'o'];
    lemma_rank_letter_plain(hi - 2);
    lemma_rank_letter_plain(lo - 2);
    lemma_single_token(t);
    assert(trim_plus(t) == t);
    assert(notation_hands(t, false) == offsuit_hands(hi, lo));
    lemma_offsuit_hands_has(hi, lo, h);
}

/// A pair notation such as `77` names the six holdings of that pair, the
/// card of the higher suit first.
pub proof fn law_pair(q: int, h: Hand)
    requires
        2 <= q <= 14,
    ensures
        range_hands(seq![rank_letters()[q - 2], rank_letters()[q - 2]]).contains(h)
            <==> exists|s1: int, s2: int| 0 <= s2 < s1 < 4 && h == #[trigger] holding(q, s1, q, s2),
{
    let t = seq![rank_letters()[q - 2], rank_letters()[q - 2]];
    lemma_rank_letter_plain(q - 2);
    lemma_single_token(t);
    assert(trim_plus(t) == t);
    assert(notation_hands(t, false) == pair_hands(q));
    lemma_pair_hands_has(q, h);
}

} // verus!
