//! Flops of three cards of one suit: what a holding makes on them, and
//! which holdings nothing beats.

use super::card::{Card, Suit, Value};
use super::cards::{all_same_suit, descending, of_suit, straight_top, suited, values_of};
use super::flops::{
    is_flop, lemma_count_suit_of_three, lemma_flop_hand, lemma_flop_no_big_groups,
};
use super::flops::lemma_first_rank_decides;
use super::flops_paired::lemma_two_free_hold;
use super::flops_straight::{
    fills,
    lemma_fills_is_straight,
    lemma_fills_misses,
    lemma_flop_present,
    lemma_misses_fills,
    lemma_missing_two,
    lemma_slot_of_rank,
    lemma_straight_fills,
    slot,
};
use super::scan::missing;
use super::showdown::best_of;
use super::strength::lemma_order_trichotomy;
use super::unbeaten::{lemma_holding_on_less, unbeaten};
use super::hand::{grouped, occurs, SortedHandValue};
use super::nuts::flush_suit;
use super::scan::{holds_ordinal, is_top_free, lemma_some_place_free, lemma_top_free_unique, present, top_free};
use super::strength::lex_less;
use super::rank::lemma_occurs_of_five;
use super::rank::{
    lemma_describes_unique, lemma_descending_of_five, lemma_pair_excludes_flush, rank_of,
};
use super::unbeaten::is_holding;
use vstd::prelude::*;

verus! {

/// A flop of three cards of the suit `s`.
pub open spec fn is_suited_flop(flop: Seq<Card>, s: Suit) -> bool {
    &&& is_flop(flop)
    &&& flop[0].1 == s
    &&& flop[1].1 == s
    &&& flop[2].1 == s
}

/// Both cards of the holding have the suit `s`.
pub open spec fn is_suited_to(hole: Seq<Card>, s: Suit) -> bool {
    hole[0].1 == s && hole[1].1 == s
}

/// A flop of three cards of one suit shows three different ranks, and the
/// suit is the one of which it shows three cards.
pub proof fn lemma_suited_flop(flop: Seq<Card>, s: Suit)
    requires
        is_suited_flop(flop, s),
    ensures
        flush_suit(flop) == Some(s),
        suited(flop, s) == flop,
        values_of(flop).no_duplicates(),
{
    let fv = values_of(flop);
    assert(flop[0] != flop[1] && flop[0] != flop[2] && flop[1] != flop[2]);
    assert(fv[0] == flop[0].0 && fv[1] == flop[1].0 && fv[2] == flop[2].0);
    assert(fv[0] != fv[1] && fv[0] != fv[2] && fv[1] != fv[2]);
    lemma_count_suit_of_three(flop, Suit::Spades);
    lemma_count_suit_of_three(flop, Suit::Hearts);
    lemma_count_suit_of_three(flop, Suit::Diamonds);
    lemma_count_suit_of_three(flop, Suit::Clubs);
    let f = of_suit(s);
    let e = Seq::<Card>::empty();
    let s1 = e.push(flop[0]);
    let s2 = s1.push(flop[1]);
    let s3 = s2.push(flop[2]);
    assert(s3 =~= flop);
    e.lemma_filter_len(f);
    assert(e.filter(f) =~= e);
    e.lemma_filter_push(flop[0], f);
    s1.lemma_filter_push(flop[1], f);
    s2.lemma_filter_push(flop[2], f);
    assert(f(flop[0]) && f(flop[1]) && f(flop[2]));
}

/// The value of the straight flush of the window that begins at `w`: the
/// royal flush for the highest window.
pub open spec fn straight_flush_of(w: int) -> SortedHandValue {
    if w == 9 {
        SortedHandValue::RoyalFlush
    } else {
        SortedHandValue::StraightFlush(Value::of_straight_ordinal(w + 4))
    }
}

/// Five cards of one suit, holding and flop: the five are of one suit
/// exactly where the holding is of the flop's suit.
pub proof fn lemma_suited_hand(flop: Seq<Card>, hole: Seq<Card>, s: Suit)
    requires
        is_suited_flop(flop, s),
        is_holding(hole, flop),
    ensures
        all_same_suit(hole + flop) <==> is_suited_to(hole, s),
{
    let hand = hole + flop;
    lemma_flop_hand(flop, hole);
    if all_same_suit(hand) {
        assert(hand[0].1 == hand[2].1 && hand[1].1 == hand[2].1);
    }
    if is_suited_to(hole, s) {
        assert forall|i: int, j: int| 0 <= i < 5 && 0 <= j < 5 implies hand[i].1 == hand[j].1 by {
            assert(hand[i].1 == s);
            assert(hand[j].1 == s);
        }
    }
}

/// What a holding makes on a flop of three cards of one suit: with two
/// cards of the suit that fill a window, the straight flush of the window;
/// with two cards of the suit that fill none, a flush; else a straight at
/// best.
pub proof fn lemma_suited_flop_value(flop: Seq<Card>, hole: Seq<Card>, s: Suit)
    requires
        is_suited_flop(flop, s),
        is_holding(hole, flop),
    ensures
        !is_suited_to(hole, s) ==> rank_of(hole + flop).category() <= 4,
        is_suited_to(hole, s) ==> rank_of(hole + flop).category() >= 5,
        forall|w: int|
            is_suited_to(hole, s) && #[trigger] fills(hole + flop, w) ==> rank_of(hole + flop)
                == straight_flush_of(w),
        is_suited_to(hole, s) && (forall|w: int| !fills(hole + flop, w)) ==> rank_of(
            hole + flop,
        ) is Flush && rank_of(hole + flop)->Flush_0@ == descending(values_of(hole + flop)),
{
    let hand = hole + flop;
    let mine = rank_of(hand);
    lemma_flop_hand(flop, hole);
    lemma_suited_flop(flop, s);
    lemma_suited_hand(flop, hole, s);
    lemma_flop_no_big_groups(flop, hole);
    if is_suited_to(hole, s) {
        let hv = values_of(hand);
        match mine {
            SortedHandValue::Trips(u) => {
                assert(grouped(hv, u@, seq![3nat, 1nat, 1nat]));
                assert(occurs(hv, u@[0]) == 3);
                lemma_pair_excludes_flush(hand, u@[0]);
            },
            SortedHandValue::TwoPair(u) => {
                assert(grouped(hv, u@, seq![2nat, 2nat, 1nat]));
                assert(occurs(hv, u@[0]) == 2);
                lemma_pair_excludes_flush(hand, u@[0]);
            },
            SortedHandValue::OnePair(u) => {
                assert(grouped(hv, u@, seq![2nat, 1nat, 1nat, 1nat]));
                assert(occurs(hv, u@[0]) == 2);
                lemma_pair_excludes_flush(hand, u@[0]);
            },
            _ => {},
        }
        assert(mine.category() >= 5);
        assert forall|w: int| #[trigger] fills(hand, w) implies mine == straight_flush_of(w) by {
            lemma_fills_is_straight(hand, w);
            let want = straight_flush_of(w);
            assert(Value::of_straight_ordinal(w + 4) == Value::Ace <==> w == 9);
            assert(want.describes(hand));
            lemma_describes_unique(hand, want, mine);
        }
        if forall|w: int| !fills(hand, w) {
            if straight_top(values_of(hand)) is Some {
                let w = lemma_straight_fills(hand);
                assert(fills(hand, w));
            }
        }
    }
}

/// The highest rank that the cards do not show.
pub open spec fn high_rank(cards: Seq<Card>) -> Value {
    Value::of_straight_ordinal(top_free(cards))
}

/// The highest rank that a flop does not show: the flop does not show it,
/// and shows every higher rank.
pub proof fn lemma_high_rank(flop: Seq<Card>)
    requires
        flop.len() == 3,
    ensures
        !values_of(flop).contains(high_rank(flop)),
        forall|v: Value|
            v.ordinal() > high_rank(flop).ordinal() ==> values_of(flop).contains(v),
        high_rank(flop).ordinal() >= 9,
{
    let fv = values_of(flop);
    lemma_some_place_free(flop);
    let o = choose|o: int| 1 <= o <= 6 && !present(flop, o);
    let t = lemma_find_top_free(flop, 13);
    lemma_top_free_unique(flop, t, top_free(flop));
    let high = high_rank(flop);
    assert(fv[0] == flop[0].0 && fv[1] == flop[1].0 && fv[2] == flop[2].0);
    if fv.contains(high) {
        let i = choose|i: int| 0 <= i < fv.len() && fv[i] == high;
        assert(holds_ordinal(flop[i], t));
    }
    assert forall|v: Value| v.ordinal() > high.ordinal() implies fv.contains(v) by {
        let p = v.straight_ordinal();
        assert(t < p <= 13 || t == 0);
        if t == 0 {
            assert(present(flop, 13));
            let i = choose|i: int| 0 <= i < flop.len() && holds_ordinal(#[trigger] flop[i], 13);
            assert(flop[i].0 == Value::Ace);
            assert(holds_ordinal(flop[i], 0));
            assert(false);
        }
        assert(present(flop, p));
        let i = choose|i: int| 0 <= i < flop.len() && holds_ordinal(#[trigger] flop[i], p);
        assert(fv[i] == v);
    }
    if high.ordinal() < 9 {
        let x = |v: Value| choose|i: int| 0 <= i < fv.len() && fv[i] == v;
        assert(fv.contains(Value::Ace) && fv.contains(Value::King) && fv.contains(Value::Queen)
            && fv.contains(Value::Jack));
        assert(fv[x(Value::Ace)] == Value::Ace && fv[x(Value::King)] == Value::King && fv[x(
            Value::Queen,
        )] == Value::Queen && fv[x(Value::Jack)] == Value::Jack);
        assert(false);
    }
}

/// Finds the highest free place at or below `from`, where all places above
/// `from` hold a card and some place holds none.
pub proof fn lemma_find_top_free(cards: Seq<Card>, from: int) -> (t: int)
    requires
        0 <= from <= 13,
        forall|p: int| from < p <= 13 ==> present(cards, p),
        exists|o: int| 0 <= o <= 13 && !present(cards, o),
    ensures
        is_top_free(cards, t),
    decreases from,
{
    if !present(cards, from) {
        from
    } else {
        if from == 0 {
            let o = choose|o: int| 0 <= o <= 13 && !present(cards, o);
            assert(false);
        }
        lemma_find_top_free(cards, from - 1)
    }
}

/// Five ranks in strict order from high to low that hold the `g` highest
/// ranks of all hold them in their first `g` places.
pub proof fn lemma_top_ranks_first(x: Seq<Value>, g: int)
    requires
        x.len() == 5,
        0 <= g <= 3,
        forall|i: int, j: int| 0 <= i < j < 5 ==> x[i].ordinal() > x[j].ordinal(),
        forall|v: Value| v.ordinal() > 12 - g ==> x.contains(v),
    ensures
        forall|i: int| 0 <= i < g ==> (#[trigger] x[i]).ordinal() == 12 - i,
{
    let at = |v: Value| choose|i: int| 0 <= i < x.len() && x[i] == v;
    if g >= 1 {
        assert(x.contains(Value::Ace));
        assert(x[at(Value::Ace)] == Value::Ace);
        assert(x[0].ordinal() >= x[at(Value::Ace)].ordinal());
        assert(x[0].ordinal() == 12);
    }
    if g >= 2 {
        assert(x.contains(Value::King));
        assert(x[at(Value::King)] == Value::King);
        assert(at(Value::King) >= 1);
        assert(x[1].ordinal() >= x[at(Value::King)].ordinal());
        assert(x[1].ordinal() == 11);
    }
    if g >= 3 {
        assert(x.contains(Value::Queen));
        assert(x[at(Value::Queen)] == Value::Queen);
        assert(at(Value::Queen) >= 2);
        assert(x[2].ordinal() >= x[at(Value::Queen)].ordinal());
        assert(x[2].ordinal() == 10);
    }
}

/// The five ranks of a holding of the flop's suit on the flop, from high
/// to low: they differ, and they are the ranks of the five cards.
pub proof fn lemma_flush_ranks(flop: Seq<Card>, hole: Seq<Card>, s: Suit)
    requires
        is_suited_flop(flop, s),
        is_holding(hole, flop),
        is_suited_to(hole, s),
    ensures
        ({
            let x = descending(values_of(hole + flop));
            &&& x.len() == 5
            &&& forall|i: int, j: int| 0 <= i < j < 5 ==> x[i].ordinal() > x[j].ordinal()
            &&& forall|v: Value| x.contains(v) <==> values_of(hole + flop).contains(v)
        }),
{
    let hand = hole + flop;
    let hv = values_of(hand);
    let x = descending(hv);
    lemma_flop_hand(flop, hole);
    lemma_descending_of_five(hv);
    assert forall|i: int, j: int| 0 <= i < j < 5 implies hv[i] != hv[j] by {
        assert(hand[i] != hand[j]);
        assert(hand[i].1 == s && hand[j].1 == s);
    }
    assert forall|v: Value| x.contains(v) <==> hv.contains(v) by {
        lemma_occurs_of_five(hv, v);
        lemma_occurs_of_five(x, v);
        if x.contains(v) {
            let i = choose|i: int| 0 <= i < x.len() && x[i] == v;
            assert(occurs(x, v) > 0);
            let k = if hv[0] == v {
                0int
            } else if hv[1] == v {
                1int
            } else if hv[2] == v {
                2int
            } else if hv[3] == v {
                3int
            } else {
                4int
            };
            assert(hv[k] == v);
        }
        if hv.contains(v) {
            let i = choose|i: int| 0 <= i < hv.len() && hv[i] == v;
            assert(occurs(hv, v) > 0);
            let k = if x[0] == v {
                0int
            } else if x[1] == v {
                1int
            } else if x[2] == v {
                2int
            } else if x[3] == v {
                3int
            } else {
                4int
            };
            assert(x[k] == v);
        }
    }
    assert forall|i: int, j: int| 0 <= i < j < 5 implies x[i].ordinal() > x[j].ordinal() by {
        lemma_occurs_of_five(x, x[i]);
        lemma_occurs_of_five(hv, x[i]);
        assert(occurs(hv, x[i]) <= 1);
        assert(x[i] != x[j]);
        assert(x[i].ordinal() >= x[j].ordinal());
    }
}

/// Of two holdings of the flop's suit, the one with the highest rank that
/// the flop does not show has the higher ranks.
pub proof fn lemma_nut_flush(flop: Seq<Card>, mine: Seq<Card>, other: Seq<Card>, s: Suit)
    requires
        is_suited_flop(flop, s),
        is_holding(mine, flop),
        is_holding(other, flop),
        is_suited_to(mine, s),
        is_suited_to(other, s),
        mine[0].0 == high_rank(flop) || mine[1].0 == high_rank(flop),
        other[0].0 != high_rank(flop),
        other[1].0 != high_rank(flop),
    ensures
        lex_less(descending(values_of(other + flop)), descending(values_of(mine + flop))),
{
    let high = high_rank(flop);
    let fv = values_of(flop);
    let a = descending(values_of(mine + flop));
    let b = descending(values_of(other + flop));
    let av = values_of(mine + flop);
    let bv = values_of(other + flop);
    lemma_high_rank(flop);
    lemma_flush_ranks(flop, mine, s);
    lemma_flush_ranks(flop, other, s);
    lemma_flop_hand(flop, mine);
    lemma_flop_hand(flop, other);
    let g = 12 - high.ordinal();
    assert(av[0] == mine[0].0 && av[1] == mine[1].0 && av[2] == fv[0] && av[3] == fv[1] && av[4]
        == fv[2]);
    assert(bv[0] == other[0].0 && bv[1] == other[1].0 && bv[2] == fv[0] && bv[3] == fv[1] && bv[4]
        == fv[2]);
    assert forall|v: Value| v.ordinal() > 12 - g implies a.contains(v) && b.contains(v) by {
        assert(fv.contains(v));
        let i = choose|i: int| 0 <= i < fv.len() && fv[i] == v;
        assert(av[i + 2] == v && bv[i + 2] == v);
    }
    lemma_top_ranks_first(a, g);
    lemma_top_ranks_first(b, g);
    assert(av.contains(high)) by {
        if mine[0].0 == high {
            assert(av[0] == high);
        } else {
            assert(av[1] == high);
        }
    }
    assert(a.contains(high));
    let p = choose|p: int| 0 <= p < a.len() && a[p] == high;
    assert(p >= g) by {
        if p < g {
            assert(a[p].ordinal() == 12 - p);
        }
    }
    if g >= 1 {
        assert(a[g - 1].ordinal() == 12 - (g - 1));
        assert(b[g - 1].ordinal() == 12 - (g - 1));
    }
    assert(a[g].ordinal() >= a[p].ordinal());
    assert(a[g] == high);
    assert(!bv.contains(high)) by {
        if bv.contains(high) {
            let i = choose|i: int| 0 <= i < bv.len() && bv[i] == high;
            if i >= 2 {
                assert(fv[i - 2] == high);
            }
        }
    }
    assert(b[g] != high) by {
        if b[g] == high {
            assert(b.contains(b[g]));
        }
    }
    assert(b[g].ordinal() < a[g].ordinal());
    assert(b.take(g) =~= a.take(g)) by {
        assert forall|i: int| 0 <= i < g implies b[i] == a[i] by {
            assert(b[i].ordinal() == 12 - i);
            assert(a[i].ordinal() == 12 - i);
        }
    }
}

/// A straight flush is within reach in the window that begins at `w`: the
/// flop stands at three of its places.
pub open spec fn sf_window(flop: Seq<Card>, w: int) -> bool {
    0 <= w <= 9 && missing(flop, w).len() == 2
}

/// The holding has a card of the suit at a place of the window: a card
/// that the straight flush of the window needs.
pub open spec fn blocks(hole: Seq<Card>, s: Suit, w: int) -> bool {
    ||| hole[0].1 == s && w <= slot(hole[0], w) <= w + 4
    ||| hole[1].1 == s && w <= slot(hole[1], w) <= w + 4
}

/// The straight flush of a higher window is the stronger.
pub proof fn lemma_straight_flush_order(v: int, w: int)
    requires
        0 <= v < w <= 9,
    ensures
        straight_flush_of(v).weaker_than(straight_flush_of(w)),
        !straight_flush_of(w).weaker_than(straight_flush_of(v)),
{
    if w < 9 {
        lemma_first_rank_decides(straight_flush_of(v), straight_flush_of(w));
    }
    lemma_order_trichotomy(straight_flush_of(v), straight_flush_of(w));
}

/// A holding that fills a window with the flop takes just the cards of the
/// flop's suit that stand at the two free places: no other holding on the
/// same cards has a card of the suit in the window.
pub proof fn lemma_filled_is_unblocked(
    flop: Seq<Card>,
    hole: Seq<Card>,
    other: Seq<Card>,
    s: Suit,
    w: int,
)
    requires
        is_suited_flop(flop, s),
        is_holding(hole, flop),
        is_holding(other, hole + flop),
        is_suited_to(other, s),
        fills(other + flop, w),
    ensures
        !blocks(hole, s, w),
        sf_window(flop, w),
{
    lemma_holding_on_less(other, hole, flop);
    lemma_flop_hand(flop, other);
    lemma_flop_hand(flop, hole);
    lemma_fills_misses(flop, other, w);
    let all = other + (hole + flop);
    assert(all[0] == other[0] && all[1] == other[1] && all[2] == hole[0] && all[3] == hole[1]
        && all[4] == flop[0] && all[5] == flop[1] && all[6] == flop[2]);
    let hand = other + flop;
    assert(hand[0] == other[0] && hand[1] == other[1] && hand[2] == flop[0] && hand[3] == flop[1]
        && hand[4] == flop[2]);
    assert forall|i: int| 0 <= i < 2 implies !(hole[i].1 == s && w <= slot(hole[i], w) <= w
        + 4) by {
        let c = hole[i];
        if c.1 == s && w <= slot(c, w) <= w + 4 {
            let o = slot(c, w);
            let p = slot(hand[0], w);
            assert(fills(hand, w));
            assert(slot(hand[0], w) == o || slot(hand[1], w) == o || slot(hand[2], w) == o
                || slot(hand[3], w) == o || slot(hand[4], w) == o);
            let k = if slot(hand[0], w) == o {
                0int
            } else if slot(hand[1], w) == o {
                1int
            } else if slot(hand[2], w) == o {
                2int
            } else if slot(hand[3], w) == o {
                3int
            } else {
                4int
            };
            lemma_slot_of_rank(c, w, o);
            lemma_slot_of_rank(hand[k], w, o);
            assert(hand[k].1 == s);
            assert(hand[k] == c);
            assert(all[i + 2] == c);
            if k < 2 {
                assert(all[k] == c);
            } else {
                assert(all[k + 2] == c);
            }
            assert(false);
        }
    }
}

/// Where a holding has no card of the suit in a window in which a
/// straight flush is within reach, the two cards that make it can be held
/// on the cards of the holding and the flop.
pub proof fn lemma_unblocked_is_filled(flop: Seq<Card>, hole: Seq<Card>, s: Suit, w: int) -> (other:
    Seq<Card>)
    requires
        is_suited_flop(flop, s),
        is_holding(hole, flop),
        sf_window(flop, w),
        !blocks(hole, s, w),
    ensures
        is_holding(other, hole + flop),
        is_suited_to(other, s),
        fills(other + flop, w),
{
    lemma_flop_hand(flop, hole);
    lemma_missing_two(flop, w);
    let m = missing(flop, w);
    let lo = m[0];
    let hi = m[1];
    let c0 = Card(Value::of_straight_ordinal(hi), s);
    let c1 = Card(Value::of_straight_ordinal(lo), s);
    let out = hole + flop;
    lemma_slot_of_rank(c0, w, hi);
    lemma_slot_of_rank(c1, w, lo);
    lemma_flop_present(flop, w, lo);
    lemma_flop_present(flop, w, hi);
    assert forall|c: Card| (c == c0 || c == c1) implies !out.contains(c) by {
        if out.contains(c) {
            let i = choose|i: int| 0 <= i < out.len() && out[i] == c;
            if i < 2 {
                assert(hole[i] == c);
                assert(blocks(hole, s, w));
            } else {
                assert(flop[i - 2] == c);
            }
        }
    }
    lemma_two_free_hold(out, c0, c1);
    let other = seq![c0, c1];
    lemma_holding_on_less(other, hole, flop);
    lemma_misses_fills(flop, other, w, lo, hi);
    other
}

/// Some card of the suit is not among six cards or fewer.
pub proof fn lemma_more_of_suit(out: Seq<Card>, s: Suit) -> (c: Card)
    requires
        out.len() <= 6,
    ensures
        !out.contains(c),
        c.1 == s,
{
    let c0 = Card(Value::Deuce, s);
    let c1 = Card(Value::Trey, s);
    let c2 = Card(Value::Four, s);
    let c3 = Card(Value::Five, s);
    let c4 = Card(Value::Six, s);
    let c5 = Card(Value::Seven, s);
    let c6 = Card(Value::Eight, s);
    if out.contains(c0) && out.contains(c1) && out.contains(c2) && out.contains(c3) && out.contains(
        c4,
    ) && out.contains(c5) && out.contains(c6) {
        let at = |c: Card| choose|i: int| 0 <= i < out.len() && out[i] == c;
        assert(out[at(c0)] == c0 && out[at(c1)] == c1 && out[at(c2)] == c2 && out[at(c3)] == c3
            && out[at(c4)] == c4 && out[at(c5)] == c5 && out[at(c6)] == c6);
        assert(false);
    }
    if !out.contains(c0) {
        c0
    } else if !out.contains(c1) {
        c1
    } else if !out.contains(c2) {
        c2
    } else if !out.contains(c3) {
        c3
    } else if !out.contains(c4) {
        c4
    } else if !out.contains(c5) {
        c5
    } else {
        c6
    }
}

/// A holding of two cards of the suit can be held on the cards of any
/// holding and the flop.
pub proof fn lemma_suited_holding(flop: Seq<Card>, hole: Seq<Card>, s: Suit) -> (other: Seq<Card>)
    requires
        flop.len() == 3,
        is_holding(hole, flop),
    ensures
        is_holding(other, hole + flop),
        is_suited_to(other, s),
{
    let out = hole + flop;
    lemma_flop_hand(flop, hole);
    let a = lemma_more_of_suit(out, s);
    let b = lemma_more_of_suit(out.push(a), s);
    assert(!out.contains(b)) by {
        if out.contains(b) {
            let i = choose|i: int| 0 <= i < out.len() && out[i] == b;
            assert(out.push(a)[i] == b);
        }
    }
    assert(a != b) by {
        assert(out.push(a)[5] == a);
    }
    lemma_two_free_hold(out, a, b);
    seq![a, b]
}

/// The holding has a card of the rank.
pub open spec fn has_rank(hole: Seq<Card>, r: Value) -> bool {
    hole[0].0 == r || hole[1].0 == r
}

/// The holding makes the straight flush of the window that begins at `w`,
/// and has a card that every higher straight flush within reach needs.
pub open spec fn stands_on_window(flop: Seq<Card>, hole: Seq<Card>, s: Suit, w: int) -> bool {
    &&& fills(hole + flop, w)
    &&& forall|v: int| w < v <= 9 && #[trigger] sf_window(flop, v) ==> blocks(hole, s, v)
}

/// The holding makes the flush with the highest rank that the flop does
/// not show, and has a card that every straight flush within reach needs.
pub open spec fn stands_on_flush(flop: Seq<Card>, hole: Seq<Card>, s: Suit) -> bool {
    &&& forall|w: int| !fills(hole + flop, w)
    &&& has_rank(hole, high_rank(flop))
    &&& forall|v: int| #[trigger] sf_window(flop, v) ==> blocks(hole, s, v)
}

/// The holding is of the flop's suit and stands: on a straight flush that
/// no higher one can meet, or on the best flush where no straight flush
/// can meet it.
pub open spec fn stands(flop: Seq<Card>, hole: Seq<Card>, s: Suit) -> bool {
    &&& is_suited_to(hole, s)
    &&& ((exists|w: int| stands_on_window(flop, hole, s, w)) || stands_on_flush(flop, hole, s))
}

/// A holding that stands is not beaten by the other holding.
pub proof fn lemma_stands_holds(flop: Seq<Card>, hole: Seq<Card>, other: Seq<Card>, s: Suit)
    requires
        is_suited_flop(flop, s),
        is_holding(hole, flop),
        is_holding(other, hole + flop),
        stands(flop, hole, s),
    ensures
        !rank_of(hole + flop).weaker_than(rank_of(other + flop)),
{
    let mine = rank_of(hole + flop);
    let theirs = rank_of(other + flop);
    lemma_holding_on_less(other, hole, flop);
    lemma_flop_hand(flop, hole);
    lemma_flop_hand(flop, other);
    lemma_suited_flop_value(flop, hole, s);
    lemma_suited_flop_value(flop, other, s);
    lemma_order_trichotomy(mine, theirs);
    if is_suited_to(other, s) {
        if exists|v: int| fills(other + flop, v) {
            let v = choose|v: int| fills(other + flop, v);
            lemma_filled_is_unblocked(flop, hole, other, s, v);
            assert(theirs == straight_flush_of(v));
            if exists|w: int| stands_on_window(flop, hole, s, w) {
                let w = choose|w: int| stands_on_window(flop, hole, s, w);
                assert(mine == straight_flush_of(w));
                assert(v <= w);
                if v < w {
                    lemma_straight_flush_order(v, w);
                }
            } else {
                assert(stands_on_flush(flop, hole, s));
                assert(blocks(hole, s, v));
            }
        } else {
            if exists|w: int| stands_on_window(flop, hole, s, w) {
                let w = choose|w: int| stands_on_window(flop, hole, s, w);
                assert(mine == straight_flush_of(w));
            } else {
                assert(stands_on_flush(flop, hole, s));
                let high = high_rank(flop);
                let all = other + (hole + flop);
                assert(all[0] == other[0] && all[1] == other[1] && all[2] == hole[0] && all[3]
                    == hole[1]);
                assert(other[0].0 != high && other[1].0 != high) by {
                    if other[0].0 == high {
                        assert(other[0] == Card(high, s));
                        assert(hole[0] == Card(high, s) || hole[1] == Card(high, s));
                    }
                    if other[1].0 == high {
                        assert(other[1] == Card(high, s));
                        assert(hole[0] == Card(high, s) || hole[1] == Card(high, s));
                    }
                }
                lemma_nut_flush(flop, hole, other, s);
                assert(theirs.weaker_than(mine));
            }
        }
    }
}

/// A holding that does not stand is beaten by some holding.
pub proof fn lemma_falls(flop: Seq<Card>, hole: Seq<Card>, s: Suit) -> (other: Seq<Card>)
    requires
        is_suited_flop(flop, s),
        is_holding(hole, flop),
        !stands(flop, hole, s),
    ensures
        is_holding(other, hole + flop),
        rank_of(hole + flop).weaker_than(rank_of(other + flop)),
{
    let mine = rank_of(hole + flop);
    lemma_flop_hand(flop, hole);
    lemma_suited_flop_value(flop, hole, s);
    if !is_suited_to(hole, s) {
        let other = lemma_suited_holding(flop, hole, s);
        lemma_holding_on_less(other, hole, flop);
        lemma_suited_flop_value(flop, other, s);
        other
    } else if exists|w: int| fills(hole + flop, w) {
        let w = choose|w: int| fills(hole + flop, w);
        assert(!stands_on_window(flop, hole, s, w));
        let v = choose|v: int| w < v <= 9 && sf_window(flop, v) && !blocks(hole, s, v);
        let other = lemma_unblocked_is_filled(flop, hole, s, v);
        lemma_holding_on_less(other, hole, flop);
        lemma_suited_flop_value(flop, other, s);
        assert(mine == straight_flush_of(w));
        assert(rank_of(other + flop) == straight_flush_of(v));
        lemma_straight_flush_order(w, v);
        other
    } else if exists|v: int| sf_window(flop, v) && !blocks(hole, s, v) {
        let v = choose|v: int| sf_window(flop, v) && !blocks(hole, s, v);
        let other = lemma_unblocked_is_filled(flop, hole, s, v);
        lemma_holding_on_less(other, hole, flop);
        lemma_suited_flop_value(flop, other, s);
        assert(rank_of(other + flop) == straight_flush_of(v));
        other
    } else {
        let high = high_rank(flop);
        assert(!has_rank(hole, high));
        lemma_high_rank(flop);
        let out = hole + flop;
        let a = Card(high, s);
        assert(!out.contains(a)) by {
            if out.contains(a) {
                let i = choose|i: int| 0 <= i < out.len() && out[i] == a;
                if i >= 2 {
                    assert(values_of(flop)[i - 2] == high);
                }
            }
        }
        let b = lemma_more_of_suit(out.push(a), s);
        assert(!out.contains(b)) by {
            if out.contains(b) {
                let i = choose|i: int| 0 <= i < out.len() && out[i] == b;
                assert(out.push(a)[i] == b);
            }
        }
        assert(a != b) by {
            assert(out.push(a)[5] == a);
        }
        lemma_two_free_hold(out, a, b);
        let other = seq![a, b];
        lemma_holding_on_less(other, hole, flop);
        lemma_suited_flop_value(flop, other, s);
        let theirs = rank_of(other + flop);
        if forall|v: int| !fills(other + flop, v) {
            lemma_nut_flush(flop, other, hole, s);
            assert(mine.weaker_than(theirs));
        } else {
            let v = choose|v: int| fills(other + flop, v);
            assert(theirs == straight_flush_of(v));
        }
        other
    }
}

/// On a flop of three cards of one suit, nothing beats a holding exactly
/// where the holding stands.
pub proof fn lemma_suited_flop_unbeaten(flop: Seq<Card>, hole: Seq<Card>, s: Suit)
    requires
        is_suited_flop(flop, s),
        is_holding(hole, flop),
    ensures
        stands(flop, hole, s) <==> unbeaten(flop, hole),
{
    lemma_flop_hand(flop, hole);
    if stands(flop, hole, s) {
        assert forall|other: Seq<Card>| #[trigger] is_holding(other, hole + flop) implies !best_of(
            hole + flop,
        ).weaker_than(best_of(other + flop)) by {
            lemma_holding_on_less(other, hole, flop);
            lemma_flop_hand(flop, other);
            lemma_stands_holds(flop, hole, other, s);
        }
    } else {
        let other = lemma_falls(flop, hole, s);
        lemma_holding_on_less(other, hole, flop);
        lemma_flop_hand(flop, other);
        assert(is_holding(other, hole + flop) && best_of(hole + flop).weaker_than(
            best_of(other + flop),
        ));
    }
}

} // verus!
