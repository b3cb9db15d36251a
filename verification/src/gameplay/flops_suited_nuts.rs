//! Flops of three cards of one suit: the description of the nuts names
//! just the holdings that nothing beats. With the flops that are not of
//! one suit, this holds of every flop.

use super::card::{Card, Suit, Value};
use super::cards::{
    hole_of, lemma_hole_of, lemma_same_cards_by_containment, lemma_same_cards_contains, pair_or,
    same_cards, suited, values_of, Hole,
};
use super::flops::{is_flop, lemma_count_suit_of_three, lemma_flop_hand};
use super::flops_straight::{
    fills, lemma_fills_misses, lemma_flop_present, lemma_misses_fills, lemma_missing_two,
    lemma_offsuit_flop_nuts, lemma_slot_of_rank, misses, slot,
};
use super::flops_suited::{
    blocks,
    has_rank,
    high_rank,
    is_suited_flop,
    is_suited_to,
    lemma_suited_flop,
    lemma_suited_flop_unbeaten,
    sf_window,
    stands,
    stands_on_flush,
    stands_on_window,
};
use super::flops_windows::{
    high_gap, is_ranked_flop, lemma_flop_windows, lemma_neighbour_windows, low_gap, solve_at,
};
use super::nuts::{flush_card_nuts, flush_nuts, flush_suit, nuts_of, FindNuts};
use super::flops::lemma_missing_count;
use super::flops_suited::lemma_find_top_free;
use super::flops_windows::lemma_flop_places;
use super::scan::{
    lemma_some_place_free,
    lemma_top_free_unique,
    missing,
    present,
    solves,
    top_free,
    StraightSolve,
};
use super::unbeaten::{is_holding, unbeaten};
use vstd::prelude::*;

verus! {

/// The two cards of the holding have the two ranks, one each.
pub open spec fn pair_is(hole: Seq<Card>, a: Value, b: Value) -> bool {
    (hole[0].0 == a && hole[1].0 == b) || (hole[0].0 == b && hole[1].0 == a)
}

/// The higher and the lower of the two ranks that complete the window.
pub open spec fn high_need(flop: Seq<Card>, w: int) -> Value {
    Value::of_straight_ordinal(high_gap(flop, w))
}

pub open spec fn low_need(flop: Seq<Card>, w: int) -> Value {
    Value::of_straight_ordinal(low_gap(flop, w))
}

/// A holding of the flop's suit and a window within reach: the holding
/// fills the window where it has the two ranks that complete it, and has a
/// card that the window needs where it has one of the two.
pub proof fn lemma_window_terms(flop: Seq<Card>, hole: Seq<Card>, s: Suit, w: int)
    requires
        is_suited_flop(flop, s),
        is_holding(hole, flop),
        is_suited_to(hole, s),
        sf_window(flop, w),
    ensures
        fills(hole + flop, w) <==> pair_is(hole, high_need(flop, w), low_need(flop, w)),
        blocks(hole, s, w) <==> (has_rank(hole, high_need(flop, w)) || has_rank(
            hole,
            low_need(flop, w),
        )),
        high_need(flop, w) != low_need(flop, w),
        solve_at(flop, w) == StraightSolve::Two([high_need(flop, w), low_need(flop, w)]),
{
    lemma_flop_hand(flop, hole);
    lemma_missing_two(flop, w);
    let lo = low_gap(flop, w);
    let hi = high_gap(flop, w);
    lemma_slot_of_rank(hole[0], w, lo);
    lemma_slot_of_rank(hole[0], w, hi);
    lemma_slot_of_rank(hole[1], w, lo);
    lemma_slot_of_rank(hole[1], w, hi);
    if fills(hole + flop, w) {
        lemma_fills_misses(flop, hole, w);
    }
    if pair_is(hole, high_need(flop, w), low_need(flop, w)) {
        lemma_misses_fills(flop, hole, w, lo, hi);
    }
    let hand = hole + flop;
    assert forall|i: int| 0 <= i < 2 && w <= slot(hole[i], w) <= w + 4 implies slot(hole[i], w)
        == lo || slot(hole[i], w) == hi by {
        let o = slot(hole[i], w);
        if o != lo && o != hi {
            lemma_flop_present(flop, w, o);
            let k = if slot(flop[0], w) == o {
                0int
            } else if slot(flop[1], w) == o {
                1int
            } else {
                2int
            };
            lemma_slot_of_rank(hole[i], w, o);
            lemma_slot_of_rank(flop[k], w, o);
            assert(hole[i] == flop[k]);
            assert(hand[i] == hand[k + 2]);
        }
    }
}

/// No holding fills a window that is not within reach.
pub proof fn lemma_window_out_of_reach(flop: Seq<Card>, hole: Seq<Card>, w: int)
    requires
        flop.len() == 3,
        is_holding(hole, flop),
        !sf_window(flop, w),
    ensures
        !fills(hole + flop, w),
{
    if fills(hole + flop, w) {
        lemma_fills_misses(flop, hole, w);
    }
}

/// A holding is the holding of two given cards, in some order, exactly
/// where it holds the same cards.
pub proof fn lemma_same_pair(a: Card, b: Card, hole: Seq<Card>)
    requires
        a != b,
        hole.len() == 2,
        hole[0] != hole[1],
    ensures
        same_cards(hole_of(a, b)@, hole) <==> ((hole[0] == a && hole[1] == b) || (hole[0] == b
            && hole[1] == a)),
{
    lemma_hole_of(a, b);
    let h = hole_of(a, b)@;
    assert(h[0] == a && h[1] == b);
    if same_cards(h, hole) {
        lemma_same_cards_contains(h, hole, a);
        lemma_same_cards_contains(h, hole, b);
        assert(h.contains(a) && h.contains(b));
        let i = choose|i: int| 0 <= i < hole.len() && hole[i] == a;
        let j = choose|j: int| 0 <= j < hole.len() && hole[j] == b;
    }
    if (hole[0] == a && hole[1] == b) || (hole[0] == b && hole[1] == a) {
        assert forall|c: Card| h.contains(c) <==> hole.contains(c) by {
            if h.contains(c) {
                let i = choose|i: int| 0 <= i < h.len() && h[i] == c;
                assert(hole[0] == c || hole[1] == c);
            }
            if hole.contains(c) {
                let i = choose|i: int| 0 <= i < hole.len() && hole[i] == c;
                assert(h[0] == c || h[1] == c);
            }
        }
        lemma_same_cards_by_containment(h, hole);
    }
}

/// The holding of the two ranks in the suit, as the description of the
/// nuts names it, admits a holding exactly where the holding is of the
/// suit and has the two ranks.
pub proof fn lemma_suited_pair(a: Value, b: Value, s: Suit, hole: Seq<Card>)
    requires
        a != b,
        hole.len() == 2,
        hole[0] != hole[1],
    ensures
        same_cards(hole_of(Card(a, s), Card(b, s))@, hole) <==> (is_suited_to(hole, s) && pair_is(
            hole,
            a,
            b,
        )),
{
    lemma_same_pair(Card(a, s), Card(b, s), hole);
}

/// A flop of three cards of one suit is a flop of three different ranks.
pub proof fn lemma_suited_is_ranked(flop: Seq<Card>, s: Suit)
    requires
        is_suited_flop(flop, s),
    ensures
        is_ranked_flop(flop),
{
    assert(flop[0] != flop[1] && flop[0] != flop[2] && flop[1] != flop[2]);
}

/// The ranks that complete a window within reach are not on the flop, and
/// none is higher than the highest rank that the flop does not show. The
/// higher of the two is that rank only where the window misses the
/// highest free place of all; the lower never is.
pub proof fn lemma_needs(flop: Seq<Card>, w: int)
    requires
        is_ranked_flop(flop),
        sf_window(flop, w),
    ensures
        high_need(flop, w).ordinal() <= high_rank(flop).ordinal(),
        low_need(flop, w).ordinal() <= high_rank(flop).ordinal(),
        high_need(flop, w) != low_need(flop, w),
        low_need(flop, w) == high_rank(flop) ==> w == 0 && low_gap(flop, w) == 0,
        high_need(flop, w) == high_rank(flop) <==> high_gap(flop, w) == top_free(flop),
        low_gap(flop, w) == 0 ==> high_rank(flop) == Value::Ace,
        w <= low_gap(flop, w) < high_gap(flop, w) <= w + 4,
{
    lemma_flop_places(flop);
    lemma_missing_two(flop, w);
    lemma_some_place_free(flop);
    let t = lemma_find_top_free(flop, 13);
    lemma_top_free_unique(flop, t, top_free(flop));
    let lo = low_gap(flop, w);
    let hi = high_gap(flop, w);
    assert(hi <= t);
    assert(lo < t);
    if lo == 0 {
        assert(!present(flop, 13));
    }
}

/// The lowest window is within reach with the Ace low missing only where
/// the window above it is within reach too.
pub proof fn lemma_wheel_shift(flop: Seq<Card>)
    requires
        is_ranked_flop(flop),
        sf_window(flop, 0),
        low_gap(flop, 0) == 0,
    ensures
        sf_window(flop, 1),
{
    lemma_flop_places(flop);
    lemma_missing_two(flop, 0);
    lemma_missing_count(flop, 0);
    lemma_missing_count(flop, 1);
    super::flops_straight::lemma_flop_gaps(flop, 1);
}

/// What the windows within reach are on a flop of three cards of one
/// suit, with what the lemmas on the description of the nuts need of each.
pub proof fn lemma_suited_windows(flop: Seq<Card>, s: Suit) -> (r: (int, int))
    requires
        is_suited_flop(flop, s),
    ensures
        0 <= r.0 <= 3,
        r.0 > 0 ==> 0 <= r.1 - r.0 + 1 && r.1 <= 9,
        forall|w: int| #[trigger] sf_window(flop, w) <==> (r.1 - r.0 < w <= r.1 && r.0 > 0),
        solves(flop, false).len() == r.0,
        r.0 >= 1 ==> sf_window(flop, r.1) && solves(flop, false)[0] == StraightSolve::Two(
            [high_need(flop, r.1), low_need(flop, r.1)],
        ),
        r.0 >= 2 ==> sf_window(flop, r.1 - 1) && solves(flop, false)[1] == StraightSolve::Two(
            [high_need(flop, r.1 - 1), low_need(flop, r.1 - 1)],
        ) && high_need(flop, r.1 - 1) == low_need(flop, r.1),
        r.0 >= 3 ==> sf_window(flop, r.1 - 2) && solves(flop, false)[2] == StraightSolve::Two(
            [high_need(flop, r.1 - 2), low_need(flop, r.1 - 2)],
        ) && high_need(flop, r.1 - 2) == low_need(flop, r.1 - 1),
        nuts_of(flop) == flush_nuts(flop, s),
        suited(flop, s) == flop,
        values_of(flop).no_duplicates(),
        are_windows(flop, r.0, r.1),
{
    lemma_suited_flop(flop, s);
    lemma_suited_is_ranked(flop, s);
    let (n, top) = lemma_flop_windows(flop);
    let found = solves(flop, false);
    if n >= 1 {
        assert(sf_window(flop, top));
        lemma_missing_two(flop, top);
        assert(found[0] == solve_at(flop, top));
    }
    if n >= 2 {
        assert(sf_window(flop, top - 1));
        lemma_missing_two(flop, top - 1);
        assert(found[1] == solve_at(flop, top - 1));
        lemma_neighbour_windows(flop, top, top - 1);
    }
    if n >= 3 {
        assert(sf_window(flop, top - 2));
        lemma_missing_two(flop, top - 2);
        assert(found[2] == solve_at(flop, top - 2));
        lemma_neighbour_windows(flop, top - 1, top - 2);
    }
    (n, top)
}

/// What the description of the nuts comes to on a flop of three cards of
/// one suit, said of the ranks of a holding: `n` windows are within reach,
/// the highest begins at `top`.
pub open spec fn named(flop: Seq<Card>, hole: Seq<Card>, s: Suit, n: int, top: int) -> bool {
    let high = high_rank(flop);
    let hn0 = high_need(flop, top);
    let ln0 = low_need(flop, top);
    let hn1 = high_need(flop, top - 1);
    let ln1 = low_need(flop, top - 1);
    let ln2 = low_need(flop, top - 2);
    is_suited_to(hole, s) && if n == 0 {
        has_rank(hole, high)
    } else if n == 1 {
        if hn0 == high {
            has_rank(hole, high)
        } else {
            pair_is(hole, hn0, ln0) || pair_is(hole, high, hn0) || pair_is(hole, high, ln0)
        }
    } else if hn0 == high {
        pair_is(hole, hn0, ln0) || pair_is(hole, hn1, ln1) || pair_is(hole, high, ln1)
    } else if n == 3 {
        pair_is(hole, hn0, ln0) || pair_is(hole, hn1, ln1) || (ln2 == Value::Ace && pair_is(
            hole,
            Value::Ace,
            hn1,
        ))
    } else if ln1 == Value::Ace {
        pair_is(hole, hn0, ln0) || pair_is(hole, hn1, ln1) || pair_is(hole, Value::Ace, hn0)
    } else {
        pair_is(hole, hn0, ln0) || pair_is(hole, hn1, ln1) || pair_is(hole, high, hn1)
    }
}

/// A holding of two cards of one suit has two different ranks.
pub proof fn lemma_suited_ranks(flop: Seq<Card>, hole: Seq<Card>, s: Suit)
    requires
        flop.len() == 3,
        is_holding(hole, flop),
    ensures
        hole[0] != hole[1],
        is_suited_to(hole, s) ==> hole[0].0 != hole[1].0,
        forall|r: Value| !pair_is(hole, r, r) || !is_suited_to(hole, s),
{
    lemma_flop_hand(flop, hole);
}

/// The holding that the description names in place of one of two cards
/// that may be one card admits a holding where the two cards differ and
/// the holding has them; where they are one card it is the first holding
/// over again.
pub proof fn lemma_pair_or(c: Card, d: Card, first: Hole, hole: Seq<Card>, s: Suit)
    requires
        hole.len() == 2,
        hole[0] != hole[1],
        c.1 == s,
        d.1 == s,
    ensures
        same_cards(pair_or(c, d, first)@, hole) <==> if c != d {
            is_suited_to(hole, s) && pair_is(hole, c.0, d.0)
        } else {
            same_cards(first@, hole)
        },
{
    if c != d {
        lemma_same_pair(c, d, hole);
    }
}

/// The card with any other of its suit: the holding has the card and is
/// of one suit exactly where it is of the card's suit and has the rank.
pub proof fn lemma_card_suited(card: Card, hole: Seq<Card>)
    requires
        hole.len() == 2,
    ensures
        FindNuts::CardPlusAnySuited(card).admits(hole) <==> (is_suited_to(hole, card.1)
            && has_rank(hole, card.0)),
{
    if hole.contains(card) {
        let i = choose|i: int| 0 <= i < hole.len() && hole[i] == card;
        assert(i == 0 || i == 1);
    }
    if is_suited_to(hole, card.1) && has_rank(hole, card.0) {
        if hole[0].0 == card.0 {
            assert(hole[0] == card);
        } else {
            assert(hole[1] == card);
        }
    }
}

/// The windows within reach on the flop are the `n` windows that end
/// with the one that begins at `top`.
pub open spec fn are_windows(flop: Seq<Card>, n: int, top: int) -> bool {
    &&& 0 <= n <= 3
    &&& n > 0 ==> 0 <= top - n + 1 && top <= 9
    &&& forall|w: int| #[trigger] sf_window(flop, w) <==> (top - n < w <= top && n > 0)
}

/// On a flop of three cards of one suit, the description of the nuts
/// admits a holding exactly where the ranks of the holding are as named.
pub proof fn lemma_table_names(flop: Seq<Card>, hole: Seq<Card>, s: Suit) -> (r: (int, int))
    requires
        is_suited_flop(flop, s),
        is_holding(hole, flop),
    ensures
        are_windows(flop, r.0, r.1),
        nuts_of(flop).admits(hole) <==> named(flop, hole, s, r.0, r.1),
{
    let (n, top) = lemma_suited_windows(flop, s);
    let found = solves(flop, false);
    let high = high_rank(flop);
    let high_card = Card(high, s);
    let ace = Card(Value::Ace, s);
    let hn0 = high_need(flop, top);
    let ln0 = low_need(flop, top);
    let hn1 = high_need(flop, top - 1);
    let ln1 = low_need(flop, top - 1);
    let ln2 = low_need(flop, top - 2);
    let c0 = Card(hn0, s);
    let c1 = Card(ln0, s);
    let d0 = Card(hn1, s);
    let d1 = Card(ln1, s);
    let h0 = hole_of(c0, c1);
    let h1 = hole_of(d0, d1);
    lemma_suited_is_ranked(flop, s);
    lemma_suited_ranks(flop, hole, s);
    lemma_card_suited(high_card, hole);
    assert(flush_card_nuts(high_card, 3) == FindNuts::CardPlusAnySuited(high_card));
    if n >= 1 {
        lemma_needs(flop, top);
        lemma_suited_pair(hn0, ln0, s, hole);
        lemma_pair_or(high_card, c0, h0, hole, s);
        lemma_pair_or(high_card, c1, h0, hole, s);
        lemma_pair_or(ace, c0, h0, hole, s);
        let sf0 = found[0]->Two_0;
        assert(sf0[0] == hn0 && sf0[1] == ln0);
    }
    if n >= 2 {
        lemma_needs(flop, top - 1);
        lemma_suited_pair(hn1, ln1, s, hole);
        lemma_pair_or(high_card, d0, h0, hole, s);
        lemma_pair_or(high_card, d1, h0, hole, s);
        lemma_pair_or(ace, d0, h0, hole, s);
        let sf1 = found[1]->Two_0;
        assert(sf1[0] == hn1 && sf1[1] == ln1);
    }
    if n >= 3 {
        let sf2 = found[2]->Two_0;
        assert(sf2[1] == ln2);
        assert(found[2].spec_last() == Some(ln2));
    }
    let t = nuts_of(flop);
    if n == 1 && hn0 != high {
        let want = [h0, pair_or(high_card, c0, h0), pair_or(high_card, c1, h0)];
        assert(t == FindNuts::ThreeHoles(want));
        assert(want[0] == h0 && want[1] == pair_or(high_card, c0, h0) && want[2] == pair_or(
            high_card,
            c1,
            h0,
        ));
    }
    if n >= 2 && hn0 == high {
        let want = [h0, h1, pair_or(high_card, d1, h0)];
        assert(t == FindNuts::ThreeHoles(want));
        assert(want[0] == h0 && want[1] == h1 && want[2] == pair_or(high_card, d1, h0));
    }
    if n == 3 && hn0 != high {
        if ln2 == Value::Ace {
            let want = [h0, h1, pair_or(ace, d0, h0)];
            assert(t == FindNuts::ThreeHoles(want));
            assert(want[0] == h0 && want[1] == h1 && want[2] == pair_or(ace, d0, h0));
        } else {
            let want = [h0, h1];
            assert(t == FindNuts::TwoHoles(want));
            assert(want[0] == h0 && want[1] == h1);
        }
    }
    if n == 2 && hn0 != high {
        if ln1 == Value::Ace {
            let want = [h0, h1, pair_or(ace, c0, h0)];
            assert(t == FindNuts::ThreeHoles(want));
            assert(want[0] == h0 && want[1] == h1 && want[2] == pair_or(ace, c0, h0));
        } else {
            let want = [h0, h1, pair_or(high_card, d0, h0)];
            assert(t == FindNuts::ThreeHoles(want));
            assert(want[0] == h0 && want[1] == h1 && want[2] == pair_or(high_card, d0, h0));
        }
    }
    (n, top)
}

/// The windows within reach are what they are: two counts of them agree.
pub proof fn lemma_windows_unique(flop: Seq<Card>, n: int, top: int, m: int, other: int)
    requires
        are_windows(flop, n, top),
        are_windows(flop, m, other),
    ensures
        n == m,
        n > 0 ==> top == other,
{
    if n > 0 {
        assert(sf_window(flop, top));
        assert(sf_window(flop, top - n + 1));
    }
    if m > 0 {
        assert(sf_window(flop, other));
        assert(sf_window(flop, other - m + 1));
    }
}

/// A holding of the flop's suit stands on a window exactly where one of
/// the windows within reach is such a window.
proof fn lemma_stands_on_some(flop: Seq<Card>, hole: Seq<Card>, s: Suit, n: int, top: int)
    requires
        is_suited_flop(flop, s),
        is_holding(hole, flop),
        are_windows(flop, n, top),
    ensures
        (exists|w: int| stands_on_window(flop, hole, s, w)) <==> ((n >= 1 && fills(
            hole + flop,
            top,
        )) || (n >= 2 && fills(hole + flop, top - 1) && blocks(hole, s, top)) || (n >= 3 && fills(
            hole + flop,
            top - 2,
        ) && blocks(hole, s, top) && blocks(hole, s, top - 1))),
        stands_on_flush(flop, hole, s) <==> (has_rank(hole, high_rank(flop)) && (n >= 1 ==> !fills(
            hole + flop,
            top,
        ) && blocks(hole, s, top)) && (n >= 2 ==> !fills(hole + flop, top - 1) && blocks(
            hole,
            s,
            top - 1,
        )) && (n >= 3 ==> !fills(hole + flop, top - 2) && blocks(hole, s, top - 2))),
{
    assert forall|w: int| !sf_window(flop, w) implies !#[trigger] fills(hole + flop, w) by {
        lemma_window_out_of_reach(flop, hole, w);
    }
    if n >= 1 {
        assert(sf_window(flop, top));
    }
    if n >= 2 {
        assert(sf_window(flop, top - 1));
    }
    if n >= 3 {
        assert(sf_window(flop, top - 2));
    }
    if exists|w: int| stands_on_window(flop, hole, s, w) {
        let w = choose|w: int| stands_on_window(flop, hole, s, w);
        assert(fills(hole + flop, w));
        assert(sf_window(flop, w));
        assert(w == top || w == top - 1 || w == top - 2);
    }
    if n >= 1 && fills(hole + flop, top) {
        assert(stands_on_window(flop, hole, s, top));
    }
    if n >= 2 && fills(hole + flop, top - 1) && blocks(hole, s, top) {
        assert(stands_on_window(flop, hole, s, top - 1));
    }
    if n >= 3 && fills(hole + flop, top - 2) && blocks(hole, s, top) && blocks(hole, s, top - 1) {
        assert(stands_on_window(flop, hole, s, top - 2));
    }
    let flush = has_rank(hole, high_rank(flop)) && (n >= 1 ==> !fills(hole + flop, top) && blocks(
        hole,
        s,
        top,
    )) && (n >= 2 ==> !fills(hole + flop, top - 1) && blocks(hole, s, top - 1)) && (n >= 3
        ==> !fills(hole + flop, top - 2) && blocks(hole, s, top - 2));
    if flush {
        assert forall|w: int| !fills(hole + flop, w) by {
            if sf_window(flop, w) {
                assert(w == top || w == top - 1 || w == top - 2);
            }
        }
        assert forall|v: int| #[trigger] sf_window(flop, v) implies blocks(hole, s, v) by {
            assert(v == top || v == top - 1 || v == top - 2);
        }
        assert(stands_on_flush(flop, hole, s));
    }
}

/// On a flop of three cards of one suit, a holding stands exactly where
/// its ranks are as named.
pub proof fn lemma_stands_named(flop: Seq<Card>, hole: Seq<Card>, s: Suit, n: int, top: int)
    requires
        is_suited_flop(flop, s),
        is_holding(hole, flop),
        are_windows(flop, n, top),
    ensures
        stands(flop, hole, s) <==> named(flop, hole, s, n, top),
{
    lemma_suited_is_ranked(flop, s);
    lemma_suited_ranks(flop, hole, s);
    if is_suited_to(hole, s) {
        let (m, other) = lemma_suited_windows(flop, s);
        lemma_windows_unique(flop, n, top, m, other);
        lemma_stands_on_some(flop, hole, s, n, top);
        let high = high_rank(flop);
        if n >= 1 {
            lemma_window_terms(flop, hole, s, top);
            lemma_needs(flop, top);
            if top == 0 && low_gap(flop, 0) == 0 {
                lemma_wheel_shift(flop);
                assert(sf_window(flop, 1));
            }
        }
        if n >= 2 {
            lemma_window_terms(flop, hole, s, top - 1);
            lemma_needs(flop, top - 1);
            lemma_neighbour_windows(flop, top, top - 1);
            if top - 1 == 0 && low_gap(flop, 0) == 0 {
                lemma_wheel_shift(flop);
            }
        }
        if n >= 3 {
            lemma_window_terms(flop, hole, s, top - 2);
            lemma_needs(flop, top - 2);
            lemma_neighbour_windows(flop, top - 1, top - 2);
            lemma_neighbour_windows(flop, top, top - 2);
        }
    }
}

/// On a flop of three cards of one suit, the description of the nuts
/// names just the holdings that nothing beats.
pub proof fn lemma_suited_flop_nuts(flop: Seq<Card>, hole: Seq<Card>, s: Suit)
    requires
        is_suited_flop(flop, s),
        is_holding(hole, flop),
    ensures
        nuts_of(flop).admits(hole) <==> unbeaten(flop, hole),
{
    let (n, top) = lemma_table_names(flop, hole, s);
    lemma_stands_named(flop, hole, s, n, top);
    lemma_suited_flop_unbeaten(flop, hole, s);
}

/// On every flop, the description of the nuts names just the holdings
/// that nothing beats: a holding is admitted exactly where no two cards
/// that are neither on the flop nor in the holding make a stronger hand
/// with the flop than the holding does.
pub proof fn lemma_flop_nuts(flop: Seq<Card>, hole: Seq<Card>)
    requires
        is_flop(flop),
        is_holding(hole, flop),
    ensures
        nuts_of(flop).admits(hole) <==> unbeaten(flop, hole),
{
    match flush_suit(flop) {
        Some(s) => {
            lemma_count_suit_of_three(flop, s);
            assert(is_suited_flop(flop, s));
            lemma_suited_flop_nuts(flop, hole, s);
        },
        None => {
            lemma_offsuit_flop_nuts(flop, hole);
        },
    }
}

} // verus!
