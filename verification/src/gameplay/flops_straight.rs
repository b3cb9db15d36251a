//! Flops of three different ranks, not all of one suit, that leave a
//! straight within reach: the description of the nuts names just the
//! holdings that nothing beats.

use super::card::{Card, Value};
use super::cards::{
    all_same_suit, high_ordinals, is_first_ace, is_run, lemma_run_top_unique, low_ordinals,
    run_top, straight_top, values_of,
};
use super::flops::{
    gap,
    is_flop,
    lemma_dry_flop_nuts,
    lemma_first_rank_decides,
    lemma_flop_hand,
    lemma_flop_no_big_groups,
    lemma_flop_no_flush,
    lemma_missing_count,
};
use super::flops_paired::{
    lemma_flop_hand_values,
    lemma_occurs_of_three,
    lemma_one_more_of_rank,
    lemma_pair_flop_nuts,
    lemma_trips_flop_nuts,
    lemma_two_free_hold,
};
use super::hand::{occurs, SortedHandValue};
use super::nuts::{flush_suit, nuts_of, straight_nuts, FindNuts};
use super::rank::{first_witness, lemma_describes_unique, rank_of};
use super::scan::{
    free, holds_ordinal, missing, present, scan, solve_of, solves, window, StraightSolve,
};
use super::showdown::best_of;
use super::strength::lemma_order_trichotomy;
use super::unbeaten::{is_holding, lemma_holding_on_less, unbeaten};
use vstd::prelude::*;

verus! {

/// The highest window, from the one that begins at `from` down, that
/// misses two places at most; -1 where there is none.
pub open spec fn top_window(cards: Seq<Card>, from: int) -> int
    decreases from + 1,
{
    if from < 0 {
        -1
    } else if missing(cards, from).len() <= 2 {
        from
    } else {
        top_window(cards, from - 1)
    }
}

/// What `top_window` finds.
pub proof fn lemma_top_window(cards: Seq<Card>, from: int)
    requires
        from <= 9,
    ensures
        -1 <= top_window(cards, from) <= from || from < -1,
        top_window(cards, from) >= 0 ==> missing(cards, top_window(cards, from)).len() <= 2,
        forall|w: int|
            top_window(cards, from) < w <= from && 0 <= w ==> (#[trigger] missing(cards, w)).len()
                > 2,
    decreases from + 1,
{
    if from >= 0 && missing(cards, from).len() > 2 {
        lemma_top_window(cards, from - 1);
    }
}

/// The scan that stops at the first solve lists the solve of the highest
/// window that misses two places at most, and nothing else.
pub proof fn lemma_scan_first(cards: Seq<Card>, from: int)
    requires
        from <= 9,
    ensures
        scan(cards, from, true, Seq::empty()) == if top_window(cards, from) < 0 {
            Seq::<StraightSolve>::empty()
        } else {
            seq![solve_of(missing(cards, top_window(cards, from)))]
        },
    decreases from + 1,
{
    if from >= 0 {
        let m = missing(cards, from);
        if m.len() > 2 {
            lemma_scan_first(cards, from - 1);
        } else {
            let none = Seq::<StraightSolve>::empty();
            assert(!none.contains(solve_of(m)));
            assert(none.push(solve_of(m)) =~= seq![solve_of(m)]);
        }
    }
}

/// The two gaps of a window that misses two places: the places `lo` and
/// `hi` are what it misses, and cards stand at its other three places.
pub open spec fn misses(cards: Seq<Card>, start: int, lo: int, hi: int) -> bool {
    &&& start <= lo < hi <= start + 4
    &&& !present(cards, lo)
    &&& !present(cards, hi)
    &&& forall|o: int| start <= o <= start + 4 && o != lo && o != hi ==> present(cards, o)
}

/// A window that misses two places misses them in order: the lower first.
pub proof fn lemma_missing_two(cards: Seq<Card>, start: int)
    requires
        missing(cards, start).len() == 2,
    ensures
        misses(cards, start, missing(cards, start)[0], missing(cards, start)[1]),
{
    let f = free(cards);
    let e = Seq::<int>::empty();
    let s1 = e.push(start);
    let s2 = s1.push(start + 1);
    let s3 = s2.push(start + 2);
    let s4 = s3.push(start + 3);
    let s5 = s4.push(start + 4);
    assert(s5 =~= window(start));
    e.lemma_filter_len(f);
    assert(e.filter(f) =~= e);
    e.lemma_filter_push(start, f);
    s1.lemma_filter_push(start + 1, f);
    s2.lemma_filter_push(start + 2, f);
    s3.lemma_filter_push(start + 3, f);
    s4.lemma_filter_push(start + 4, f);
    let m = missing(cards, start);
    let g0 = gap(cards, start);
    let g1 = gap(cards, start + 1);
    let g2 = gap(cards, start + 2);
    let g3 = gap(cards, start + 3);
    let g4 = gap(cards, start + 4);
    assert(f(start) == !present(cards, start));
    assert(f(start + 1) == !present(cards, start + 1));
    assert(f(start + 2) == !present(cards, start + 2));
    assert(f(start + 3) == !present(cards, start + 3));
    assert(f(start + 4) == !present(cards, start + 4));
    assert(s1.filter(f).len() == g0);
    assert(s2.filter(f).len() == g0 + g1);
    assert(s3.filter(f).len() == g0 + g1 + g2);
    assert(s4.filter(f).len() == g0 + g1 + g2 + g3);
    assert(s5.filter(f).len() == g0 + g1 + g2 + g3 + g4);
    assert(g0 + g1 + g2 + g3 + g4 == 2);
}

/// The place of a card in the window that begins at `w`: its place on the
/// straight scale, with the Ace low in the lowest window.
pub open spec fn slot(c: Card, w: int) -> int {
    if w == 0 && c.0 == Value::Ace {
        0
    } else {
        c.0.straight_ordinal()
    }
}

/// The five cards stand at the five places of the window that begins at
/// `w`, one at each.
pub open spec fn fills(hand: Seq<Card>, w: int) -> bool {
    &&& 0 <= w <= 9
    &&& hand.len() == 5
    &&& forall|i: int| 0 <= i < 5 ==> w <= slot(#[trigger] hand[i], w) <= w + 4
    &&& forall|i: int, j: int|
        0 <= i < j < 5 ==> slot(#[trigger] hand[i], w) != slot(#[trigger] hand[j], w)
}

/// In a window, a card stands at a place exactly where its slot is the
/// place.
pub proof fn lemma_slot_holds(c: Card, w: int, o: int)
    requires
        0 <= w <= 9,
        w <= o <= w + 4,
    ensures
        holds_ordinal(c, o) <==> slot(c, w) == o,
{
}

/// Five cards that fill a window make the straight of the window.
pub proof fn lemma_fills_is_straight(hand: Seq<Card>, w: int)
    requires
        fills(hand, w),
    ensures
        straight_top(values_of(hand)) == Some(Value::of_straight_ordinal(w + 4)),
{
    let vals = values_of(hand);
    let hi = high_ordinals(vals);
    let s = |i: int| slot(hand[i], w);
    assert(w <= s(0) <= w + 4 && w <= s(1) <= w + 4 && w <= s(2) <= w + 4 && w <= s(3) <= w + 4
        && w <= s(4) <= w + 4);
    assert(s(0) != s(1) && s(0) != s(2) && s(0) != s(3) && s(0) != s(4));
    assert(s(1) != s(2) && s(1) != s(3) && s(1) != s(4));
    assert(s(2) != s(3) && s(2) != s(4) && s(3) != s(4));
    assert(s(0) == w + 4 || s(1) == w + 4 || s(2) == w + 4 || s(3) == w + 4 || s(4) == w + 4);
    let top = if s(0) == w + 4 {
        0int
    } else if s(1) == w + 4 {
        1int
    } else if s(2) == w + 4 {
        2int
    } else if s(3) == w + 4 {
        3int
    } else {
        4int
    };
    if w >= 1 {
        assert forall|i: int| 0 <= i < 5 implies hi[i] == s(i) by {}
        assert(hi[top] == w + 4);
        assert(hi.no_duplicates());
        assert(is_run(hi, w + 4));
        assert(run_top(hi) == Some(w + 4)) by {
            lemma_run_top_unique(hi, w + 4, run_top(hi)->0);
        }
    } else {
        assert(s(0) == 0 || s(1) == 0 || s(2) == 0 || s(3) == 0 || s(4) == 0);
        let ace = if s(0) == 0 {
            0int
        } else if s(1) == 0 {
            1int
        } else if s(2) == 0 {
            2int
        } else if s(3) == 0 {
            3int
        } else {
            4int
        };
        assert(vals[ace] == Value::Ace);
        assert forall|i: int| 0 <= i < 5 && i != ace implies vals[i] != Value::Ace && hi[i] == s(
            i,
        ) && 1 <= hi[i] <= 4 by {
            if vals[i] == Value::Ace {
                assert(s(i) == 0);
            }
        }
        assert(is_first_ace(vals, ace));
        assert(vals.contains(Value::Ace));
        let f = super::cards::first_ace(vals);
        assert(is_first_ace(vals, f));
        assert(f == ace) by {
            if f < ace {
                assert(vals[f] != Value::Ace);
            }
            if ace < f {
                assert(vals[ace] != Value::Ace);
            }
        }
        let lo = low_ordinals(vals);
        assert forall|i: int| 0 <= i < 5 implies lo[i] == s(i) by {}
        assert(lo[top] == 4);
        assert(lo.no_duplicates());
        assert(is_run(lo, 4));
        assert(run_top(lo) == Some(4int)) by {
            lemma_run_top_unique(lo, 4, run_top(lo)->0);
        }
        assert(run_top(hi) is None) by {
            if run_top(hi) is Some {
                let t = choose|t: int| is_run(hi, t);
                assert(is_run(hi, t));
                let other = if ace == 0 {
                    1int
                } else {
                    0int
                };
                assert(hi[ace] == 13);
                assert(t - 5 < hi[ace] <= t);
                assert(t - 5 < hi[other] <= t);
            }
        }
    }
}

/// Five cards of five different ranks from the Ace and the Deuce up to
/// the Five make the wheel: a straight, or a straight flush, with the Five
/// on top, not the Ace.
pub proof fn lemma_wheel_tops_at_five(hand: Seq<Card>)
    requires
        hand.len() == 5,
        values_of(hand).no_duplicates(),
        forall|i: int|
            0 <= i < 5 ==> (#[trigger] hand[i]).0 == Value::Ace || hand[i].0.ordinal() <= 3,
    ensures
        straight_top(values_of(hand)) == Some(Value::Five),
        rank_of(hand) == if all_same_suit(hand) {
            SortedHandValue::StraightFlush(Value::Five)
        } else {
            SortedHandValue::Straight(Value::Five)
        },
{
    let vals = values_of(hand);
    assert forall|i: int, j: int| 0 <= i < j < 5 implies slot(#[trigger] hand[i], 0) != slot(
        #[trigger] hand[j],
        0,
    ) by {
        assert(vals[i] != vals[j]);
    }
    assert(fills(hand, 0));
    lemma_fills_is_straight(hand, 0);
    let want = if all_same_suit(hand) {
        SortedHandValue::StraightFlush(Value::Five)
    } else {
        SortedHandValue::Straight(Value::Five)
    };
    assert(want.describes(hand));
    assert(hand.no_duplicates()) by {
        assert forall|i: int, j: int| 0 <= i < 5 && 0 <= j < 5 && i != j implies hand[i]
            != hand[j] by {
            assert(vals[i] != vals[j]);
        }
    }
    lemma_describes_unique(hand, want, rank_of(hand));
}

/// Five cards of five different ranks from the Ten up to the Ace make
/// the straight with the Ace on top; of one suit, the royal flush.
pub proof fn lemma_broadway_tops_at_ace(hand: Seq<Card>)
    requires
        hand.len() == 5,
        values_of(hand).no_duplicates(),
        forall|i: int| 0 <= i < 5 ==> (#[trigger] hand[i]).0.ordinal() >= 8,
    ensures
        straight_top(values_of(hand)) == Some(Value::Ace),
        rank_of(hand) == if all_same_suit(hand) {
            SortedHandValue::RoyalFlush
        } else {
            SortedHandValue::Straight(Value::Ace)
        },
{
    let vals = values_of(hand);
    assert forall|i: int, j: int| 0 <= i < j < 5 implies slot(#[trigger] hand[i], 9) != slot(
        #[trigger] hand[j],
        9,
    ) by {
        assert(vals[i] != vals[j]);
    }
    assert(fills(hand, 9));
    lemma_fills_is_straight(hand, 9);
    let want = if all_same_suit(hand) {
        SortedHandValue::RoyalFlush
    } else {
        SortedHandValue::Straight(Value::Ace)
    };
    assert(want.describes(hand));
    assert(hand.no_duplicates()) by {
        assert forall|i: int, j: int| 0 <= i < 5 && 0 <= j < 5 && i != j implies hand[i]
            != hand[j] by {
            assert(vals[i] != vals[j]);
        }
    }
    lemma_describes_unique(hand, want, rank_of(hand));
}

/// Five cards that make a straight fill a window, of which the straight
/// is the straight.
pub proof fn lemma_straight_fills(hand: Seq<Card>) -> (w: int)
    requires
        hand.len() == 5,
        straight_top(values_of(hand)) is Some,
    ensures
        fills(hand, w),
        straight_top(values_of(hand)) == Some(Value::of_straight_ordinal(w + 4)),
{
    let vals = values_of(hand);
    let hi = high_ordinals(vals);
    assert(forall|i: int| 0 <= i < 5 ==> 1 <= #[trigger] hi[i] <= 13);
    if run_top(hi) is Some {
        let t = choose|t: int| is_run(hi, t);
        assert(is_run(hi, t));
        assert(t - 5 < hi[0] <= t && t - 5 < hi[1] <= t && t - 5 < hi[2] <= t && t - 5 < hi[3] <= t
            && t - 5 < hi[4] <= t);
        assert(hi[0] != hi[1] && hi[0] != hi[2] && hi[0] != hi[3] && hi[0] != hi[4]);
        assert(hi[1] != hi[2] && hi[1] != hi[3] && hi[1] != hi[4]);
        assert(hi[2] != hi[3] && hi[2] != hi[4] && hi[3] != hi[4]);
        let at = choose|at: int| 0 <= at < hi.len() && hi[at] == t;
        assert(5 <= t <= 13);
        let w = t - 4;
        assert forall|i: int| 0 <= i < 5 implies slot(#[trigger] hand[i], w) == hi[i] by {}
        assert(fills(hand, w));
        w
    } else {
        let lo = low_ordinals(vals);
        let t = choose|t: int| is_run(lo, t);
        assert(vals.contains(Value::Ace));
        assert(is_run(lo, t));
        let x = choose|x: int| 0 <= x < vals.len() && vals[x] == Value::Ace;
        let k = first_witness(vals, x);
        let f = super::cards::first_ace(vals);
        assert(is_first_ace(vals, f));
        assert(lo[f] == 0);
        assert(forall|i: int| 0 <= i < 5 ==> 0 <= #[trigger] lo[i] <= 13);
        assert(t - 5 < lo[0] <= t && t - 5 < lo[1] <= t && t - 5 < lo[2] <= t && t - 5 < lo[3] <= t
            && t - 5 < lo[4] <= t);
        assert(lo[0] != lo[1] && lo[0] != lo[2] && lo[0] != lo[3] && lo[0] != lo[4]);
        assert(lo[1] != lo[2] && lo[1] != lo[3] && lo[1] != lo[4]);
        assert(lo[2] != lo[3] && lo[2] != lo[4] && lo[3] != lo[4]);
        assert(t == 4);
        assert forall|i: int| 0 <= i < 5 implies slot(#[trigger] hand[i], 0) == lo[i] by {
            if i != f {
                assert(lo[i] == hi[i]);
                assert(lo[i] <= 4);
            }
        }
        assert(fills(hand, 0));
        0
    }
}

/// In a window, a card stands on the flop at a place exactly where the
/// slot of one of the three cards is the place.
pub proof fn lemma_flop_present(flop: Seq<Card>, w: int, o: int)
    requires
        flop.len() == 3,
        0 <= w <= 9,
        w <= o <= w + 4,
    ensures
        present(flop, o) <==> (slot(flop[0], w) == o || slot(flop[1], w) == o || slot(flop[2], w)
            == o),
{
    lemma_slot_holds(flop[0], w, o);
    lemma_slot_holds(flop[1], w, o);
    lemma_slot_holds(flop[2], w, o);
    if present(flop, o) {
        let i = choose|i: int| 0 <= i < flop.len() && holds_ordinal(#[trigger] flop[i], o);
        assert(i == 0 || i == 1 || i == 2);
    }
    if slot(flop[0], w) == o {
        assert(holds_ordinal(flop[0], o));
    }
    if slot(flop[1], w) == o {
        assert(holds_ordinal(flop[1], o));
    }
    if slot(flop[2], w) == o {
        assert(holds_ordinal(flop[2], o));
    }
}

/// A flop leaves two places of every window free, or more.
pub proof fn lemma_flop_gaps(flop: Seq<Card>, w: int)
    requires
        flop.len() == 3,
        0 <= w <= 9,
    ensures
        missing(flop, w).len() >= 2,
{
    lemma_missing_count(flop, w);
    lemma_flop_present(flop, w, w);
    lemma_flop_present(flop, w, w + 1);
    lemma_flop_present(flop, w, w + 2);
    lemma_flop_present(flop, w, w + 3);
    lemma_flop_present(flop, w, w + 4);
}

/// A holding that fills a window with the flop stands at the two places
/// that the flop leaves free in it.
pub proof fn lemma_fills_misses(flop: Seq<Card>, hole: Seq<Card>, w: int)
    requires
        flop.len() == 3,
        is_holding(hole, flop),
        fills(hole + flop, w),
    ensures
        missing(flop, w).len() == 2,
        ({
            let a = slot(hole[0], w);
            let b = slot(hole[1], w);
            if a < b {
                misses(flop, w, a, b)
            } else {
                misses(flop, w, b, a)
            }
        }),
{
    let hand = hole + flop;
    lemma_flop_hand(flop, hole);
    let s = |i: int| slot(hand[i], w);
    assert(w <= s(0) <= w + 4 && w <= s(1) <= w + 4 && w <= s(2) <= w + 4 && w <= s(3) <= w + 4
        && w <= s(4) <= w + 4);
    assert(s(0) != s(1) && s(0) != s(2) && s(0) != s(3) && s(0) != s(4));
    assert(s(1) != s(2) && s(1) != s(3) && s(1) != s(4));
    assert(s(2) != s(3) && s(2) != s(4) && s(3) != s(4));
    lemma_missing_count(flop, w);
    lemma_flop_present(flop, w, w);
    lemma_flop_present(flop, w, w + 1);
    lemma_flop_present(flop, w, w + 2);
    lemma_flop_present(flop, w, w + 3);
    lemma_flop_present(flop, w, w + 4);
    let a = s(0);
    let b = s(1);
    assert forall|o: int| w <= o <= w + 4 && o != a && o != b implies present(flop, o) by {
        assert(s(2) == o || s(3) == o || s(4) == o);
    }
}

/// A holding that stands at the two places that the flop leaves free in a
/// window fills the window with the flop.
pub proof fn lemma_misses_fills(flop: Seq<Card>, hole: Seq<Card>, w: int, lo: int, hi: int)
    requires
        flop.len() == 3,
        is_holding(hole, flop),
        0 <= w <= 9,
        misses(flop, w, lo, hi),
        (slot(hole[0], w) == lo && slot(hole[1], w) == hi) || (slot(hole[0], w) == hi && slot(
            hole[1],
            w,
        ) == lo),
    ensures
        fills(hole + flop, w),
{
    let hand = hole + flop;
    lemma_flop_hand(flop, hole);
    lemma_flop_present(flop, w, w);
    lemma_flop_present(flop, w, w + 1);
    lemma_flop_present(flop, w, w + 2);
    lemma_flop_present(flop, w, w + 3);
    lemma_flop_present(flop, w, w + 4);
    let f = |i: int| slot(flop[i], w);
    assert(present(flop, w) || w == lo || w == hi);
    assert(present(flop, w + 1) || w + 1 == lo || w + 1 == hi);
    assert(present(flop, w + 2) || w + 2 == lo || w + 2 == hi);
    assert(present(flop, w + 3) || w + 3 == lo || w + 3 == hi);
    assert(present(flop, w + 4) || w + 4 == lo || w + 4 == hi);
    assert(w <= f(0) <= w + 4 && w <= f(1) <= w + 4 && w <= f(2) <= w + 4);
    assert(f(0) != f(1) && f(0) != f(2) && f(1) != f(2));
    assert(f(0) != lo && f(0) != hi && f(1) != lo && f(1) != hi && f(2) != lo && f(2) != hi);
    assert forall|i: int| 0 <= i < 5 implies w <= slot(#[trigger] hand[i], w) <= w + 4 by {}
    assert forall|i: int, j: int| 0 <= i < j < 5 implies slot(#[trigger] hand[i], w) != slot(
        #[trigger] hand[j],
        w,
    ) by {}
}

/// A card of the rank that stands at a place of a window has the place
/// as its slot, and no card of another rank has.
pub proof fn lemma_slot_of_rank(c: Card, w: int, o: int)
    requires
        0 <= w <= 9,
        w <= o <= w + 4,
    ensures
        slot(c, w) == o <==> c.0 == Value::of_straight_ordinal(o),
{
}

/// A flop of three different ranks, not all of one suit, that leaves a
/// straight within reach.
pub open spec fn is_straight_flop(flop: Seq<Card>) -> bool {
    &&& is_flop(flop)
    &&& values_of(flop).no_duplicates()
    &&& flush_suit(flop) is None
    &&& solves(flop, true).len() > 0
}

/// On a flop without a repeated rank and without three cards of one suit,
/// a holding makes a straight at best, and where it makes one, the
/// straight of a window of which it fills the two free places.
pub proof fn lemma_open_flop_shapes(flop: Seq<Card>, hole: Seq<Card>)
    requires
        is_flop(flop),
        values_of(flop).no_duplicates(),
        flush_suit(flop) is None,
        is_holding(hole, flop),
    ensures
        rank_of(hole + flop).category() <= 4,
        !all_same_suit(hole + flop),
{
    lemma_flop_hand(flop, hole);
    lemma_flop_no_flush(flop, hole);
    lemma_flop_no_big_groups(flop, hole);
}

/// The value of a holding that fills a window with a flop that is not of
/// one suit: the straight of the window.
pub proof fn lemma_window_value(flop: Seq<Card>, hole: Seq<Card>, w: int)
    requires
        flop.len() == 3,
        is_holding(hole, flop),
        flush_suit(flop) is None,
        fills(hole + flop, w),
    ensures
        rank_of(hole + flop) == SortedHandValue::Straight(Value::of_straight_ordinal(w + 4)),
{
    let hand = hole + flop;
    lemma_flop_hand(flop, hole);
    lemma_flop_no_flush(flop, hole);
    lemma_fills_is_straight(hand, w);
    let want = SortedHandValue::Straight(Value::of_straight_ordinal(w + 4));
    assert(want.describes(hand));
    lemma_describes_unique(hand, want, rank_of(hand));
}

/// Where no window above the one that begins at `w` is within reach, no
/// holding makes more than the straight of that window, and only a holding
/// that fills the window makes it.
pub proof fn lemma_straight_flop_bound(flop: Seq<Card>, hole: Seq<Card>, w: int)
    requires
        is_flop(flop),
        values_of(flop).no_duplicates(),
        flush_suit(flop) is None,
        is_holding(hole, flop),
        0 <= w <= 9,
        forall|v: int| w < v <= 9 ==> (#[trigger] missing(flop, v)).len() > 2,
    ensures
        rank_of(hole + flop).at_most(SortedHandValue::Straight(Value::of_straight_ordinal(w + 4))),
        rank_of(hole + flop) == SortedHandValue::Straight(Value::of_straight_ordinal(w + 4))
            ==> fills(hole + flop, w),
{
    let best = SortedHandValue::Straight(Value::of_straight_ordinal(w + 4));
    let mine = rank_of(hole + flop);
    lemma_flop_hand(flop, hole);
    lemma_open_flop_shapes(flop, hole);
    if mine is Straight {
        let v = lemma_straight_fills(hole + flop);
        lemma_fills_misses(flop, hole, v);
        assert(v <= w);
        if v < w {
            lemma_first_rank_decides(mine, best);
        }
    }
}

/// What the description of the nuts is on a flop that leaves a straight
/// within reach and nothing better: the two ranks that the highest window
/// within reach misses.
pub proof fn lemma_straight_flop_table(flop: Seq<Card>) -> (r: (int, int, int))
    requires
        is_straight_flop(flop),
    ensures
        0 <= r.0 <= 9,
        misses(flop, r.0, r.1, r.2),
        forall|v: int| r.0 < v <= 9 ==> (#[trigger] missing(flop, v)).len() > 2,
        nuts_of(flop) == FindNuts::TwoValues(
            [Value::of_straight_ordinal(r.2), Value::of_straight_ordinal(r.1)],
        ),
        Value::of_straight_ordinal(r.2) != Value::of_straight_ordinal(r.1),
{
    lemma_scan_first(flop, 9);
    lemma_top_window(flop, 9);
    let w = top_window(flop, 9);
    assert(w >= 0);
    lemma_flop_gaps(flop, w);
    let m = missing(flop, w);
    lemma_missing_two(flop, w);
    let lo = m[0];
    let hi = m[1];
    let a = Value::of_straight_ordinal(hi);
    let b = Value::of_straight_ordinal(lo);
    assert(solves(flop, true)[0] == StraightSolve::Two([a, b]));
    assert(nuts_of(flop) == straight_nuts(flop));
    (w, lo, hi)
}

/// A holding has a card of each of two different ranks exactly where its
/// two cards have the two ranks, one each.
pub proof fn lemma_holds_both(hole: Seq<Card>, a: Value, b: Value)
    requires
        hole.len() == 2,
        a != b,
    ensures
        FindNuts::TwoValues([a, b]).admits(hole) <==> ((hole[0].0 == a && hole[1].0 == b) || (
            hole[0].0 == b && hole[1].0 == a)),
{
    let ws = values_of(hole);
    let pair = [a, b];
    assert(pair[0] == a && pair[1] == b);
    assert(ws[0] == hole[0].0 && ws[1] == hole[1].0);
    if ws.contains(a) {
        let i = choose|i: int| 0 <= i < ws.len() && ws[i] == a;
    }
    if ws.contains(b) {
        let i = choose|i: int| 0 <= i < ws.len() && ws[i] == b;
    }
}

/// Two cards of the two ranks that a window misses on the flop can be
/// held on the five cards of a holding and the flop, and fill the window.
pub proof fn lemma_filling_holding(flop: Seq<Card>, hole: Seq<Card>, w: int, lo: int, hi: int) -> (other:
    Seq<Card>)
    requires
        flop.len() == 3,
        is_holding(hole, flop),
        0 <= w <= 9,
        misses(flop, w, lo, hi),
    ensures
        is_holding(other, hole + flop),
        fills(other + flop, w),
{
    let out = hole + flop;
    let ov = values_of(out);
    let a = Value::of_straight_ordinal(hi);
    let b = Value::of_straight_ordinal(lo);
    lemma_flop_hand_values(flop, hole);
    assert forall|i: int| 0 <= i < 3 implies flop[i].0 != a && flop[i].0 != b by {
        lemma_slot_of_rank(flop[i], w, lo);
        lemma_slot_of_rank(flop[i], w, hi);
        lemma_slot_holds(flop[i], w, lo);
        lemma_slot_holds(flop[i], w, hi);
        assert(!holds_ordinal(flop[i], lo));
        assert(!holds_ordinal(flop[i], hi));
    }
    assert(occurs(ov, a) <= 2);
    assert(occurs(ov, b) <= 2);
    let c0 = lemma_one_more_of_rank(out, a);
    let c1 = lemma_one_more_of_rank(out, b);
    lemma_two_free_hold(out, c0, c1);
    let other = seq![c0, c1];
    lemma_holding_on_less(other, hole, flop);
    lemma_slot_of_rank(c0, w, hi);
    lemma_slot_of_rank(c1, w, lo);
    lemma_misses_fills(flop, other, w, lo, hi);
    other
}

/// On a flop that leaves a straight within reach and nothing better, the
/// nuts is a card of each of the two ranks that complete the highest
/// straight: the description names them, and these are just the holdings
/// that nothing beats.
pub proof fn lemma_straight_flop_nuts(flop: Seq<Card>, hole: Seq<Card>)
    requires
        is_straight_flop(flop),
        is_holding(hole, flop),
    ensures
        nuts_of(flop).admits(hole) <==> unbeaten(flop, hole),
{
    let (w, lo, hi) = lemma_straight_flop_table(flop);
    let a = Value::of_straight_ordinal(hi);
    let b = Value::of_straight_ordinal(lo);
    let best = SortedHandValue::Straight(Value::of_straight_ordinal(w + 4));
    let mine = rank_of(hole + flop);
    lemma_holds_both(hole, a, b);
    lemma_flop_hand(flop, hole);
    lemma_slot_of_rank(hole[0], w, lo);
    lemma_slot_of_rank(hole[0], w, hi);
    lemma_slot_of_rank(hole[1], w, lo);
    lemma_slot_of_rank(hole[1], w, hi);
    lemma_straight_flop_bound(flop, hole, w);
    let both = (hole[0].0 == a && hole[1].0 == b) || (hole[0].0 == b && hole[1].0 == a);
    if both {
        lemma_misses_fills(flop, hole, w, lo, hi);
        lemma_window_value(flop, hole, w);
        assert forall|other: Seq<Card>| #[trigger] is_holding(other, hole + flop) implies !best_of(
            hole + flop,
        ).weaker_than(best_of(other + flop)) by {
            lemma_holding_on_less(other, hole, flop);
            lemma_flop_hand(flop, other);
            lemma_straight_flop_bound(flop, other, w);
            lemma_order_trichotomy(mine, rank_of(other + flop));
        }
    } else {
        let other = lemma_filling_holding(flop, hole, w, lo, hi);
        lemma_holding_on_less(other, hole, flop);
        lemma_flop_hand(flop, other);
        lemma_window_value(flop, other, w);
        if mine == best {
            lemma_fills_misses(flop, hole, w);
        }
        assert(mine.weaker_than(best));
        assert(is_holding(other, hole + flop) && best_of(hole + flop).weaker_than(
            best_of(other + flop),
        ));
    }
}

/// On every flop that does not show three cards of one suit, the
/// description of the nuts names just the holdings that nothing beats.
pub proof fn lemma_offsuit_flop_nuts(flop: Seq<Card>, hole: Seq<Card>)
    requires
        is_flop(flop),
        flush_suit(flop) is None,
        is_holding(hole, flop),
    ensures
        nuts_of(flop).admits(hole) <==> unbeaten(flop, hole),
{
    let fv = values_of(flop);
    assert(fv[0] == flop[0].0 && fv[1] == flop[1].0 && fv[2] == flop[2].0);
    if fv.no_duplicates() {
        if solves(flop, true).len() == 0 {
            lemma_dry_flop_nuts(flop, hole);
        } else {
            lemma_straight_flop_nuts(flop, hole);
        }
    } else {
        assert(fv[0] == fv[1] || fv[0] == fv[2] || fv[1] == fv[2]) by {
            if fv[0] != fv[1] && fv[0] != fv[2] && fv[1] != fv[2] {
                assert(fv.no_duplicates());
            }
        }
        lemma_occurs_of_three(fv, fv[0]);
        lemma_occurs_of_three(fv, fv[1]);
        lemma_occurs_of_three(fv, fv[2]);
        if fv[0] == fv[1] && fv[1] == fv[2] {
            lemma_trips_flop_nuts(flop, hole);
        } else if fv[0] == fv[1] {
            lemma_pair_flop_nuts(flop, hole, fv[0], fv[2]);
        } else if fv[0] == fv[2] {
            lemma_pair_flop_nuts(flop, hole, fv[0], fv[1]);
        } else {
            lemma_pair_flop_nuts(flop, hole, fv[1], fv[0]);
        }
    }
}

} // verus!
