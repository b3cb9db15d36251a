//! Flops on which the description of the nuts is shown to name just the
//! holdings that nothing beats.

use super::card::{Card, Suit, Value};
use super::cards::{
    all_same_suit,
    count_suit,
    high_ordinals,
    is_first_ace,
    is_run,
    low_ordinals,
    of_suit,
    run_top,
    straight_top,
    values_of,
};
use super::hand::{grouped, occurs, SortedHandValue};
use super::nuts::{flush_suit, nuts_of, straight_nuts, top_rank, FindNuts};
use super::rank::{
    first_witness,
    hit,
    lemma_describes_exists,
    lemma_groups_cover,
    lemma_occurs_of_five,
    rank_of,
};
use super::scan::{free, holds_ordinal, missing, present, scan, solve_of, solves, window};
use super::showdown::{best_of, five_of, is_best, lemma_best_unique, rising};
use super::strength::{lemma_order_trichotomy, lex_less};
use super::tie::{lemma_three_in_two, suit_hit};
use super::unbeaten::{is_holding, lemma_holding_on_less, unbeaten};
use vstd::prelude::*;

verus! {

/// Five cards have one choice of five: the best value among them is their
/// own.
pub proof fn lemma_best_of_five(cards: Seq<Card>)
    requires
        cards.len() == 5,
    ensures
        best_of(cards) == rank_of(cards),
{
    let v = rank_of(cards);
    assert(five_of(cards, 0, 1, 2, 3, 4) =~= cards);
    assert forall|a: int, b: int, c: int, d: int, e: int| rising(a, b, c, d, e, 5) implies rank_of(
        #[trigger] five_of(cards, a, b, c, d, e),
    ).at_most(v) by {
        assert(a == 0 && b == 1 && c == 2 && d == 3 && e == 4);
    }
    assert(rising(0, 1, 2, 3, 4, 5) && v == rank_of(five_of(cards, 0, 1, 2, 3, 4)));
    assert(is_best(cards, v));
    lemma_best_unique(cards, v, best_of(cards));
}

/// Among three cards, a suit occurs as often as the three places hold it.
pub proof fn lemma_count_suit_of_three(cards: Seq<Card>, s: Suit)
    requires
        cards.len() == 3,
    ensures
        count_suit(cards, s) == suit_hit(cards, 0, s) + suit_hit(cards, 1, s) + suit_hit(
            cards,
            2,
            s,
        ),
{
    let f = of_suit(s);
    let e = Seq::<Card>::empty();
    let s1 = e.push(cards[0]);
    let s2 = s1.push(cards[1]);
    let s3 = s2.push(cards[2]);
    assert(s3 =~= cards);
    e.lemma_filter_len(f);
    assert(e.filter(f).len() == 0);
    e.lemma_filter_push(cards[0], f);
    s1.lemma_filter_push(cards[1], f);
    s2.lemma_filter_push(cards[2], f);
}

/// 1 where no card stands at the place `o` of the straight scale, else 0.
pub open spec fn gap(cards: Seq<Card>, o: int) -> nat {
    if present(cards, o) {
        0
    } else {
        1
    }
}

/// A window misses as many places as it has gaps.
pub proof fn lemma_missing_count(cards: Seq<Card>, start: int)
    ensures
        missing(cards, start).len() == gap(cards, start) + gap(cards, start + 1) + gap(
            cards,
            start + 2,
        ) + gap(cards, start + 3) + gap(cards, start + 4),
{
    let f = free(cards);
    let e = Seq::<int>::empty();
    let s1 = e.push(start);
    let s2 = s1.push(start + 1);
    let s3 = s2.push(start + 2);
    let s4 = s3.push(start + 3);
    let s5 = s4.push(start + 4);
    assert(s5 =~= window(start));
    e.lemma_filter_len(f);
    assert(e.filter(f).len() == 0);
    e.lemma_filter_push(start, f);
    s1.lemma_filter_push(start + 1, f);
    s2.lemma_filter_push(start + 2, f);
    s3.lemma_filter_push(start + 3, f);
    s4.lemma_filter_push(start + 4, f);
}

/// The scan loses nothing of what was found, and finds a window that
/// misses two places at most.
pub proof fn lemma_scan_finds(
    cards: Seq<Card>,
    start: int,
    only_first: bool,
    found: Seq<super::scan::StraightSolve>,
    at: int,
)
    requires
        start <= 9,
    ensures
        scan(cards, start, only_first, found).len() >= found.len(),
        0 <= at <= start && missing(cards, at).len() <= 2 ==> scan(
            cards,
            start,
            only_first,
            found,
        ).len() >= 1,
    decreases start + 1,
{
    if start >= 0 {
        let m = missing(cards, start);
        if m.len() > 2 {
            lemma_scan_finds(cards, start - 1, only_first, found, at);
        } else {
            let next = if found.contains(solve_of(m)) {
                found
            } else {
                found.push(solve_of(m))
            };
            if found.contains(solve_of(m)) {
                assert(found.len() >= 1);
            }
            if !(m.len() == 0 || only_first) {
                lemma_scan_finds(cards, start - 1, only_first, next, at);
            }
        }
    }
}

/// A window in which cards stand at three places misses two at most.
pub proof fn lemma_three_present(cards: Seq<Card>, start: int, x: int, y: int, z: int)
    requires
        start <= x <= start + 4,
        start <= y <= start + 4,
        start <= z <= start + 4,
        x != y && x != z && y != z,
        present(cards, x),
        present(cards, y),
        present(cards, z),
    ensures
        missing(cards, start).len() <= 2,
{
    lemma_missing_count(cards, start);
}

/// What the lemmas below ask of a flop: three cards, all different.
pub open spec fn is_flop(flop: Seq<Card>) -> bool {
    flop.len() == 3 && flop.no_duplicates()
}

/// The five cards of a holding on a flop, the holding first: they differ,
/// and the last three are the flop.
pub proof fn lemma_flop_hand(flop: Seq<Card>, hole: Seq<Card>)
    requires
        flop.len() == 3,
        is_holding(hole, flop),
    ensures
        (hole + flop).len() == 5,
        (hole + flop).no_duplicates(),
        (hole + flop)[0] == hole[0],
        (hole + flop)[1] == hole[1],
        (hole + flop)[2] == flop[0],
        (hole + flop)[3] == flop[1],
        (hole + flop)[4] == flop[2],
        hole[0] != hole[1],
        rank_of(hole + flop).describes(hole + flop),
        best_of(hole + flop) == rank_of(hole + flop),
{
    let hand = hole + flop;
    assert(hand[0] == hole[0] && hand[1] == hole[1]);
    assert(hand[0] != hand[1]);
    lemma_describes_exists(hand);
    lemma_best_of_five(hand);
}

/// With a flop that leaves no straight within reach, no holding makes a
/// straight.
pub proof fn lemma_flop_no_straight(flop: Seq<Card>, hole: Seq<Card>, only_first: bool)
    requires
        flop.len() == 3,
        is_holding(hole, flop),
        solves(flop, only_first).len() == 0,
    ensures
        straight_top(values_of(hole + flop)) is None,
{
    let hand = hole + flop;
    lemma_flop_hand(flop, hole);
    let vals = values_of(hand);
    let hi = high_ordinals(vals);
    assert(forall|i: int| 0 <= i < 5 ==> 1 <= #[trigger] hi[i] <= 13);
    if run_top(hi) is Some {
        let t = choose|t: int| is_run(hi, t);
        assert(is_run(hi, t));
        let w = choose|w: int| 0 <= w < hi.len() && hi[w] == t;
        assert(t - 5 < hi[0] <= t && t - 5 < hi[1] <= t && t - 5 < hi[2] <= t && t - 5 < hi[3] <= t
            && t - 5 < hi[4] <= t);
        assert(hi[0] != hi[1] && hi[0] != hi[2] && hi[0] != hi[3] && hi[0] != hi[4]);
        assert(hi[1] != hi[2] && hi[1] != hi[3] && hi[1] != hi[4]);
        assert(hi[2] != hi[3] && hi[2] != hi[4] && hi[3] != hi[4]);
        assert(t >= 5);
        assert(holds_ordinal(flop[0], hi[2]));
        assert(holds_ordinal(flop[1], hi[3]));
        assert(holds_ordinal(flop[2], hi[4]));
        lemma_three_present(flop, t - 4, hi[2], hi[3], hi[4]);
        lemma_scan_finds(flop, 9, only_first, Seq::empty(), t - 4);
    } else if vals.contains(Value::Ace) && run_top(low_ordinals(vals)) is Some {
        let lo = low_ordinals(vals);
        let t = choose|t: int| is_run(lo, t);
        assert(is_run(lo, t));
        let w = choose|w: int| 0 <= w < vals.len() && vals[w] == Value::Ace;
        let k = first_witness(vals, w);
        let f = super::cards::first_ace(vals);
        assert(is_first_ace(vals, f));
        assert(lo[f] == 0);
        assert(forall|i: int| 0 <= i < 5 ==> 0 <= #[trigger] lo[i] <= 13);
        assert(t - 5 < lo[0] <= t && t - 5 < lo[1] <= t && t - 5 < lo[2] <= t && t - 5 < lo[3] <= t
            && t - 5 < lo[4] <= t);
        assert(lo[0] != lo[1] && lo[0] != lo[2] && lo[0] != lo[3] && lo[0] != lo[4]);
        assert(lo[1] != lo[2] && lo[1] != lo[3] && lo[1] != lo[4]);
        assert(lo[2] != lo[3] && lo[2] != lo[4] && lo[3] != lo[4]);
        assert(t == 4);
        assert forall|i: int| 2 <= i < 5 implies present(flop, #[trigger] lo[i]) by {
            if i == f {
                assert(flop[i - 2].0 == Value::Ace);
                assert(holds_ordinal(flop[i - 2], 0));
            } else {
                assert(lo[i] == hi[i]);
                assert(holds_ordinal(flop[i - 2], lo[i]));
            }
        }
        assert(present(flop, lo[2]) && present(flop, lo[3]) && present(flop, lo[4]));
        lemma_three_present(flop, 0, lo[2], lo[3], lo[4]);
        lemma_scan_finds(flop, 9, only_first, Seq::empty(), 0);
    }
}

/// With a flop of less than three cards of one suit, no holding makes a
/// flush.
pub proof fn lemma_flop_no_flush(flop: Seq<Card>, hole: Seq<Card>)
    requires
        flop.len() == 3,
        is_holding(hole, flop),
        flush_suit(flop) is None,
    ensures
        !all_same_suit(hole + flop),
{
    let hand = hole + flop;
    lemma_flop_hand(flop, hole);
    if all_same_suit(hand) {
        let s = hand[2].1;
        assert(hand[3].1 == s && hand[4].1 == s);
        lemma_count_suit_of_three(flop, s);
        assert(count_suit(flop, s) == 3);
        match s {
            Suit::Spades => {},
            Suit::Hearts => {},
            Suit::Diamonds => {},
            Suit::Clubs => {},
        }
    }
}

/// With a flop of three different ranks, no holding makes four of a kind
/// or a full house.
pub proof fn lemma_flop_no_big_groups(flop: Seq<Card>, hole: Seq<Card>)
    requires
        flop.len() == 3,
        is_holding(hole, flop),
        values_of(flop).no_duplicates(),
    ensures
        !(rank_of(hole + flop) is Quads),
        !(rank_of(hole + flop) is FullHouse),
{
    let hand = hole + flop;
    lemma_flop_hand(flop, hole);
    let hv = values_of(hand);
    let fv = values_of(flop);
    let x = hand[2].0;
    let y = hand[3].0;
    let z = hand[4].0;
    assert(fv[0] == x && fv[1] == y && fv[2] == z);
    assert(x != y && x != z && y != z);
    lemma_occurs_of_five(hv, x);
    lemma_occurs_of_five(hv, y);
    lemma_occurs_of_five(hv, z);
    assert(hv[2] == x && hv[3] == y && hv[4] == z);
    match rank_of(hand) {
        SortedHandValue::Quads(u) => {
            assert(grouped(hv, u@, seq![4nat, 1nat]));
            lemma_groups_cover(hv, u@, seq![4nat, 1nat], x);
            lemma_groups_cover(hv, u@, seq![4nat, 1nat], y);
            lemma_groups_cover(hv, u@, seq![4nat, 1nat], z);
            lemma_three_in_two(u@, x, y, z);
        },
        SortedHandValue::FullHouse(u) => {
            assert(grouped(hv, u@, seq![3nat, 2nat]));
            lemma_groups_cover(hv, u@, seq![3nat, 2nat], x);
            lemma_groups_cover(hv, u@, seq![3nat, 2nat], y);
            lemma_groups_cover(hv, u@, seq![3nat, 2nat], z);
            lemma_three_in_two(u@, x, y, z);
        },
        _ => {},
    }
}

/// A flop is dry: three different ranks, no three cards of one suit, no
/// straight within reach of a holding.
pub open spec fn is_dry(flop: Seq<Card>) -> bool {
    &&& is_flop(flop)
    &&& values_of(flop).no_duplicates()
    &&& flush_suit(flop) is None
    &&& solves(flop, true).len() == 0
}

/// On a dry flop a holding makes three of a kind at best.
pub proof fn lemma_dry_flop_shapes(flop: Seq<Card>, hole: Seq<Card>)
    requires
        is_dry(flop),
        is_holding(hole, flop),
    ensures
        rank_of(hole + flop).category() <= 3,
{
    lemma_flop_hand(flop, hole);
    lemma_flop_no_straight(flop, hole, true);
    lemma_flop_no_flush(flop, hole);
    lemma_flop_no_big_groups(flop, hole);
}

/// The highest of three ranks is one of them and no lower than any.
pub proof fn lemma_top_of_three(vals: Seq<Value>)
    requires
        vals.len() == 3,
    ensures
        vals.contains(top_rank(vals)),
        forall|i: int| 0 <= i < 3 ==> (#[trigger] vals[i]).ordinal() <= top_rank(vals).ordinal(),
{
    reveal_with_fuel(top_rank, 4);
    let two = vals.drop_last();
    let one = two.drop_last();
    assert(two.len() == 2 && one.len() == 1);
    assert(one[0] == vals[0] && two[1] == vals[1] && two.last() == vals[1] && vals.last()
        == vals[2]);
    assert(top_rank(one) == vals[0]);
    let t = top_rank(vals);
    assert(t == vals[0] || t == vals[1] || t == vals[2]);
}

/// Of two values of one category, the one with the lower first rank is
/// the weaker.
pub proof fn lemma_first_rank_decides(a: SortedHandValue, b: SortedHandValue)
    requires
        a.category() == b.category(),
        a.kickers().len() > 0,
        b.kickers().len() > 0,
        a.kickers()[0].ordinal() < b.kickers()[0].ordinal(),
    ensures
        a.weaker_than(b),
        !b.weaker_than(a),
{
    assert(a.kickers().take(0) =~= b.kickers().take(0));
    assert(lex_less(a.kickers(), b.kickers()));
    lemma_order_trichotomy(a, b);
}

/// Three of a kind on a flop of three different ranks is a pair in the
/// hand that meets a card of the flop.
pub proof fn lemma_trips_on_flop(flop: Seq<Card>, hole: Seq<Card>)
    requires
        flop.len() == 3,
        values_of(flop).no_duplicates(),
        is_holding(hole, flop),
        rank_of(hole + flop) is Trips,
    ensures
        ({
            let r = rank_of(hole + flop)->Trips_0[0];
            &&& hole[0].0 == r
            &&& hole[1].0 == r
            &&& values_of(flop).contains(r)
        }),
{
    let hand = hole + flop;
    lemma_flop_hand(flop, hole);
    let hv = values_of(hand);
    let fv = values_of(flop);
    let u = rank_of(hand)->Trips_0;
    let r = u[0];
    assert(grouped(hv, u@, seq![3nat, 1nat, 1nat]));
    assert(occurs(hv, u@[0]) == 3);
    lemma_occurs_of_five(hv, r);
    assert(hv[2] == fv[0] && hv[3] == fv[1] && hv[4] == fv[2]);
    assert(fv[0] != fv[1] && fv[0] != fv[2] && fv[1] != fv[2]);
    assert(hit(hv, 2, r) + hit(hv, 3, r) + hit(hv, 4, r) <= 1);
    assert(hv[0] == r && hv[1] == r);
    let k = if fv[0] == r {
        0int
    } else if fv[1] == r {
        1int
    } else {
        2int
    };
    assert(fv[k] == r);
}

/// A pair in the hand that meets a card of a dry flop makes three of a
/// kind of its rank.
pub proof fn lemma_set_on_flop(flop: Seq<Card>, hole: Seq<Card>, r: Value)
    requires
        is_dry(flop),
        is_holding(hole, flop),
        hole[0].0 == r,
        hole[1].0 == r,
        values_of(flop).contains(r),
    ensures
        rank_of(hole + flop) is Trips,
        rank_of(hole + flop)->Trips_0[0] == r,
{
    let hand = hole + flop;
    lemma_flop_hand(flop, hole);
    lemma_dry_flop_shapes(flop, hole);
    let hv = values_of(hand);
    let fv = values_of(flop);
    let v = rank_of(hand);
    let k = choose|k: int| 0 <= k < 3 && fv[k] == r;
    assert(hv[k + 2] == r);
    assert(hv[0] == r && hv[1] == r);
    lemma_occurs_of_five(hv, r);
    assert(occurs(hv, r) >= 3);
    match v {
        SortedHandValue::Trips(u) => {
            assert(grouped(hv, u@, seq![3nat, 1nat, 1nat]));
            lemma_groups_cover(hv, u@, seq![3nat, 1nat, 1nat], r);
            let w = choose|w: int| 0 <= w < u@.len() && u@[w] == r;
            assert(occurs(hv, u@[w]) >= 3);
            assert(w == 0);
        },
        SortedHandValue::TwoPair(u) => {
            assert(grouped(hv, u@, seq![2nat, 2nat, 1nat]));
            lemma_groups_cover(hv, u@, seq![2nat, 2nat, 1nat], r);
            let w = choose|w: int| 0 <= w < u@.len() && u@[w] == r;
            assert(occurs(hv, u@[w]) >= 3);
        },
        SortedHandValue::OnePair(u) => {
            assert(grouped(hv, u@, seq![2nat, 1nat, 1nat, 1nat]));
            lemma_groups_cover(hv, u@, seq![2nat, 1nat, 1nat, 1nat], r);
            let w = choose|w: int| 0 <= w < u@.len() && u@[w] == r;
            assert(occurs(hv, u@[w]) >= 3);
        },
        SortedHandValue::HighCard(u) => {
            assert(hv.no_duplicates());
            assert(hv[0] == hv[1]);
        },
        _ => {},
    }
}

/// Where five cards hold a rank twice at most, two more cards of the rank
/// can be held on them.
pub proof fn lemma_two_more_of_rank(out: Seq<Card>, r: Value) -> (pair: Seq<Card>)
    requires
        out.len() == 5,
        out.no_duplicates(),
        occurs(values_of(out), r) <= 2,
    ensures
        is_holding(pair, out),
        pair[0].0 == r,
        pair[1].0 == r,
{
    let vals = values_of(out);
    lemma_occurs_of_five(vals, r);
    let used = |s: Suit| out.contains(Card(r, s));
    let at = |s: Suit| choose|i: int| 0 <= i < 5 && out[i] == Card(r, s);
    assert forall|s: Suit| used(s) implies 0 <= at(s) < 5 && out[at(s)] == Card(r, s) && vals[at(
        s,
    )] == r by {}
    let a = Suit::Spades;
    let b = Suit::Hearts;
    let c = Suit::Diamonds;
    let d = Suit::Clubs;
    assert(!(used(a) && used(b) && used(c)));
    assert(!(used(a) && used(b) && used(d)));
    assert(!(used(a) && used(c) && used(d)));
    assert(!(used(b) && used(c) && used(d)));
    let (x, y) = if !used(a) && !used(b) {
        (a, b)
    } else if !used(a) && !used(c) {
        (a, c)
    } else if !used(a) && !used(d) {
        (a, d)
    } else if !used(b) && !used(c) {
        (b, c)
    } else if !used(b) && !used(d) {
        (b, d)
    } else {
        (c, d)
    };
    assert(!used(x) && !used(y) && x != y);
    let pair = seq![Card(r, x), Card(r, y)];
    let all = pair + out;
    assert forall|i: int, j: int| 0 <= i < all.len() && 0 <= j < all.len() && i != j implies all[i]
        != all[j] by {
        if i >= 2 && j >= 2 {
            assert(all[i] == out[i - 2] && all[j] == out[j - 2]);
        } else if i >= 2 {
            assert(all[i] == out[i - 2]);
            assert(out.contains(out[i - 2]));
        } else if j >= 2 {
            assert(all[j] == out[j - 2]);
            assert(out.contains(out[j - 2]));
        }
    }
    pair
}

/// Two holdings that differ cannot both be a pair of a rank that the flop
/// shows: the rank has four cards.
pub proof fn lemma_one_set_only(flop: Seq<Card>, hole: Seq<Card>, other: Seq<Card>, r: Value)
    requires
        flop.len() == 3,
        is_holding(hole, flop),
        is_holding(other, hole + flop),
        values_of(flop).contains(r),
        hole[0].0 == r,
        hole[1].0 == r,
    ensures
        !(other[0].0 == r && other[1].0 == r),
{
    let fv = values_of(flop);
    let k = choose|k: int| 0 <= k < 3 && fv[k] == r;
    let all = other + (hole + flop);
    assert(all[0] == other[0] && all[1] == other[1] && all[2] == hole[0] && all[3] == hole[1]
        && all[4 + k] == flop[k]);
    if other[0].0 == r && other[1].0 == r {
        let c0 = all[0];
        let c1 = all[1];
        let c2 = all[2];
        let c3 = all[3];
        let c4 = all[4 + k];
        assert(c0 != c1 && c0 != c2 && c0 != c3 && c0 != c4);
        assert(c1 != c2 && c1 != c3 && c1 != c4);
        assert(c2 != c3 && c2 != c4 && c3 != c4);
        assert(c0.0 == r && c1.0 == r && c2.0 == r && c3.0 == r && c4.0 == r);
        assert(c0.1 != c1.1 && c0.1 != c2.1 && c0.1 != c3.1 && c0.1 != c4.1);
        assert(c1.1 != c2.1 && c1.1 != c3.1 && c1.1 != c4.1);
        assert(c2.1 != c3.1 && c2.1 != c4.1 && c3.1 != c4.1);
        assert(false);
    }
}

/// On a dry flop the nuts is the pair of the flop's highest rank, the top
/// set: the description names it, and it is just the holding that nothing
/// beats.
pub proof fn lemma_dry_flop_nuts(flop: Seq<Card>, hole: Seq<Card>)
    requires
        is_dry(flop),
        is_holding(hole, flop),
    ensures
        nuts_of(flop) == FindNuts::PocketPair(top_rank(values_of(flop))),
        nuts_of(flop).admits(hole) <==> unbeaten(flop, hole),
{
    let fv = values_of(flop);
    let top = top_rank(fv);
    lemma_top_of_three(fv);
    lemma_flop_hand(flop, hole);
    lemma_dry_flop_shapes(flop, hole);
    let mine = rank_of(hole + flop);
    assert(nuts_of(flop) == straight_nuts(flop));
    if hole[0].0 == top && hole[1].0 == top {
        lemma_set_on_flop(flop, hole, top);
        assert forall|other: Seq<Card>| #[trigger] is_holding(other, hole + flop) implies !best_of(
            hole + flop,
        ).weaker_than(best_of(other + flop)) by {
            lemma_holding_on_less(other, hole, flop);
            lemma_flop_hand(flop, other);
            lemma_dry_flop_shapes(flop, other);
            let theirs = rank_of(other + flop);
            if theirs is Trips {
                lemma_trips_on_flop(flop, other);
                let r = theirs->Trips_0[0];
                lemma_one_set_only(flop, hole, other, top);
                let k = choose|k: int| 0 <= k < 3 && fv[k] == r;
                assert(fv[k].ordinal() <= top.ordinal());
                assert(r != top);
                lemma_first_rank_decides(theirs, mine);
            } else {
                lemma_order_trichotomy(mine, theirs);
            }
        }
    } else {
        let out = hole + flop;
        let ov = values_of(out);
        lemma_occurs_of_five(ov, top);
        assert(ov[2] == fv[0] && ov[3] == fv[1] && ov[4] == fv[2]);
        assert(ov[0] == hole[0].0 && ov[1] == hole[1].0);
        assert(hit(ov, 2, top) + hit(ov, 3, top) + hit(ov, 4, top) <= 1);
        assert(occurs(ov, top) <= 2);
        let other = lemma_two_more_of_rank(out, top);
        lemma_holding_on_less(other, hole, flop);
        lemma_flop_hand(flop, other);
        lemma_set_on_flop(flop, other, top);
        let theirs = rank_of(other + flop);
        if mine is Trips {
            lemma_trips_on_flop(flop, hole);
            let r = mine->Trips_0[0];
            let k = choose|k: int| 0 <= k < 3 && fv[k] == r;
            assert(fv[k].ordinal() <= top.ordinal());
            assert(r != top);
            lemma_first_rank_decides(mine, theirs);
        }
        assert(mine.weaker_than(theirs));
        assert(is_holding(other, hole + flop) && best_of(hole + flop).weaker_than(
            best_of(other + flop),
        ));
    }
}

} // verus!
