//! Flops that show a rank twice or three times: the description of the
//! nuts names just the holdings that nothing beats.

use super::card::{Card, Suit, Value};
use super::cards::values_of;
use super::flops::{is_flop, lemma_first_rank_decides, lemma_flop_hand, lemma_two_more_of_rank};
use super::hand::{grouped, occurs, SortedHandValue};
use super::nuts::{flush_suit, highest_with, nuts_of, FindNuts};
use super::rank::{
    hit, lemma_describes_exists, lemma_describes_unique, lemma_groups_cover, lemma_occurs_of_five,
    lemma_pair_excludes_flush, rank_of,
};
use super::showdown::best_of;
use super::strength::lemma_order_trichotomy;
use super::flops::lemma_count_suit_of_three;
use super::unbeaten::{is_holding, lemma_holding_on_less, unbeaten};
use vstd::prelude::*;
use vstd::seq_lib::to_multiset_build;

verus! {

/// Among three ranks, a rank occurs as often as the three places hold it.
pub proof fn lemma_occurs_of_three(vals: Seq<Value>, v: Value)
    requires
        vals.len() == 3,
    ensures
        occurs(vals, v) == hit(vals, 0, v) + hit(vals, 1, v) + hit(vals, 2, v),
{
    broadcast use vstd::multiset::group_multiset_axioms;

    let e = Seq::<Value>::empty();
    let s1 = e.push(vals[0]);
    let s2 = s1.push(vals[1]);
    let s3 = s2.push(vals[2]);
    assert(s3 =~= vals);
    assert(e.to_multiset().count(v) == 0) by {
        if e.to_multiset().count(v) > 0 {
            vstd::seq_lib::to_multiset_contains(e, v);
        }
    }
    to_multiset_build(e, vals[0]);
    to_multiset_build(s1, vals[1]);
    to_multiset_build(s2, vals[2]);
}

/// What `highest_with` finds: a rank that occurs so often, below the
/// bound, with no higher such rank below the bound; and where it finds
/// nothing, there is no such rank.
pub proof fn lemma_highest_with(vals: Seq<Value>, times: nat, below: int)
    requires
        0 <= below <= 13,
    ensures
        match highest_with(vals, times, below) {
            Some(v) => occurs(vals, v) == times && v.straight_ordinal() <= below && forall|w: Value|
                w.straight_ordinal() <= below && occurs(vals, w) == times ==> w.ordinal()
                    <= v.ordinal(),
            None => forall|w: Value| w.straight_ordinal() <= below ==> occurs(vals, w) != times,
        },
    decreases below,
{
    if below > 0 {
        let here = Value::of_straight_ordinal(below);
        assert(here.straight_ordinal() == below);
        lemma_highest_with(vals, times, below - 1);
        assert forall|w: Value| w.straight_ordinal() <= below implies w == here
            || w.straight_ordinal() <= below - 1 by {}
    }
}

/// Five different cards that hold a rank four times make four of a kind.
pub proof fn lemma_four_make_quads(hand: Seq<Card>, r: Value)
    requires
        hand.len() == 5,
        hand.no_duplicates(),
        occurs(values_of(hand), r) == 4,
    ensures
        rank_of(hand) is Quads,
        rank_of(hand)->Quads_0[0] == r,
{
    let hv = values_of(hand);
    lemma_describes_exists(hand);
    lemma_pair_excludes_flush(hand, r);
    lemma_occurs_of_five(hv, r);
    match rank_of(hand) {
        SortedHandValue::Quads(u) => {
            assert(grouped(hv, u@, seq![4nat, 1nat]));
            lemma_groups_cover(hv, u@, seq![4nat, 1nat], r);
            let w = choose|w: int| 0 <= w < u@.len() && u@[w] == r;
            assert(occurs(hv, u@[w]) == 4);
            assert(w == 0);
        },
        SortedHandValue::FullHouse(u) => {
            assert(grouped(hv, u@, seq![3nat, 2nat]));
            lemma_groups_cover(hv, u@, seq![3nat, 2nat], r);
            let w = choose|w: int| 0 <= w < u@.len() && u@[w] == r;
            assert(occurs(hv, u@[w]) == 4);
        },
        SortedHandValue::Trips(u) => {
            assert(grouped(hv, u@, seq![3nat, 1nat, 1nat]));
            lemma_groups_cover(hv, u@, seq![3nat, 1nat, 1nat], r);
            let w = choose|w: int| 0 <= w < u@.len() && u@[w] == r;
            assert(occurs(hv, u@[w]) == 4);
        },
        SortedHandValue::TwoPair(u) => {
            assert(grouped(hv, u@, seq![2nat, 2nat, 1nat]));
            lemma_groups_cover(hv, u@, seq![2nat, 2nat, 1nat], r);
            let w = choose|w: int| 0 <= w < u@.len() && u@[w] == r;
            assert(occurs(hv, u@[w]) == 4);
        },
        SortedHandValue::OnePair(u) => {
            assert(grouped(hv, u@, seq![2nat, 1nat, 1nat, 1nat]));
            lemma_groups_cover(hv, u@, seq![2nat, 1nat, 1nat, 1nat], r);
            let w = choose|w: int| 0 <= w < u@.len() && u@[w] == r;
            assert(occurs(hv, u@[w]) == 4);
        },
        SortedHandValue::HighCard(u) => {
            let i = choose|i: int| 0 <= i < 5 && hv[i] == r;
            let j = choose|j: int| 0 <= j < 5 && j != i && hv[j] == r;
            assert(hv[i] == hv[j]);
        },
        _ => {},
    }
}

/// Five different cards that hold a rank twice or more, and none four
/// times, make a full house at best.
pub proof fn lemma_no_four_no_quads(hand: Seq<Card>, r: Value)
    requires
        hand.len() == 5,
        hand.no_duplicates(),
        occurs(values_of(hand), r) >= 2,
        forall|v: Value| occurs(values_of(hand), v) <= 3,
    ensures
        rank_of(hand).category() <= 6,
{
    lemma_describes_exists(hand);
    lemma_pair_excludes_flush(hand, r);
    match rank_of(hand) {
        SortedHandValue::Quads(u) => {
            assert(grouped(values_of(hand), u@, seq![4nat, 1nat]));
            assert(occurs(values_of(hand), u@[0]) == 4);
        },
        _ => {},
    }
}

/// Of three different cards of one rank, one suit is missing.
pub proof fn lemma_fourth_of_rank(flop: Seq<Card>, r: Value) -> (s: Suit)
    requires
        is_flop(flop),
        flop[0].0 == r,
        flop[1].0 == r,
        flop[2].0 == r,
    ensures
        !flop.contains(Card(r, s)),
        forall|t: Suit| t != s ==> flop.contains(Card(r, t)),
{
    let used = |t: Suit| flop[0].1 == t || flop[1].1 == t || flop[2].1 == t;
    assert(flop[0] != flop[1] && flop[0] != flop[2] && flop[1] != flop[2]);
    assert(flop[0].1 != flop[1].1 && flop[0].1 != flop[2].1 && flop[1].1 != flop[2].1);
    let s = if !used(Suit::Spades) {
        Suit::Spades
    } else if !used(Suit::Hearts) {
        Suit::Hearts
    } else if !used(Suit::Diamonds) {
        Suit::Diamonds
    } else {
        Suit::Clubs
    };
    assert(!used(s));
    assert forall|t: Suit| t != s implies flop.contains(Card(r, t)) by {
        assert(used(t));
        let k = if flop[0].1 == t {
            0int
        } else if flop[1].1 == t {
            1int
        } else {
            2int
        };
        assert(flop[k] == Card(r, t));
    }
    s
}

/// Some card is not among six cards or fewer.
pub proof fn lemma_free_card(out: Seq<Card>) -> (c: Card)
    requires
        out.len() <= 6,
    ensures
        !out.contains(c),
{
    let c0 = Card(Value::Deuce, Suit::Spades);
    let c1 = Card(Value::Deuce, Suit::Hearts);
    let c2 = Card(Value::Deuce, Suit::Diamonds);
    let c3 = Card(Value::Deuce, Suit::Clubs);
    let c4 = Card(Value::Trey, Suit::Spades);
    let c5 = Card(Value::Trey, Suit::Hearts);
    let c6 = Card(Value::Trey, Suit::Diamonds);
    if out.contains(c0) && out.contains(c1) && out.contains(c2) && out.contains(c3) && out.contains(
        c4,
    ) && out.contains(c5) && out.contains(c6) {
        let at = |c: Card| choose|i: int| 0 <= i < out.len() && out[i] == c;
        assert(out[at(c0)] == c0 && out[at(c1)] == c1 && out[at(c2)] == c2 && out[at(c3)] == c3
            && out[at(c4)] == c4 && out[at(c5)] == c5 && out[at(c6)] == c6);
        assert(false);
    }
    if !out.contains(c0) {
        c0
    } else if !out.contains(c1) {
        c1
    } else if !out.contains(c2) {
        c2
    } else if !out.contains(c3) {
        c3
    } else if !out.contains(c4) {
        c4
    } else if !out.contains(c5) {
        c5
    } else {
        c6
    }
}

/// A flop of three cards of one rank.
pub open spec fn is_trips_flop(flop: Seq<Card>) -> bool {
    is_flop(flop) && flop[0].0 == flop[1].0 && flop[1].0 == flop[2].0
}

/// A flop that shows a rank twice or more shows no three cards of one
/// suit.
pub proof fn lemma_paired_flop_no_flush(flop: Seq<Card>)
    requires
        is_flop(flop),
        !values_of(flop).no_duplicates(),
    ensures
        flush_suit(flop) is None,
{
    let fv = values_of(flop);
    assert(flop[0] != flop[1] && flop[0] != flop[2] && flop[1] != flop[2]);
    assert(fv[0] == flop[0].0 && fv[1] == flop[1].0 && fv[2] == flop[2].0);
    assert(fv[0] == fv[1] || fv[0] == fv[2] || fv[1] == fv[2]) by {
        if fv[0] != fv[1] && fv[0] != fv[2] && fv[1] != fv[2] {
            assert(fv.no_duplicates());
        }
    }
    lemma_count_suit_of_three(flop, Suit::Spades);
    lemma_count_suit_of_three(flop, Suit::Hearts);
    lemma_count_suit_of_three(flop, Suit::Diamonds);
    lemma_count_suit_of_three(flop, Suit::Clubs);
}

/// The ranks of the five cards of a holding on a flop, place by place.
pub proof fn lemma_flop_hand_values(flop: Seq<Card>, hole: Seq<Card>)
    requires
        flop.len() == 3,
        is_holding(hole, flop),
    ensures
        ({
            let hv = values_of(hole + flop);
            &&& hv.len() == 5
            &&& hv[0] == hole[0].0
            &&& hv[1] == hole[1].0
            &&& hv[2] == flop[0].0
            &&& hv[3] == flop[1].0
            &&& hv[4] == flop[2].0
            &&& forall|v: Value|
                occurs(hv, v) == hit(hv, 0, v) + hit(hv, 1, v) + hit(hv, 2, v) + hit(hv, 3, v)
                    + hit(hv, 4, v)
        }),
{
    lemma_flop_hand(flop, hole);
    let hv = values_of(hole + flop);
    assert forall|v: Value|
        occurs(hv, v) == hit(hv, 0, v) + hit(hv, 1, v) + hit(hv, 2, v) + hit(hv, 3, v) + hit(
            hv,
            4,
            v,
        ) by {
        lemma_occurs_of_five(hv, v);
    }
}

/// On a flop of three cards of one rank the nuts is the fourth card of the
/// rank, with any other card: the description names it, and these are
/// just the holdings that nothing beats.
pub proof fn lemma_trips_flop_nuts(flop: Seq<Card>, hole: Seq<Card>)
    requires
        is_trips_flop(flop),
        is_holding(hole, flop),
    ensures
        nuts_of(flop) == FindNuts::OneValue(flop[0].0),
        nuts_of(flop).admits(hole) <==> unbeaten(flop, hole),
{
    let r = flop[0].0;
    let fv = values_of(flop);
    assert(fv[0] == r && fv[1] == r && fv[2] == r);
    assert(!fv.no_duplicates());
    lemma_paired_flop_no_flush(flop);
    assert forall|v: Value| occurs(fv, v) == if v == r {
        3nat
    } else {
        0nat
    } by {
        lemma_occurs_of_three(fv, v);
    }
    lemma_highest_with(fv, 4, 13);
    lemma_highest_with(fv, 3, 13);
    lemma_highest_with(fv, 2, 13);
    lemma_highest_with(fv, 1, 13);
    assert(r.straight_ordinal() <= 13);
    assert(occurs(fv, r) == 3);
    assert(highest_with(fv, 4, 13) is None) by {
        if highest_with(fv, 4, 13) is Some {
            let v = highest_with(fv, 4, 13)->0;
            assert(occurs(fv, v) == 4);
        }
    }
    assert(highest_with(fv, 3, 13) == Some(r)) by {
        if highest_with(fv, 3, 13) is Some {
            let v = highest_with(fv, 3, 13)->0;
            assert(occurs(fv, v) == 3);
        }
    }
    assert(highest_with(fv, 2, 13) is None) by {
        if highest_with(fv, 2, 13) is Some {
            let v = highest_with(fv, 2, 13)->0;
            assert(occurs(fv, v) == 2);
        }
    }
    assert(nuts_of(flop) == FindNuts::OneValue(r));
    let suit = lemma_fourth_of_rank(flop, r);
    let last = Card(r, suit);
    lemma_flop_hand(flop, hole);
    lemma_flop_hand_values(flop, hole);
    let hand = hole + flop;
    let hv = values_of(hand);
    let mine = rank_of(hand);
    assert(values_of(hole).contains(r) <==> (hole[0].0 == r || hole[1].0 == r)) by {
        let ws = values_of(hole);
        assert(ws[0] == hole[0].0 && ws[1] == hole[1].0);
        if ws.contains(r) {
            let i = choose|i: int| 0 <= i < ws.len() && ws[i] == r;
        }
    }
    assert forall|c: Card| c.0 == r && !flop.contains(c) implies c == last by {
        if c.1 != suit {
            assert(flop.contains(Card(r, c.1)));
        }
    }
    assert(!flop.contains(hole[0]) && !flop.contains(hole[1])) by {
        if flop.contains(hole[0]) {
            let k = choose|k: int| 0 <= k < 3 && flop[k] == hole[0];
            assert(hand[k + 2] == hand[0]);
        }
        if flop.contains(hole[1]) {
            let k = choose|k: int| 0 <= k < 3 && flop[k] == hole[1];
            assert(hand[k + 2] == hand[1]);
        }
    }
    if hole[0].0 == r || hole[1].0 == r {
        assert(!(hole[0].0 == r && hole[1].0 == r));
        assert(occurs(hv, r) == 4);
        lemma_four_make_quads(hand, r);
        assert forall|other: Seq<Card>| #[trigger] is_holding(other, hole + flop) implies !best_of(
            hole + flop,
        ).weaker_than(best_of(other + flop)) by {
            lemma_holding_on_less(other, hole, flop);
            lemma_flop_hand(flop, other);
            lemma_flop_hand_values(flop, other);
            let all = other + (hole + flop);
            assert(all[0] == other[0] && all[1] == other[1] && all[2] == hole[0] && all[3]
                == hole[1]);
            assert(all[4] == flop[0] && all[5] == flop[1] && all[6] == flop[2]);
            assert(!flop.contains(other[0])) by {
                if flop.contains(other[0]) {
                    let k = choose|k: int| 0 <= k < 3 && flop[k] == other[0];
                    assert(all[k + 4] == all[0]);
                }
            }
            assert(!flop.contains(other[1])) by {
                if flop.contains(other[1]) {
                    let k = choose|k: int| 0 <= k < 3 && flop[k] == other[1];
                    assert(all[k + 4] == all[1]);
                }
            }
            assert(other[0].0 != r && other[1].0 != r);
            let ov = values_of(other + flop);
            assert(occurs(ov, r) == 3);
            assert(forall|v: Value| occurs(ov, v) <= 3);
            lemma_no_four_no_quads(other + flop, r);
            lemma_order_trichotomy(mine, rank_of(other + flop));
        }
    } else {
        let out = (hole + flop).push(last);
        let free = lemma_free_card(out);
        let other = seq![last, free];
        let all = other + (hole + flop);
        assert forall|i: int, j: int| 0 <= i < all.len() && 0 <= j < all.len() && i != j implies all[i]
            != all[j] by {
            if i >= 2 {
                assert(all[i] == hand[i - 2]);
                assert(out[i - 2] == hand[i - 2]);
                assert(out.contains(out[i - 2]));
            }
            if j >= 2 {
                assert(all[j] == hand[j - 2]);
                assert(out[j - 2] == hand[j - 2]);
                assert(out.contains(out[j - 2]));
            }
            assert(out[5] == last);
            assert(out.contains(out[5]));
            if i >= 2 && j < 2 {
                if j == 0 {
                    assert(hand[i - 2] != last) by {
                        if i - 2 < 2 {
                            assert(hole[i - 2].0 != r);
                        } else {
                            assert(flop.contains(flop[i - 4]));
                        }
                    }
                }
            }
            if j >= 2 && i < 2 {
                if i == 0 {
                    assert(hand[j - 2] != last) by {
                        if j - 2 < 2 {
                            assert(hole[j - 2].0 != r);
                        } else {
                            assert(flop.contains(flop[j - 4]));
                        }
                    }
                }
            }
        }
        assert(is_holding(other, hole + flop));
        lemma_holding_on_less(other, hole, flop);
        lemma_flop_hand(flop, other);
        lemma_flop_hand_values(flop, other);
        let ov = values_of(other + flop);
        assert(free.0 != r) by {
            if free.0 == r {
                assert(!flop.contains(free)) by {
                    if flop.contains(free) {
                        let k = choose|k: int| 0 <= k < 3 && flop[k] == free;
                        assert(out[k + 2] == free);
                        assert(out.contains(out[k + 2]));
                    }
                }
            }
        }
        assert(occurs(ov, r) == 4);
        lemma_four_make_quads(other + flop, r);
        assert(occurs(hv, r) == 3);
        assert(forall|v: Value| occurs(hv, v) <= 3);
        lemma_no_four_no_quads(hand, r);
        assert(mine.weaker_than(rank_of(other + flop)));
        assert(is_holding(other, hole + flop) && best_of(hole + flop).weaker_than(
            best_of(other + flop),
        ));
    }
}

/// A flop that shows the rank `p` twice and the rank `k` once.
pub open spec fn is_pair_flop(flop: Seq<Card>, p: Value, k: Value) -> bool {
    &&& is_flop(flop)
    &&& p != k
    &&& occurs(values_of(flop), p) == 2
    &&& occurs(values_of(flop), k) == 1
}

/// How many of the two cards of a holding have the rank.
pub open spec fn holds(hole: Seq<Card>, r: Value) -> nat {
    hit(values_of(hole), 0, r) + hit(values_of(hole), 1, r)
}

/// On a flop of a pair and a third card, the rank `v` occurs among the
/// five cards as often as the flop and the holding have it.
proof fn lemma_pair_flop_count(flop: Seq<Card>, hole: Seq<Card>, p: Value, k: Value, v: Value)
    requires
        is_pair_flop(flop, p, k),
        is_holding(hole, flop),
    ensures
        occurs(values_of(hole + flop), v) == holds(hole, v) + if v == p {
            2nat
        } else if v == k {
            1nat
        } else {
            0nat
        },
{
    let fv = values_of(flop);
    let hv = values_of(hole + flop);
    let ws = values_of(hole);
    lemma_flop_hand(flop, hole);
    lemma_occurs_of_five(hv, v);
    lemma_occurs_of_three(fv, p);
    lemma_occurs_of_three(fv, k);
    lemma_occurs_of_three(fv, v);
    assert(ws[0] == hole[0].0 && ws[1] == hole[1].0);
    assert(fv[0] == flop[0].0 && fv[1] == flop[1].0 && fv[2] == flop[2].0);
    assert(hv[0] == hole[0].0 && hv[1] == hole[1].0 && hv[2] == flop[0].0 && hv[3] == flop[1].0
        && hv[4] == flop[2].0);
    assert(hit(hv, 0, v) + hit(hv, 1, v) == holds(hole, v));
    assert(hit(hv, 2, v) + hit(hv, 3, v) + hit(hv, 4, v) == occurs(fv, v));
    if v != p && v != k {
        assert(hit(fv, 0, p) + hit(fv, 0, k) + hit(fv, 0, v) <= 1);
        assert(hit(fv, 1, p) + hit(fv, 1, k) + hit(fv, 1, v) <= 1);
        assert(hit(fv, 2, p) + hit(fv, 2, k) + hit(fv, 2, v) <= 1);
    }
}

/// On a flop of a pair and a third card, a rank occurs among the five
/// cards as often as the flop and the holding have it.
pub proof fn lemma_pair_flop_counts(flop: Seq<Card>, hole: Seq<Card>, p: Value, k: Value)
    requires
        is_pair_flop(flop, p, k),
        is_holding(hole, flop),
    ensures
        forall|v: Value|
            occurs(values_of(hole + flop), v) == holds(hole, v) + if v == p {
                2nat
            } else if v == k {
                1nat
            } else {
                0nat
            },
        holds(hole, p) + holds(hole, k) <= 2,
{
    assert forall|v: Value|
        occurs(values_of(hole + flop), v) == holds(hole, v) + if v == p {
            2nat
        } else if v == k {
            1nat
        } else {
            0nat
        } by {
        lemma_pair_flop_count(flop, hole, p, k, v);
    }
}

/// What a holding makes on a flop of a pair and a third card: four of a
/// kind with both other cards of the pair's rank; a full house with one of
/// them and a card of the third rank, or with two cards of the third rank;
/// else three of a kind at best.
pub proof fn lemma_pair_flop_value(flop: Seq<Card>, hole: Seq<Card>, p: Value, k: Value)
    requires
        is_pair_flop(flop, p, k),
        is_holding(hole, flop),
    ensures
        holds(hole, p) == 2 ==> rank_of(hole + flop) is Quads,
        holds(hole, p) == 1 && holds(hole, k) == 1 ==> rank_of(hole + flop)
            == SortedHandValue::FullHouse([p, k]),
        holds(hole, k) == 2 ==> rank_of(hole + flop) == SortedHandValue::FullHouse([k, p]),
        holds(hole, p) < 2 ==> rank_of(hole + flop).category() <= 6,
        holds(hole, p) < 2 && !(holds(hole, p) == 1 && holds(hole, k) == 1) && holds(hole, k) < 2
            ==> rank_of(hole + flop).category() <= 3,
{
    let hand = hole + flop;
    let hv = values_of(hand);
    lemma_flop_hand(flop, hole);
    lemma_pair_flop_counts(flop, hole, p, k);
    lemma_pair_excludes_flush(hand, p);
    let v = rank_of(hand);
    if holds(hole, p) == 2 {
        assert(occurs(hv, p) == 4);
        lemma_four_make_quads(hand, p);
    } else {
        match v {
            SortedHandValue::Quads(u) => {
                assert(grouped(hv, u@, seq![4nat, 1nat]));
                assert(occurs(hv, u@[0]) == 4);
            },
            _ => {},
        }
    }
    if holds(hole, p) == 1 && holds(hole, k) == 1 {
        let want = SortedHandValue::FullHouse([p, k]);
        let ranks = seq![p, k];
        assert(want.kickers() =~= ranks);
        assert(occurs(hv, ranks[0]) == 3 && occurs(hv, ranks[1]) == 2);
        assert(grouped(hv, ranks, seq![3nat, 2nat]));
        assert(want.describes(hand));
        lemma_describes_unique(hand, want, v);
    }
    if holds(hole, k) == 2 {
        let want = SortedHandValue::FullHouse([k, p]);
        let ranks = seq![k, p];
        assert(want.kickers() =~= ranks);
        assert(occurs(hv, ranks[0]) == 3 && occurs(hv, ranks[1]) == 2);
        assert(grouped(hv, ranks, seq![3nat, 2nat]));
        assert(want.describes(hand));
        lemma_describes_unique(hand, want, v);
    }
    if holds(hole, p) < 2 && !(holds(hole, p) == 1 && holds(hole, k) == 1) && holds(hole, k) < 2 {
        match v {
            SortedHandValue::FullHouse(u) => {
                assert(grouped(hv, u@, seq![3nat, 2nat]));
                assert(occurs(hv, u@[0]) == 3);
                assert(occurs(hv, u@[1]) == 2);
                assert(u@[0] == p);
                assert(holds(hole, p) == 1);
                assert(holds(hole, u@[1]) <= 1);
                assert(false);
            },
            _ => {},
        }
    }
}

/// 1 where the card at `i` is the card `c`, else 0.
pub open spec fn is_at(all: Seq<Card>, i: int, c: Card) -> nat {
    if all[i] == c {
        1
    } else {
        0
    }
}

/// Among seven different cards, a given card stands at one place at most.
proof fn lemma_card_once(all: Seq<Card>, c: Card)
    requires
        all.len() == 7,
        all.no_duplicates(),
    ensures
        is_at(all, 0, c) + is_at(all, 1, c) + is_at(all, 2, c) + is_at(all, 3, c) + is_at(all, 4, c)
            + is_at(all, 5, c) + is_at(all, 6, c) <= 1,
{
}

/// Among seven different cards, four at most have one rank.
pub proof fn lemma_rank_at_most_four(all: Seq<Card>, r: Value)
    requires
        all.len() == 7,
        all.no_duplicates(),
    ensures
        hit(values_of(all), 0, r) + hit(values_of(all), 1, r) + hit(values_of(all), 2, r) + hit(
            values_of(all),
            3,
            r,
        ) + hit(values_of(all), 4, r) + hit(values_of(all), 5, r) + hit(values_of(all), 6, r) <= 4,
{
    let vals = values_of(all);
    let a = Card(r, Suit::Spades);
    let b = Card(r, Suit::Hearts);
    let c = Card(r, Suit::Diamonds);
    let d = Card(r, Suit::Clubs);
    lemma_card_once(all, a);
    lemma_card_once(all, b);
    lemma_card_once(all, c);
    lemma_card_once(all, d);
    assert forall|i: int| 0 <= i < 7 implies hit(vals, i, r) == is_at(all, i, a) + is_at(all, i, b)
        + is_at(all, i, c) + is_at(all, i, d) by {
        match all[i].1 {
            Suit::Spades => {},
            Suit::Hearts => {},
            Suit::Diamonds => {},
            Suit::Clubs => {},
        }
    }
    assert(hit(vals, 0, r) == is_at(all, 0, a) + is_at(all, 0, b) + is_at(all, 0, c) + is_at(
        all,
        0,
        d,
    ));
    assert(hit(vals, 1, r) == is_at(all, 1, a) + is_at(all, 1, b) + is_at(all, 1, c) + is_at(
        all,
        1,
        d,
    ));
    assert(hit(vals, 2, r) == is_at(all, 2, a) + is_at(all, 2, b) + is_at(all, 2, c) + is_at(
        all,
        2,
        d,
    ));
    assert(hit(vals, 3, r) == is_at(all, 3, a) + is_at(all, 3, b) + is_at(all, 3, c) + is_at(
        all,
        3,
        d,
    ));
    assert(hit(vals, 4, r) == is_at(all, 4, a) + is_at(all, 4, b) + is_at(all, 4, c) + is_at(
        all,
        4,
        d,
    ));
    assert(hit(vals, 5, r) == is_at(all, 5, a) + is_at(all, 5, b) + is_at(all, 5, c) + is_at(
        all,
        5,
        d,
    ));
    assert(hit(vals, 6, r) == is_at(all, 6, a) + is_at(all, 6, b) + is_at(all, 6, c) + is_at(
        all,
        6,
        d,
    ));
}

/// Two holdings and a flop, all seven cards different, hold a rank four
/// times at most.
pub proof fn lemma_rank_shared(flop: Seq<Card>, hole: Seq<Card>, other: Seq<Card>, r: Value)
    requires
        flop.len() == 3,
        is_holding(hole, flop),
        is_holding(other, hole + flop),
    ensures
        holds(other, r) + holds(hole, r) + occurs(values_of(flop), r) <= 4,
{
    let all = other + (hole + flop);
    let vals = values_of(all);
    lemma_rank_at_most_four(all, r);
    lemma_occurs_of_three(values_of(flop), r);
    assert(vals[0] == other[0].0 && vals[1] == other[1].0 && vals[2] == hole[0].0 && vals[3]
        == hole[1].0);
    assert(vals[4] == flop[0].0 && vals[5] == flop[1].0 && vals[6] == flop[2].0);
    assert(values_of(other)[0] == other[0].0 && values_of(other)[1] == other[1].0);
    assert(values_of(hole)[0] == hole[0].0 && values_of(hole)[1] == hole[1].0);
    assert(values_of(flop)[0] == flop[0].0 && values_of(flop)[1] == flop[1].0 && values_of(flop)[2]
        == flop[2].0);
}

/// Where five cards hold a rank three times at most, one more card of the
/// rank can be found.
pub proof fn lemma_one_more_of_rank(out: Seq<Card>, r: Value) -> (c: Card)
    requires
        out.len() == 5,
        out.no_duplicates(),
        occurs(values_of(out), r) <= 3,
    ensures
        !out.contains(c),
        c.0 == r,
{
    let vals = values_of(out);
    lemma_occurs_of_five(vals, r);
    let used = |s: Suit| out.contains(Card(r, s));
    let at = |s: Suit| choose|i: int| 0 <= i < 5 && out[i] == Card(r, s);
    assert forall|s: Suit| used(s) implies 0 <= at(s) < 5 && out[at(s)] == Card(r, s) && vals[at(
        s,
    )] == r by {}
    let a = Suit::Spades;
    let b = Suit::Hearts;
    let c = Suit::Diamonds;
    let d = Suit::Clubs;
    assert(!(used(a) && used(b) && used(c) && used(d)));
    let s = if !used(a) {
        a
    } else if !used(b) {
        b
    } else if !used(c) {
        c
    } else {
        d
    };
    Card(r, s)
}

/// Two cards that are not among five different cards, and differ, can be
/// held on the five.
pub proof fn lemma_two_free_hold(out: Seq<Card>, a: Card, b: Card)
    requires
        out.no_duplicates(),
        !out.contains(a),
        !out.contains(b),
        a != b,
    ensures
        is_holding(seq![a, b], out),
{
    let pair = seq![a, b];
    let all = pair + out;
    assert forall|i: int, j: int| 0 <= i < all.len() && 0 <= j < all.len() && i != j implies all[i]
        != all[j] by {
        if i >= 2 {
            assert(all[i] == out[i - 2]);
            assert(out.contains(out[i - 2]));
        }
        if j >= 2 {
            assert(all[j] == out[j - 2]);
            assert(out.contains(out[j - 2]));
        }
    }
}

/// What the description of the nuts is on a flop of a pair and a third
/// card: the pair of the pair's rank; and where the third card is lower,
/// also a card of each of the two ranks.
pub proof fn lemma_pair_flop_table(flop: Seq<Card>, p: Value, k: Value)
    requires
        is_pair_flop(flop, p, k),
    ensures
        nuts_of(flop) == if p.ordinal() > k.ordinal() {
            FindNuts::PocketOrTwo(p, [p, k])
        } else {
            FindNuts::PocketPair(p)
        },
{
    let fv = values_of(flop);
    lemma_occurs_of_three(fv, p);
    lemma_occurs_of_three(fv, k);
    assert(!fv.no_duplicates()) by {
        let i = choose|i: int| 0 <= i < 3 && fv[i] == p;
        let j = choose|j: int| 0 <= j < 3 && j != i && fv[j] == p;
        assert(fv[i] == fv[j]);
    }
    lemma_paired_flop_no_flush(flop);
    assert forall|v: Value| occurs(fv, v) == if v == p {
        2nat
    } else if v == k {
        1nat
    } else {
        0nat
    } by {
        lemma_occurs_of_three(fv, v);
    }
    lemma_highest_with(fv, 4, 13);
    lemma_highest_with(fv, 3, 13);
    lemma_highest_with(fv, 2, 13);
    lemma_highest_with(fv, 2, p.ordinal());
    lemma_highest_with(fv, 1, 13);
    assert(p.straight_ordinal() <= 13 && k.straight_ordinal() <= 13);
    assert(occurs(fv, p) == 2 && occurs(fv, k) == 1);
    assert(highest_with(fv, 4, 13) is None) by {
        if highest_with(fv, 4, 13) is Some {
            assert(occurs(fv, highest_with(fv, 4, 13)->0) == 4);
        }
    }
    assert(highest_with(fv, 3, 13) is None) by {
        if highest_with(fv, 3, 13) is Some {
            assert(occurs(fv, highest_with(fv, 3, 13)->0) == 3);
        }
    }
    assert(highest_with(fv, 2, 13) == Some(p)) by {
        if highest_with(fv, 2, 13) is Some {
            assert(occurs(fv, highest_with(fv, 2, 13)->0) == 2);
        }
    }
    assert(highest_with(fv, 2, p.ordinal()) is None) by {
        if highest_with(fv, 2, p.ordinal()) is Some {
            let v = highest_with(fv, 2, p.ordinal())->0;
            assert(occurs(fv, v) == 2);
            assert(v == p);
        }
    }
    assert(highest_with(fv, 1, 13) == Some(k)) by {
        if highest_with(fv, 1, 13) is Some {
            assert(occurs(fv, highest_with(fv, 1, 13)->0) == 1);
        }
    }
}

/// On a flop of a pair and a third card, the description of the nuts
/// names just the holdings that nothing beats: the other two cards of the
/// pair's rank, which make four of a kind; and where the third card is
/// lower than the pair, also a card of each rank, which makes the best
/// full house and leaves no four of a kind to anyone.
pub proof fn lemma_pair_flop_nuts(flop: Seq<Card>, hole: Seq<Card>, p: Value, k: Value)
    requires
        is_pair_flop(flop, p, k),
        is_holding(hole, flop),
    ensures
        nuts_of(flop).admits(hole) <==> unbeaten(flop, hole),
{
    let fv = values_of(flop);
    let hand = hole + flop;
    let mine = rank_of(hand);
    let ws = values_of(hole);
    lemma_pair_flop_table(flop, p, k);
    lemma_flop_hand(flop, hole);
    lemma_pair_flop_counts(flop, hole, p, k);
    lemma_pair_flop_value(flop, hole, p, k);
    assert(ws[0] == hole[0].0 && ws[1] == hole[1].0);
    assert(ws.contains(p) <==> holds(hole, p) >= 1) by {
        if ws.contains(p) {
            let i = choose|i: int| 0 <= i < ws.len() && ws[i] == p;
        }
    }
    assert(ws.contains(k) <==> holds(hole, k) >= 1) by {
        if ws.contains(k) {
            let i = choose|i: int| 0 <= i < ws.len() && ws[i] == k;
        }
    }
    let high_pair = p.ordinal() > k.ordinal();
    let both = holds(hole, p) == 1 && holds(hole, k) == 1;
    let quads = holds(hole, p) == 2;
    assert(nuts_of(flop).admits(hole) <==> (quads || (high_pair && both))) by {
        let pair = [p, k];
        assert(pair[0] == p && pair[1] == k);
    }
    if quads || (high_pair && both) {
        assert forall|other: Seq<Card>| #[trigger] is_holding(other, hole + flop) implies !best_of(
            hole + flop,
        ).weaker_than(best_of(other + flop)) by {
            lemma_holding_on_less(other, hole, flop);
            lemma_flop_hand(flop, other);
            lemma_pair_flop_counts(flop, other, p, k);
            lemma_pair_flop_value(flop, other, p, k);
            lemma_rank_shared(flop, hole, other, p);
            let theirs = rank_of(other + flop);
            assert(holds(other, p) < 2);
            if quads {
                lemma_order_trichotomy(mine, theirs);
            } else if holds(other, p) == 1 && holds(other, k) == 1 {
                lemma_order_trichotomy(mine, theirs);
            } else if holds(other, k) == 2 {
                assert(theirs.kickers()[0] == k && mine.kickers()[0] == p);
                lemma_first_rank_decides(theirs, mine);
            } else {
                lemma_order_trichotomy(mine, theirs);
            }
        }
    } else {
        let out = hole + flop;
        let ov = values_of(out);
        let other = if holds(hole, p) == 0 {
            lemma_two_more_of_rank(out, p)
        } else if high_pair {
            let a = lemma_one_more_of_rank(out, p);
            let pair = lemma_two_more_of_rank(out, k);
            assert(!out.contains(pair[0])) by {
                let all = pair + out;
                if out.contains(pair[0]) {
                    let i = choose|i: int| 0 <= i < out.len() && out[i] == pair[0];
                    assert(all[i + 2] == all[0]);
                }
            }
            lemma_two_free_hold(out, a, pair[0]);
            seq![a, pair[0]]
        } else {
            lemma_two_more_of_rank(out, k)
        };
        assert(is_holding(other, hole + flop));
        lemma_holding_on_less(other, hole, flop);
        lemma_flop_hand(flop, other);
        lemma_pair_flop_counts(flop, other, p, k);
        lemma_pair_flop_value(flop, other, p, k);
        let theirs = rank_of(other + flop);
        assert(values_of(other)[0] == other[0].0 && values_of(other)[1] == other[1].0);
        if holds(hole, p) == 0 {
            assert(holds(other, p) == 2);
        } else if high_pair {
            assert(holds(other, p) == 1 && holds(other, k) == 1);
        } else {
            assert(holds(other, k) == 2);
            if both {
                assert(mine.kickers()[0] == p && theirs.kickers()[0] == k);
                lemma_first_rank_decides(mine, theirs);
            }
        }
        assert(mine.weaker_than(theirs));
        assert(is_holding(other, hole + flop) && best_of(hole + flop).weaker_than(
            best_of(other + flop),
        ));
    }
}

} // verus!
