//! Ranking five cards: from the cards to the value of the hand.

use super::card::{Card, Value};
use super::cards::{
    all_same_suit, descending, is_run, lemma_rank_geq_total, rank_geq, run_top, straight_top,
    values_of, high_ordinals, low_ordinals, CardsCombined,
};
use super::hand::{grouped, occurs, HandValue, SortedHandValue};
use vstd::prelude::*;
use vstd::std_specs::convert::FromSpecImpl;
use vstd::seq_lib::to_multiset_build;

verus! {

/// 1 where the rank at `p` is `v`, else 0.
pub open spec fn hit(vals: Seq<Value>, p: int, v: Value) -> nat {
    if vals[p] == v {
        1
    } else {
        0
    }
}

/// Among five ranks, a rank occurs as often as the five places hold it.
pub proof fn lemma_occurs_of_five(vals: Seq<Value>, v: Value)
    requires
        vals.len() == 5,
    ensures
        occurs(vals, v) == hit(vals, 0, v) + hit(vals, 1, v) + hit(vals, 2, v) + hit(vals, 3, v)
            + hit(vals, 4, v),
{
    broadcast use vstd::multiset::group_multiset_axioms;

    let e = Seq::<Value>::empty();
    let s1 = e.push(vals[0]);
    let s2 = s1.push(vals[1]);
    let s3 = s2.push(vals[2]);
    let s4 = s3.push(vals[3]);
    let s5 = s4.push(vals[4]);
    assert(s5 =~= vals);
    assert(e.to_multiset().count(v) == 0) by {
        vstd::seq_lib::to_multiset_len(e);
        if e.to_multiset().count(v) > 0 {
            vstd::seq_lib::to_multiset_contains(e, v);
        }
    }
    to_multiset_build(e, vals[0]);
    to_multiset_build(s1, vals[1]);
    to_multiset_build(s2, vals[2]);
    to_multiset_build(s3, vals[3]);
    to_multiset_build(s4, vals[4]);
}

/// The value that five ranks in order from high to low make when they
/// form neither a straight nor a flush: equal ranks stand side by side, so
/// the places where neighbours agree decide.
pub open spec fn value_by_groups(s: Seq<Value>) -> SortedHandValue {
    let e01 = s[0] == s[1];
    let e12 = s[1] == s[2];
    let e23 = s[2] == s[3];
    let e34 = s[3] == s[4];
    if e01 && e12 && e23 {
        SortedHandValue::Quads([s[0], s[4]])
    } else if e12 && e23 && e34 {
        SortedHandValue::Quads([s[1], s[0]])
    } else if e01 && e12 && e34 {
        SortedHandValue::FullHouse([s[0], s[3]])
    } else if e01 && e23 && e34 {
        SortedHandValue::FullHouse([s[2], s[0]])
    } else if e01 && e12 {
        SortedHandValue::Trips([s[0], s[3], s[4]])
    } else if e12 && e23 {
        SortedHandValue::Trips([s[1], s[0], s[4]])
    } else if e23 && e34 {
        SortedHandValue::Trips([s[2], s[0], s[1]])
    } else if e01 && e23 {
        SortedHandValue::TwoPair([s[0], s[2], s[4]])
    } else if e01 && e34 {
        SortedHandValue::TwoPair([s[0], s[3], s[2]])
    } else if e12 && e34 {
        SortedHandValue::TwoPair([s[1], s[3], s[0]])
    } else if e01 {
        SortedHandValue::OnePair([s[0], s[2], s[3], s[4]])
    } else if e12 {
        SortedHandValue::OnePair([s[1], s[0], s[3], s[4]])
    } else if e23 {
        SortedHandValue::OnePair([s[2], s[0], s[1], s[4]])
    } else if e34 {
        SortedHandValue::OnePair([s[3], s[0], s[1], s[2]])
    } else {
        SortedHandValue::HighCard([s[0], s[1], s[2], s[3], s[4]])
    }
}

/// Five different cards cannot all have one rank: there are four suits.
pub proof fn lemma_no_five_of_a_kind(hand: Seq<Card>, v: Value)
    requires
        hand.len() == 5,
        hand.no_duplicates(),
    ensures
        occurs(values_of(hand), v) <= 4,
{
    let vals = values_of(hand);
    lemma_occurs_of_five(vals, v);
    if occurs(vals, v) == 5 {
        assert(hand[0].0 == v && hand[1].0 == v && hand[2].0 == v && hand[3].0 == v && hand[4].0
            == v);
        assert(hand[0] != hand[1] && hand[0] != hand[2] && hand[0] != hand[3] && hand[0]
            != hand[4]);
        assert(hand[1] != hand[2] && hand[1] != hand[3] && hand[1] != hand[4]);
        assert(hand[2] != hand[3] && hand[2] != hand[4] && hand[3] != hand[4]);
        let t = |i: int| hand[i].1;
        assert(t(0) != t(1) && t(0) != t(2) && t(0) != t(3) && t(0) != t(4));
        assert(t(1) != t(2) && t(1) != t(3) && t(1) != t(4));
        assert(t(2) != t(3) && t(2) != t(4) && t(3) != t(4));
        assert(false);
    }
}

/// What `descending` gives: the same ranks, from high to low.
pub proof fn lemma_descending_of_five(vals: Seq<Value>)
    requires
        vals.len() == 5,
    ensures
        descending(vals).len() == 5,
        forall|i: int, j: int|
            0 <= i <= j < 5 ==> descending(vals)[i].ordinal() >= descending(vals)[j].ordinal(),
        forall|v: Value| occurs(descending(vals), v) == occurs(vals, v),
{
    lemma_rank_geq_total();
    vals.lemma_sort_by_ensures(rank_geq());
    let s = descending(vals);
    vstd::seq_lib::to_multiset_len(vals);
    vstd::seq_lib::to_multiset_len(s);
    assert forall|i: int, j: int| 0 <= i <= j < 5 implies s[i].ordinal() >= s[j].ordinal() by {
        if i < j {
            assert(rank_geq()(s[i], s[j]));
        }
    }
}

/// Five cards that make neither a straight nor a flush have the value
/// that their ranks, put in order, show by their groups.
pub proof fn lemma_groups_describe(hand: Seq<Card>)
    requires
        hand.len() == 5,
        hand.no_duplicates(),
        !all_same_suit(hand),
        straight_top(values_of(hand)) is None,
    ensures
        value_by_groups(descending(values_of(hand))).describes(hand),
{
    let vals = values_of(hand);
    let s = descending(vals);
    lemma_descending_of_five(vals);
    let h = value_by_groups(s);
    assert forall|v: Value|
        occurs(vals, v) == hit(s, 0, v) + hit(s, 1, v) + hit(s, 2, v) + hit(s, 3, v) + hit(
            s,
            4,
            v,
        ) by {
        lemma_occurs_of_five(s, v);
    }
    lemma_no_five_of_a_kind(hand, s[0]);
    assert(s[0].ordinal() >= s[1].ordinal() >= s[2].ordinal() >= s[3].ordinal() >= s[4].ordinal());
    match h {
        SortedHandValue::Quads(a) => {
            assert(occurs(vals, a@[0]) == 4);
            assert(occurs(vals, a@[1]) == 1);
        },
        SortedHandValue::FullHouse(a) => {
            assert(occurs(vals, a@[0]) == 3);
            assert(occurs(vals, a@[1]) == 2);
        },
        SortedHandValue::Trips(a) => {
            assert(occurs(vals, a@[0]) == 3);
            assert(occurs(vals, a@[1]) == 1);
            assert(occurs(vals, a@[2]) == 1);
        },
        SortedHandValue::TwoPair(a) => {
            assert(occurs(vals, a@[0]) == 2);
            assert(occurs(vals, a@[1]) == 2);
            assert(occurs(vals, a@[2]) == 1);
        },
        SortedHandValue::OnePair(a) => {
            assert(occurs(vals, a@[0]) == 2);
            assert(occurs(vals, a@[1]) == 1);
            assert(occurs(vals, a@[2]) == 1);
            assert(occurs(vals, a@[3]) == 1);
        },
        SortedHandValue::HighCard(a) => {
            assert(a@ =~= s);
            assert forall|i: int, j: int| 0 <= i < j < 5 implies vals[i] != vals[j] by {
                lemma_occurs_of_five(vals, vals[i]);
                assert(occurs(vals, vals[i]) == 1);
            }
        },
        _ => {},
    }
}

/// Five ranks that form a straight are all different.
pub proof fn lemma_straight_distinct(vals: Seq<Value>)
    requires
        vals.len() == 5,
        straight_top(vals) is Some,
    ensures
        vals.no_duplicates(),
{
    let hi = high_ordinals(vals);
    if run_top(hi) is Some {
        let t = choose|t: int| is_run(hi, t);
        assert forall|i: int, j: int| 0 <= i < vals.len() && 0 <= j < vals.len() && i != j implies vals[i] != vals[j] by {
            assert(hi[i] != hi[j]);
        }
    } else {
        let lo = low_ordinals(vals);
        let t = choose|t: int| is_run(lo, t);
        let k = super::cards::first_ace(vals);
        assert(vals.contains(Value::Ace));
        let w = choose|w: int| 0 <= w < vals.len() && vals[w] == Value::Ace;
        let w0 = first_witness(vals, w);
        assert(super::cards::is_first_ace(vals, w0));
        assert(super::cards::is_first_ace(vals, k));
        assert(lo[k] == 0);
        assert(t - 5 < lo[k]);
        assert forall|i: int, j: int| 0 <= i < vals.len() && 0 <= j < vals.len() && i != j implies vals[i] != vals[j] by {
            assert(lo[i] != lo[j]);
            assert(lo[i] <= t && lo[j] <= t);
        }
    }
}

/// The first place at or before `w` where an Ace stands.
pub proof fn first_witness(vals: Seq<Value>, w: int) -> (k: int)
    requires
        0 <= w < vals.len(),
        vals[w] == Value::Ace,
    ensures
        super::cards::is_first_ace(vals, k),
    decreases w,
{
    if exists|j: int| 0 <= j < w && vals[j] == Value::Ace {
        let j = choose|j: int| 0 <= j < w && vals[j] == Value::Ace;
        first_witness(vals, j)
    } else {
        w
    }
}

/// Two of five different cards that share a rank differ in suit.
pub proof fn lemma_pair_excludes_flush(hand: Seq<Card>, v: Value)
    requires
        hand.len() == 5,
        hand.no_duplicates(),
        occurs(values_of(hand), v) >= 2,
    ensures
        !all_same_suit(hand),
        straight_top(values_of(hand)) is None,
{
    let vals = values_of(hand);
    lemma_occurs_of_five(vals, v);
    let i = choose|i: int| 0 <= i < 5 && vals[i] == v;
    let j = choose|j: int| 0 <= j < 5 && j != i && vals[j] == v;
    assert(hand[i] != hand[j]);
    assert(hand[i].1 != hand[j].1);
    if straight_top(vals) is Some {
        lemma_straight_distinct(vals);
        assert(vals[i] != vals[j]);
    }
}

/// Ranks grouped in one of the five shapes with a repeat account for all
/// five cards: every rank that occurs is one of them.
pub proof fn lemma_groups_cover(vals: Seq<Value>, ranks: Seq<Value>, counts: Seq<nat>, v: Value)
    requires
        vals.len() == 5,
        grouped(vals, ranks, counts),
        counts == seq![4nat, 1nat] || counts == seq![3nat, 2nat] || counts == seq![3nat, 1nat, 1nat]
            || counts == seq![2nat, 2nat, 1nat] || counts == seq![2nat, 1nat, 1nat, 1nat],
        occurs(vals, v) > 0,
    ensures
        ranks.contains(v),
        forall|i: int, j: int| 0 <= i < j < ranks.len() ==> ranks[i] != ranks[j],
{
    assert forall|i: int| 0 <= i < ranks.len() implies occurs(vals, #[trigger] ranks[i])
        == hit(vals, 0, ranks[i]) + hit(vals, 1, ranks[i]) + hit(vals, 2, ranks[i]) + hit(
        vals,
        3,
        ranks[i],
    ) + hit(vals, 4, ranks[i]) by {
        lemma_occurs_of_five(vals, ranks[i]);
    }
    lemma_occurs_of_five(vals, v);
    assert(forall|i: int| 0 <= i < ranks.len() ==> occurs(vals, #[trigger] ranks[i]) == counts[i]);
    assert forall|i: int, j: int| 0 <= i < j < ranks.len() implies ranks[i] != ranks[j] by {
        if counts[i] == counts[j] {
            assert(ranks[i].ordinal() > ranks[j].ordinal());
        } else {
            assert(occurs(vals, ranks[i]) != occurs(vals, ranks[j]));
        }
    }
    if !ranks.contains(v) {
        assert(forall|i: int| 0 <= i < ranks.len() ==> ranks[i] != v);
        if ranks.len() == 2 {
            assert(ranks[0] != v && ranks[1] != v);
            assert(false);
        } else if ranks.len() == 3 {
            assert(ranks[0] != v && ranks[1] != v && ranks[2] != v);
            assert(false);
        } else {
            assert(ranks[0] != v && ranks[1] != v && ranks[2] != v && ranks[3] != v);
            assert(false);
        }
    }
}

impl SortedHandValue {
    /// The shape of the groups that the category stands for, where it
    /// stands for a repeat: how often each of its ranks occurs.
    pub open spec fn shape(self) -> Seq<nat> {
        match self {
            SortedHandValue::Quads(_) => seq![4nat, 1nat],
            SortedHandValue::FullHouse(_) => seq![3nat, 2nat],
            SortedHandValue::Trips(_) => seq![3nat, 1nat, 1nat],
            SortedHandValue::TwoPair(_) => seq![2nat, 2nat, 1nat],
            SortedHandValue::OnePair(_) => seq![2nat, 1nat, 1nat, 1nat],
            _ => Seq::empty(),
        }
    }

    /// The category is one of the five with a repeated rank.
    pub open spec fn has_repeat(self) -> bool {
        self.shape().len() > 0
    }
}

/// A value with a repeated rank describes a hand by its groups.
pub proof fn lemma_repeat_is_grouped(hand: Seq<Card>, a: SortedHandValue)
    requires
        a.has_repeat(),
        a.describes(hand),
    ensures
        grouped(values_of(hand), a.kickers(), a.shape()),
        occurs(values_of(hand), a.kickers()[0]) >= 2,
{
}

/// Two values with a repeated rank that describe the same five cards are
/// the same value.
proof fn lemma_unique_among_repeats(hand: Seq<Card>, a: SortedHandValue, b: SortedHandValue)
    requires
        hand.len() == 5,
        a.has_repeat(),
        b.has_repeat(),
        grouped(values_of(hand), a.kickers(), a.shape()),
        grouped(values_of(hand), b.kickers(), b.shape()),
    ensures
        a == b,
{
    let vals = values_of(hand);
    let ra = a.kickers();
    let rb = b.kickers();
    assert forall|i: int| 0 <= i < rb.len() implies ra.contains(#[trigger] rb[i]) by {
        lemma_groups_cover(vals, ra, a.shape(), rb[i]);
    }
    assert forall|i: int| 0 <= i < ra.len() implies rb.contains(#[trigger] ra[i]) by {
        lemma_groups_cover(vals, rb, b.shape(), ra[i]);
    }
    lemma_groups_cover(vals, ra, a.shape(), ra[0]);
    lemma_groups_cover(vals, rb, b.shape(), rb[0]);
    lemma_same_groups(vals, ra, a.shape(), rb, b.shape());
    assert(a.category() == b.category()) by {
        assert(a.shape() == b.shape());
        assert(a.shape()[0] == b.shape()[0]);
        assert(a.shape()[1] == b.shape()[1]);
        assert(a.shape().len() == b.shape().len());
    }
    lemma_same_kickers(a, b);
}

/// Where one value that describes five cards has a repeated rank, every
/// value that describes them has.
proof fn lemma_repeat_excludes_rest(hand: Seq<Card>, c: SortedHandValue, d: SortedHandValue)
    requires
        hand.len() == 5,
        hand.no_duplicates(),
        c.has_repeat(),
        c.describes(hand),
        d.describes(hand),
    ensures
        d.has_repeat(),
{
    let vals = values_of(hand);
    lemma_repeat_is_grouped(hand, c);
    let v = c.kickers()[0];
    lemma_pair_excludes_flush(hand, v);
    if d is HighCard {
        lemma_occurs_of_five(vals, v);
        let i = choose|i: int| 0 <= i < 5 && vals[i] == v;
        let j = choose|j: int| 0 <= j < 5 && j != i && vals[j] == v;
        assert(vals[i] == vals[j]);
    }
}

/// Five different cards have one value only.
pub proof fn lemma_describes_unique(hand: Seq<Card>, a: SortedHandValue, b: SortedHandValue)
    requires
        hand.len() == 5,
        hand.no_duplicates(),
        a.describes(hand),
        b.describes(hand),
    ensures
        a == b,
{
    if a.has_repeat() && b.has_repeat() {
        lemma_repeat_is_grouped(hand, a);
        lemma_repeat_is_grouped(hand, b);
        lemma_unique_among_repeats(hand, a, b);
    } else if a.has_repeat() {
        lemma_repeat_excludes_rest(hand, a, b);
    } else if b.has_repeat() {
        lemma_repeat_excludes_rest(hand, b, a);
    } else {
        assert(a.category() == b.category());
        assert(a.kickers() =~= b.kickers());
        lemma_same_kickers(a, b);
    }
}

/// Two groupings of the same five ranks are the same grouping.
pub proof fn lemma_same_groups(
    vals: Seq<Value>,
    ra: Seq<Value>,
    sa: Seq<nat>,
    rb: Seq<Value>,
    sb: Seq<nat>,
)
    requires
        vals.len() == 5,
        grouped(vals, ra, sa),
        grouped(vals, rb, sb),
        sa == seq![4nat, 1nat] || sa == seq![3nat, 2nat] || sa == seq![3nat, 1nat, 1nat] || sa
            == seq![2nat, 2nat, 1nat] || sa == seq![2nat, 1nat, 1nat, 1nat],
        sb == seq![4nat, 1nat] || sb == seq![3nat, 2nat] || sb == seq![3nat, 1nat, 1nat] || sb
            == seq![2nat, 2nat, 1nat] || sb == seq![2nat, 1nat, 1nat, 1nat],
        forall|i: int| 0 <= i < rb.len() ==> ra.contains(#[trigger] rb[i]),
        forall|i: int| 0 <= i < ra.len() ==> rb.contains(#[trigger] ra[i]),
        forall|i: int, j: int| 0 <= i < j < ra.len() ==> ra[i] != ra[j],
        forall|i: int, j: int| 0 <= i < j < rb.len() ==> rb[i] != rb[j],
    ensures
        ra =~= rb,
        sa == sb,
{
    let ia = |i: int| choose|k: int| 0 <= k < ra.len() && ra[k] == rb[i];
    let ib = |i: int| choose|k: int| 0 <= k < rb.len() && rb[k] == ra[i];
    assert(ra.contains(rb[0]) && ra.contains(rb[1]));
    assert(rb.contains(ra[0]) && rb.contains(ra[1]));
    assert(ra[ia(0)] == rb[0] && ra[ia(1)] == rb[1]);
    assert(rb[ib(0)] == ra[0] && rb[ib(1)] == ra[1]);
    assert(sa[ia(0)] == sb[0] && sa[ia(1)] == sb[1]);
    assert(sb[ib(0)] == sa[0] && sb[ib(1)] == sa[1]);
    if rb.len() > 2 {
        assert(ra.contains(rb[2]));
        assert(ra[ia(2)] == rb[2]);
        assert(sa[ia(2)] == sb[2]);
    }
    if rb.len() > 3 {
        assert(ra.contains(rb[3]));
        assert(ra[ia(3)] == rb[3]);
        assert(sa[ia(3)] == sb[3]);
    }
    if ra.len() > 2 {
        assert(rb.contains(ra[2]));
        assert(rb[ib(2)] == ra[2]);
        assert(sb[ib(2)] == sa[2]);
    }
    if ra.len() > 3 {
        assert(rb.contains(ra[3]));
        assert(rb[ib(3)] == ra[3]);
        assert(sb[ib(3)] == sa[3]);
    }
    assert(sa == sb);
    assert(ra.len() == rb.len());
}

/// Values of one category with the same ranks are the same value.
pub proof fn lemma_same_kickers(a: SortedHandValue, b: SortedHandValue)
    requires
        a.category() == b.category(),
        a.kickers() =~= b.kickers(),
    ensures
        a == b,
{
    match (a, b) {
        (SortedHandValue::StraightFlush(x), SortedHandValue::StraightFlush(y)) => {
            assert(a.kickers()[0] == b.kickers()[0]);
        },
        (SortedHandValue::Straight(x), SortedHandValue::Straight(y)) => {
            assert(a.kickers()[0] == b.kickers()[0]);
        },
        (SortedHandValue::Quads(x), SortedHandValue::Quads(y)) => {
            assert(x =~= y);
        },
        (SortedHandValue::FullHouse(x), SortedHandValue::FullHouse(y)) => {
            assert(x =~= y);
        },
        (SortedHandValue::Flush(x), SortedHandValue::Flush(y)) => {
            assert(x =~= y);
        },
        (SortedHandValue::Trips(x), SortedHandValue::Trips(y)) => {
            assert(x =~= y);
        },
        (SortedHandValue::TwoPair(x), SortedHandValue::TwoPair(y)) => {
            assert(x =~= y);
        },
        (SortedHandValue::OnePair(x), SortedHandValue::OnePair(y)) => {
            assert(x =~= y);
        },
        (SortedHandValue::HighCard(x), SortedHandValue::HighCard(y)) => {
            assert(x =~= y);
        },
        _ => {},
    }
}

/// The value of five cards: the one value that describes them.
pub open spec fn rank_of(hand: Seq<Card>) -> SortedHandValue {
    choose|h: SortedHandValue| h.describes(hand)
}

/// Five different cards have a value.
pub proof fn lemma_describes_exists(hand: Seq<Card>)
    requires
        hand.len() == 5,
        hand.no_duplicates(),
    ensures
        rank_of(hand).describes(hand),
{
    let vals = values_of(hand);
    let flush = all_same_suit(hand);
    let h = match straight_top(vals) {
        Some(t) => if flush {
            if t == Value::Ace {
                SortedHandValue::RoyalFlush
            } else {
                SortedHandValue::StraightFlush(t)
            }
        } else {
            SortedHandValue::Straight(t)
        },
        None => if flush {
            let s = descending(vals);
            SortedHandValue::Flush([s[0], s[1], s[2], s[3], s[4]])
        } else {
            value_by_groups(descending(vals))
        },
    };
    if straight_top(vals) is None {
        lemma_descending_of_five(vals);
        if flush {
            assert(h->Flush_0@ =~= descending(vals));
        } else {
            lemma_groups_describe(hand);
        }
    }
    assert(h.describes(hand));
}

/// The value that five ranks in order from high to low show by their
/// groups.
fn by_groups(s: [Value; 5]) -> (h: SortedHandValue)
    ensures
        h == value_by_groups(s@),
{
    let e01 = s[0] == s[1];
    let e12 = s[1] == s[2];
    let e23 = s[2] == s[3];
    let e34 = s[3] == s[4];
    if e01 && e12 && e23 {
        SortedHandValue::Quads([s[0], s[4]])
    } else if e12 && e23 && e34 {
        SortedHandValue::Quads([s[1], s[0]])
    } else if e01 && e12 && e34 {
        SortedHandValue::FullHouse([s[0], s[3]])
    } else if e01 && e23 && e34 {
        SortedHandValue::FullHouse([s[2], s[0]])
    } else if e01 && e12 {
        SortedHandValue::Trips([s[0], s[3], s[4]])
    } else if e12 && e23 {
        SortedHandValue::Trips([s[1], s[0], s[4]])
    } else if e23 && e34 {
        SortedHandValue::Trips([s[2], s[0], s[1]])
    } else if e01 && e23 {
        SortedHandValue::TwoPair([s[0], s[2], s[4]])
    } else if e01 && e34 {
        SortedHandValue::TwoPair([s[0], s[3], s[2]])
    } else if e12 && e34 {
        SortedHandValue::TwoPair([s[1], s[3], s[0]])
    } else if e01 {
        SortedHandValue::OnePair([s[0], s[2], s[3], s[4]])
    } else if e12 {
        SortedHandValue::OnePair([s[1], s[0], s[3], s[4]])
    } else if e23 {
        SortedHandValue::OnePair([s[2], s[0], s[1], s[4]])
    } else if e34 {
        SortedHandValue::OnePair([s[3], s[0], s[1], s[2]])
    } else {
        SortedHandValue::HighCard([s[0], s[1], s[2], s[3], s[4]])
    }
}

impl HandValue {
    /// Ranks five cards: a straight and a flush together first, then a
    /// flush, then a straight, and else by the groups of equal ranks.
    pub fn rank(cards: CardsCombined<5>) -> (r: HandValue)
        ensures
            r@.describes(cards@),
            r@ == rank_of(cards@),
    {
        let held = cards.cards();
        let flush = cards.is_flush();
        let h = match cards.is_straight() {
            Some(t) => if flush {
                if t == Value::Ace {
                    SortedHandValue::RoyalFlush
                } else {
                    SortedHandValue::StraightFlush(t)
                }
            } else {
                SortedHandValue::Straight(t)
            },
            None => if flush {
                SortedHandValue::Flush(cards.to_sorted_values())
            } else {
                let h = by_groups(cards.to_sorted_values());
                proof {
                    lemma_groups_describe(cards@);
                }
                h
            },
        };
        proof {
            lemma_describes_exists(cards@);
            lemma_describes_unique(cards@, h, rank_of(cards@));
        }
        HandValue(h)
    }
}

impl From<CardsCombined<5>> for HandValue {
    fn from(cards: CardsCombined<5>) -> (r: Self) {
        HandValue::rank(cards)
    }
}

impl FromSpecImpl<CardsCombined<5>> for HandValue {
    open spec fn obeys_from_spec() -> bool {
        true
    }

    open spec fn from_spec(cards: CardsCombined<5>) -> Self {
        HandValue(rank_of(cards@))
    }
}

} // verus!
