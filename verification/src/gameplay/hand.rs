//! The value of a five-card hand: its category and the ranks that break
//! ties inside the category.

use super::card::{Card, Value};
use super::cards::{all_same_suit, descending, straight_top, values_of};
use std::ops::Deref;
use vstd::prelude::*;

verus! {

/// The ten categories of five-card hands, each with the ranks that decide
/// between two hands of the category, the most important first.
#[derive(Debug, PartialEq, Eq, Clone, Copy, Hash)]
pub enum SortedHandValue {
    RoyalFlush,
    /// The top rank of the straight.
    StraightFlush(Value),
    /// The rank held four times, then the fifth card's.
    Quads([Value; 2]),
    /// The rank held three times, then the rank held twice.
    FullHouse([Value; 2]),
    /// All five ranks, highest first.
    Flush([Value; 5]),
    /// The top rank of the straight.
    Straight(Value),
    /// The rank held three times, then the other two, higher first.
    Trips([Value; 3]),
    /// The higher pair, the lower pair, the fifth card.
    TwoPair([Value; 3]),
    /// The pair, then the other three, highest first.
    OnePair([Value; 4]),
    /// All five ranks, highest first.
    HighCard([Value; 5]),
}

impl Default for SortedHandValue {
    fn default() -> (r: Self)
        ensures
            r == SortedHandValue::RoyalFlush,
    {
        SortedHandValue::RoyalFlush
    }
}

/// How often the rank `v` occurs among `vals`.
pub open spec fn occurs(vals: Seq<Value>, v: Value) -> nat {
    vals.to_multiset().count(v)
}

/// `ranks[i]` occurs `counts[i]` times among `vals`, and of two ranks that
/// occur equally often the higher stands first.
pub open spec fn grouped(vals: Seq<Value>, ranks: Seq<Value>, counts: Seq<nat>) -> bool {
    &&& ranks.len() == counts.len()
    &&& forall|i: int| 0 <= i < ranks.len() ==> occurs(vals, #[trigger] ranks[i]) == counts[i]
    &&& forall|i: int, j: int|
        0 <= i < j < ranks.len() && counts[i] == counts[j] ==> (#[trigger] ranks[i]).ordinal() > (
        #[trigger] ranks[j]).ordinal()
}

impl SortedHandValue {
    /// The place of the category among the ten, from 0 for a high card to 9
    /// for a royal flush.
    pub open spec fn category(self) -> int {
        match self {
            SortedHandValue::HighCard(_) => 0,
            SortedHandValue::OnePair(_) => 1,
            SortedHandValue::TwoPair(_) => 2,
            SortedHandValue::Trips(_) => 3,
            SortedHandValue::Straight(_) => 4,
            SortedHandValue::Flush(_) => 5,
            SortedHandValue::FullHouse(_) => 6,
            SortedHandValue::Quads(_) => 7,
            SortedHandValue::StraightFlush(_) => 8,
            SortedHandValue::RoyalFlush => 9,
        }
    }

    /// The ranks that break ties inside the category, the most important
    /// first.
    pub open spec fn kickers(self) -> Seq<Value> {
        match self {
            SortedHandValue::RoyalFlush => Seq::empty(),
            SortedHandValue::StraightFlush(t) => seq![t],
            SortedHandValue::Quads(a) => a@,
            SortedHandValue::FullHouse(a) => a@,
            SortedHandValue::Flush(a) => a@,
            SortedHandValue::Straight(t) => seq![t],
            SortedHandValue::Trips(a) => a@,
            SortedHandValue::TwoPair(a) => a@,
            SortedHandValue::OnePair(a) => a@,
            SortedHandValue::HighCard(a) => a@,
        }
    }

    /// The value is what the five cards of `hand` make.
    pub open spec fn describes(self, hand: Seq<Card>) -> bool {
        let vals = values_of(hand);
        let flush = all_same_suit(hand);
        let top = straight_top(vals);
        match self {
            SortedHandValue::RoyalFlush => flush && top == Some(Value::Ace),
            SortedHandValue::StraightFlush(t) => flush && top == Some(t) && t != Value::Ace,
            SortedHandValue::Quads(a) => grouped(vals, a@, seq![4nat, 1nat]),
            SortedHandValue::FullHouse(a) => grouped(vals, a@, seq![3nat, 2nat]),
            SortedHandValue::Flush(a) => flush && top is None && a@ == descending(vals),
            SortedHandValue::Straight(t) => !flush && top == Some(t),
            SortedHandValue::Trips(a) => grouped(vals, a@, seq![3nat, 1nat, 1nat]),
            SortedHandValue::TwoPair(a) => grouped(vals, a@, seq![2nat, 2nat, 1nat]),
            SortedHandValue::OnePair(a) => grouped(vals, a@, seq![2nat, 1nat, 1nat, 1nat]),
            SortedHandValue::HighCard(a) => !flush && top is None && vals.no_duplicates() && a@
                == descending(vals),
        }
    }
}

/// The value of a ranked hand.
#[derive(Debug, PartialEq, Eq, Clone, Copy, Hash)]
pub struct HandValue(pub SortedHandValue);

impl View for HandValue {
    type V = SortedHandValue;

    open spec fn view(&self) -> SortedHandValue {
        self.0
    }
}

impl Default for HandValue {
    fn default() -> (r: Self)
        ensures
            r@ == SortedHandValue::RoyalFlush,
    {
        HandValue(SortedHandValue::RoyalFlush)
    }
}

impl Deref for HandValue {
    type Target = SortedHandValue;

    fn deref(&self) -> (r: &SortedHandValue)
        ensures
            *r == self@,
    {
        &self.0
    }
}

} // verus!
