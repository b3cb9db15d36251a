//! The nuts: the holdings that nothing can beat on a given board, found
//! from the structure of the board and kept as a short description.

use super::board::Board;
use super::card::{Card, Suit, Value};
use super::cards::{
    cards_of_suit,
    count_suit,
    hole_of,
    pair_or,
    same_cards,
    suited,
    values_of,
    Hole,
};
use super::hand::occurs;
use super::boards_open::{is_settled, lemma_settled_board_nuts};
use super::scan::{solves, straight_scan, top_free, StraightSolve};
use super::unbeaten::{is_holding, unbeaten};
use vstd::prelude::*;
use vstd::seq_lib::to_multiset_build;
use vstd::std_specs::cmp::PartialEqSpecImpl;

verus! {

/// The holdings that nothing can beat, as one of ten shapes.
#[derive(Debug, PartialEq, Eq, Clone, Copy, Hash)]
pub enum FindNuts {
    /// Both cards of this rank.
    PocketPair(Value),
    /// A card of this rank.
    OneValue(Value),
    /// A card of each of the two ranks.
    TwoValues([Value; 2]),
    /// Both cards of the rank, or a card of each of the two ranks.
    PocketOrTwo(Value, [Value; 2]),
    /// This holding.
    OneHole(Hole),
    /// One of these holdings.
    TwoHoles([Hole; 2]),
    /// One of these holdings.
    ThreeHoles([Hole; 3]),
    /// This card, with any other.
    CardPlusAny(Card),
    /// This card, with any other of its suit.
    CardPlusAnySuited(Card),
    /// Any holding.
    AnyTwo,
}

impl Default for FindNuts {
    fn default() -> (r: Self)
        ensures
            r == FindNuts::PocketPair(Value::Ace),
    {
        FindNuts::PocketPair(Value::Ace)
    }
}

impl FindNuts {
    /// The holding `hole` is one of those that the description names.
    pub open spec fn admits(self, hole: Seq<Card>) -> bool {
        let ranks = values_of(hole);
        match self {
            FindNuts::PocketPair(v) => hole[0].0 == v && hole[1].0 == v,
            FindNuts::OneValue(v) => ranks.contains(v),
            FindNuts::TwoValues(a) => ranks.contains(a[0]) && ranks.contains(a[1]),
            FindNuts::PocketOrTwo(v, a) => (hole[0].0 == v && hole[1].0 == v) || (ranks.contains(
                a[0],
            ) && ranks.contains(a[1])),
            FindNuts::OneHole(h) => same_cards(h@, hole),
            FindNuts::TwoHoles(a) => same_cards(a[0]@, hole) || same_cards(a[1]@, hole),
            FindNuts::ThreeHoles(a) => same_cards(a[0]@, hole) || same_cards(a[1]@, hole)
                || same_cards(a[2]@, hole),
            FindNuts::CardPlusAny(c) => hole.contains(c),
            FindNuts::CardPlusAnySuited(c) => hole.contains(c) && hole[0].1 == hole[1].1,
            FindNuts::AnyTwo => true,
        }
    }
}

impl PartialEq<Hole> for FindNuts {
    /// A description equals a holding where it admits the holding.
    fn eq(&self, other: &Hole) -> (r: bool) {
        match *self {
            FindNuts::PocketPair(v) => other.is_pocket(v),
            FindNuts::OneValue(v) => other.contains_value(v),
            FindNuts::TwoValues(v) => other.is_of_values(v),
            FindNuts::PocketOrTwo(v, v2) => other.is_pocket(v) || other.is_of_values(v2),
            FindNuts::OneHole(hole) => hole == *other,
            FindNuts::TwoHoles(holes) => holes[0] == *other || holes[1] == *other,
            FindNuts::ThreeHoles(holes) => holes[0] == *other || holes[1] == *other || holes[2]
                == *other,
            FindNuts::CardPlusAny(card) => other.contains_card(card),
            FindNuts::CardPlusAnySuited(card) => other.contains_card(card) && other.is_suited(),
            FindNuts::AnyTwo => true,
        }
    }
}

impl PartialEqSpecImpl<Hole> for FindNuts {
    open spec fn obeys_eq_spec() -> bool {
        true
    }

    open spec fn eq_spec(&self, other: &Hole) -> bool {
        self.admits(other@)
    }
}

/// The highest rank below the ordinal `below` that occurs `times` times
/// among `vals`.
pub open spec fn highest_with(vals: Seq<Value>, times: nat, below: int) -> Option<Value>
    decreases below,
{
    if below <= 0 {
        None
    } else if occurs(vals, Value::of_straight_ordinal(below)) == times {
        Some(Value::of_straight_ordinal(below))
    } else {
        highest_with(vals, times, below - 1)
    }
}

/// The nuts on a board that shows a rank twice or more, where no straight
/// flush is within reach: decided by the ranks that the board shows four
/// times, three times, twice and once.
pub open spec fn paired_nuts(vals: Seq<Value>) -> FindNuts {
    let single = highest_with(vals, 1, 13);
    match highest_with(vals, 4, 13) {
        Some(quad) => {
            let best = if quad == Value::Ace {
                Value::King
            } else {
                Value::Ace
            };
            if single == Some(best) {
                FindNuts::AnyTwo
            } else {
                FindNuts::OneValue(best)
            }
        },
        None => match highest_with(vals, 3, 13) {
            Some(trip) => match highest_with(vals, 2, 13) {
                Some(pair) => if pair.ordinal() > trip.ordinal() {
                    FindNuts::PocketOrTwo(pair, [pair, trip])
                } else {
                    FindNuts::OneValue(trip)
                },
                None => FindNuts::OneValue(trip),
            },
            None => match highest_with(vals, 2, 13) {
                Some(pair) => {
                    let next = match highest_with(vals, 2, pair.ordinal()) {
                        Some(low) => match single {
                            Some(kicker) => if low.ordinal() > kicker.ordinal() {
                                Some(low)
                            } else {
                                None
                            },
                            None => Some(low),
                        },
                        None => match single {
                            Some(kicker) => if pair.ordinal() > kicker.ordinal() {
                                Some(kicker)
                            } else {
                                None
                            },
                            None => None,
                        },
                    };
                    match next {
                        Some(second) => FindNuts::PocketOrTwo(pair, [pair, second]),
                        None => FindNuts::PocketPair(pair),
                    }
                },
                None => FindNuts::PocketPair(Value::Ace),
            },
        },
    }
}

/// How many of the cards have the rank.
pub fn count_rank(cards: &[Card], v: Value) -> (n: usize)
    ensures
        n == occurs(values_of(cards@), v),
        n <= cards@.len(),
{
    let mut n: usize = 0;
    let mut i: usize = 0;
    proof {
        assert(values_of(cards@.take(0)) =~= Seq::<Value>::empty());
        let e = Seq::<Value>::empty();
        if e.to_multiset().count(v) > 0 {
            vstd::seq_lib::to_multiset_contains(e, v);
        }
    }
    while i < cards.len()
        invariant
            i <= cards@.len(),
            n <= i,
            n == occurs(values_of(cards@.take(i as int)), v),
        decreases cards@.len() - i,
    {
        proof {
            broadcast use vstd::multiset::group_multiset_axioms;

            let before = values_of(cards@.take(i as int));
            assert(values_of(cards@.take(i + 1)) =~= before.push(cards@[i as int].0));
            to_multiset_build(before, cards@[i as int].0);
        }
        if cards[i].0 == v {
            n += 1;
        }
        i += 1;
    }
    assert(cards@.take(cards@.len() as int) =~= cards@);
    n
}

/// The highest rank below the ordinal `below` that `times` of the cards
/// have.
pub fn highest_rank_with(cards: &[Card], times: usize, below: u8) -> (r: Option<Value>)
    requires
        below <= 13,
    ensures
        r == highest_with(values_of(cards@), times as nat, below as int),
{
    let mut at: u8 = below;
    while at > 0
        invariant
            at <= below <= 13,
            highest_with(values_of(cards@), times as nat, at as int) == highest_with(
                values_of(cards@),
                times as nat,
                below as int,
            ),
        decreases at,
    {
        let v = Value::from_u8_straight(at);
        if count_rank(cards, v) == times {
            return Some(v);
        }
        at -= 1;
    }
    None
}

/// The nuts on a board that shows a rank twice or more.
pub fn quads_full_house(cards: &[Card]) -> (r: FindNuts)
    ensures
        r == paired_nuts(values_of(cards@)),
{
    let single = highest_rank_with(cards, 1, 13);
    match highest_rank_with(cards, 4, 13) {
        Some(quad) => {
            let best = if quad == Value::Ace {
                Value::King
            } else {
                Value::Ace
            };
            match single {
                Some(kicker) => if kicker == best {
                    FindNuts::AnyTwo
                } else {
                    FindNuts::OneValue(best)
                },
                None => FindNuts::OneValue(best),
            }
        },
        None => match highest_rank_with(cards, 3, 13) {
            Some(trip) => match highest_rank_with(cards, 2, 13) {
                Some(pair) => if pair.as_u8() > trip.as_u8() {
                    FindNuts::PocketOrTwo(pair, [pair, trip])
                } else {
                    FindNuts::OneValue(trip)
                },
                None => FindNuts::OneValue(trip),
            },
            None => match highest_rank_with(cards, 2, 13) {
                Some(pair) => {
                    let next = match highest_rank_with(cards, 2, pair.as_u8()) {
                        Some(low) => match single {
                            Some(kicker) => if low.as_u8() > kicker.as_u8() {
                                Some(low)
                            } else {
                                None
                            },
                            None => Some(low),
                        },
                        None => match single {
                            Some(kicker) => if pair.as_u8() > kicker.as_u8() {
                                Some(kicker)
                            } else {
                                None
                            },
                            None => None,
                        },
                    };
                    match next {
                        Some(second) => FindNuts::PocketOrTwo(pair, [pair, second]),
                        None => FindNuts::PocketPair(pair),
                    }
                },
                None => FindNuts::PocketPair(Value::Ace),
            },
        },
    }
}

/// The suit of which the board shows three cards or more.
pub open spec fn flush_suit(board: Seq<Card>) -> Option<Suit> {
    if count_suit(board, Suit::Spades) >= 3 {
        Some(Suit::Spades)
    } else if count_suit(board, Suit::Hearts) >= 3 {
        Some(Suit::Hearts)
    } else if count_suit(board, Suit::Diamonds) >= 3 {
        Some(Suit::Diamonds)
    } else if count_suit(board, Suit::Clubs) >= 3 {
        Some(Suit::Clubs)
    } else {
        None
    }
}

/// The highest of the ranks; the Ace where there is none.
pub open spec fn top_rank(vals: Seq<Value>) -> Value
    decreases vals.len(),
{
    if vals.len() == 0 {
        Value::Ace
    } else if vals.len() == 1 {
        vals[0]
    } else {
        let rest = top_rank(vals.drop_last());
        if vals.last().ordinal() > rest.ordinal() {
            vals.last()
        } else {
            rest
        }
    }
}

/// The nuts on a board without a repeated rank and without three cards of
/// one suit: what completes the highest straight within reach, and where
/// none is within reach, the pair of the board's highest rank.
pub open spec fn straight_nuts(board: Seq<Card>) -> FindNuts {
    let found = solves(board, true);
    if found.len() == 0 {
        FindNuts::PocketPair(top_rank(values_of(board)))
    } else {
        match found[0] {
            StraightSolve::Complete => FindNuts::AnyTwo,
            StraightSolve::One(v) => FindNuts::OneValue(v),
            StraightSolve::Two(a) => FindNuts::TwoValues(a),
        }
    }
}

/// The best card of the flush suit with any other card; with another of
/// the suit where the board shows only three of it.
pub open spec fn flush_card_nuts(card: Card, shown: nat) -> FindNuts {
    if shown == 3 {
        FindNuts::CardPlusAnySuited(card)
    } else {
        FindNuts::CardPlusAny(card)
    }
}

/// The nuts on a board that shows three cards or more of the suit `suit`.
/// The straight flushes within reach come first; the cards that a holding
/// takes away from the others decide which further holdings cannot be
/// beaten.
pub open spec fn flush_nuts(board: Seq<Card>, suit: Suit) -> FindNuts {
    let paired = !values_of(board).no_duplicates();
    let shown = suited(board, suit);
    let high = Value::of_straight_ordinal(top_free(shown));
    let high_card = Card(high, suit);
    let ace = Card(Value::Ace, suit);
    let found = solves(shown, false);
    if found.len() == 0 {
        if paired {
            paired_nuts(values_of(board))
        } else {
            flush_card_nuts(high_card, shown.len())
        }
    } else {
        match found[0] {
            StraightSolve::Complete => FindNuts::AnyTwo,
            StraightSolve::One(v) => FindNuts::CardPlusAny(Card(v, suit)),
            StraightSolve::Two(sf0) => {
                let c0 = Card(sf0[0], suit);
                let c1 = Card(sf0[1], suit);
                let h0 = hole_of(c0, c1);
                if found.len() == 1 {
                    if paired {
                        FindNuts::OneHole(h0)
                    } else if sf0[0] == high {
                        flush_card_nuts(high_card, shown.len())
                    } else {
                        FindNuts::ThreeHoles(
                            [h0, pair_or(high_card, c0, h0), pair_or(high_card, c1, h0)],
                        )
                    }
                } else {
                    match found[1] {
                        StraightSolve::Complete => FindNuts::AnyTwo,
                        StraightSolve::One(v) => FindNuts::CardPlusAny(Card(v, suit)),
                        StraightSolve::Two(sf1) => {
                            let d0 = Card(sf1[0], suit);
                            let d1 = Card(sf1[1], suit);
                            let h1 = hole_of(d0, d1);
                            if sf1[0] != sf0[1] {
                                if paired || sf0[0] != high {
                                    FindNuts::OneHole(h0)
                                } else {
                                    FindNuts::ThreeHoles(
                                        [
                                            h0,
                                            pair_or(high_card, d0, h0),
                                            pair_or(high_card, d1, h0),
                                        ],
                                    )
                                }
                            } else if paired {
                                FindNuts::TwoHoles([h0, h1])
                            } else if sf0[0] == high {
                                FindNuts::ThreeHoles([h0, h1, pair_or(high_card, d1, h0)])
                            } else if found.len() > 2 {
                                if found[2].spec_last() == Some(Value::Ace) {
                                    FindNuts::ThreeHoles([h0, h1, pair_or(ace, d0, h0)])
                                } else {
                                    match found[2] {
                                        StraightSolve::One(v) => FindNuts::ThreeHoles(
                                            [h0, h1, pair_or(Card(v, suit), c0, h0)],
                                        ),
                                        _ => FindNuts::TwoHoles([h0, h1]),
                                    }
                                }
                            } else if sf1[1] == Value::Ace {
                                FindNuts::ThreeHoles([h0, h1, pair_or(ace, c0, h0)])
                            } else {
                                FindNuts::ThreeHoles([h0, h1, pair_or(high_card, d0, h0)])
                            }
                        },
                    }
                }
            },
        }
    }
}

/// The description of the holdings that nothing can beat on the board.
pub open spec fn nuts_of(board: Seq<Card>) -> FindNuts {
    match flush_suit(board) {
        Some(suit) => flush_nuts(board, suit),
        None => if !values_of(board).no_duplicates() {
            paired_nuts(values_of(board))
        } else {
            straight_nuts(board)
        },
    }
}

/// Some rank occurs twice or more among the cards.
pub fn paired(cards: &[Card]) -> (r: bool)
    ensures
        r == !values_of(cards@).no_duplicates(),
{
    let ghost vals = values_of(cards@);
    let n = cards.len();
    let mut i: usize = 0;
    while i < n
        invariant
            n == cards@.len(),
            vals == values_of(cards@),
            i <= n,
            forall|a: int, b: int| 0 <= a < b < i ==> vals[a] != vals[b],
        decreases n - i,
    {
        let mut j: usize = 0;
        while j < i
            invariant
                n == cards@.len(),
                vals == values_of(cards@),
                i < n,
                j <= i,
                forall|a: int| 0 <= a < j ==> vals[a] != vals[i as int],
            decreases i - j,
        {
            if cards[j].0 == cards[i].0 {
                assert(vals[j as int] == vals[i as int]);
                return true;
            }
            j += 1;
        }
        i += 1;
    }
    false
}

/// The suit of which there are three cards or more, with its cards in the
/// order in which they stand.
pub fn flush_cards(cards: &[Card]) -> (r: Option<(Suit, Vec<Card>)>)
    ensures
        match r {
            Some((suit, shown)) => flush_suit(cards@) == Some(suit) && shown@ == suited(
                cards@,
                suit,
            ),
            None => flush_suit(cards@) is None,
        },
{
    let spades = cards_of_suit(cards, Suit::Spades);
    if spades.len() >= 3 {
        return Some((Suit::Spades, spades));
    }
    let hearts = cards_of_suit(cards, Suit::Hearts);
    if hearts.len() >= 3 {
        return Some((Suit::Hearts, hearts));
    }
    let diamonds = cards_of_suit(cards, Suit::Diamonds);
    if diamonds.len() >= 3 {
        return Some((Suit::Diamonds, diamonds));
    }
    let clubs = cards_of_suit(cards, Suit::Clubs);
    if clubs.len() >= 3 {
        return Some((Suit::Clubs, clubs));
    }
    None
}

/// The highest rank among the cards; the Ace where there is no card.
pub fn highest_rank(cards: &[Card]) -> (r: Value)
    ensures
        r == top_rank(values_of(cards@)),
{
    if cards.len() == 0 {
        return Value::Ace;
    }
    let mut best = cards[0].0;
    let mut i: usize = 1;
    assert(values_of(cards@.take(1)) =~= seq![cards@[0].0]);
    while i < cards.len()
        invariant
            1 <= i <= cards@.len(),
            best == top_rank(values_of(cards@.take(i as int))),
        decreases cards@.len() - i,
    {
        proof {
            let next = values_of(cards@.take(i + 1));
            assert(next.drop_last() =~= values_of(cards@.take(i as int)));
            assert(next.last() == cards@[i as int].0);
        }
        if cards[i].0.as_u8() > best.as_u8() {
            best = cards[i].0;
        }
        i += 1;
    }
    assert(cards@.take(cards@.len() as int) =~= cards@);
    best
}

/// The best card of the flush suit with any other card; with another of
/// the suit where only three of it are shown.
fn flush_card(card: Card, shown: usize) -> (r: FindNuts)
    ensures
        r == flush_card_nuts(card, shown as nat),
{
    if shown == 3 {
        FindNuts::CardPlusAnySuited(card)
    } else {
        FindNuts::CardPlusAny(card)
    }
}

/// The nuts on cards that show three or more of the suit `suit`, which
/// are `shown`.
fn flush_case(cards: &[Card], suit: Suit, shown: &Vec<Card>) -> (r: FindNuts)
    requires
        cards@.len() <= 5,
        shown@ == suited(cards@, suit),
    ensures
        r == flush_nuts(cards@, suit),
{
    proof {
        cards@.lemma_filter_len(super::cards::of_suit(suit));
    }
    let board_paired = paired(cards);
    let (high, found) = straight_scan(shown.as_slice(), false);
    let high_card = Card(high, suit);
    let ace = Card(Value::Ace, suit);
    if found.len() == 0 {
        return if board_paired {
            quads_full_house(cards)
        } else {
            flush_card(high_card, shown.len())
        };
    }
    match found[0] {
        StraightSolve::Complete => FindNuts::AnyTwo,
        StraightSolve::One(v) => FindNuts::CardPlusAny(Card(v, suit)),
        StraightSolve::Two(sf0) => {
            assert(found@[0].wf());
            let c0 = Card(sf0[0], suit);
            let c1 = Card(sf0[1], suit);
            let h0 = Hole::from_values_suited(sf0, suit);
            if found.len() == 1 {
                if board_paired {
                    FindNuts::OneHole(h0)
                } else if sf0[0] == high {
                    flush_card(high_card, shown.len())
                } else {
                    FindNuts::ThreeHoles(
                        [h0, Hole::pair_or(high_card, c0, h0), Hole::pair_or(high_card, c1, h0)],
                    )
                }
            } else {
                match found[1] {
                    StraightSolve::Complete => FindNuts::AnyTwo,
                    StraightSolve::One(v) => FindNuts::CardPlusAny(Card(v, suit)),
                    StraightSolve::Two(sf1) => {
                        assert(found@[1].wf());
                        let d0 = Card(sf1[0], suit);
                        let d1 = Card(sf1[1], suit);
                        let h1 = Hole::from_values_suited(sf1, suit);
                        if sf1[0] != sf0[1] {
                            if board_paired || sf0[0] != high {
                                FindNuts::OneHole(h0)
                            } else {
                                FindNuts::ThreeHoles(
                                    [
                                        h0,
                                        Hole::pair_or(high_card, d0, h0),
                                        Hole::pair_or(high_card, d1, h0),
                                    ],
                                )
                            }
                        } else if board_paired {
                            FindNuts::TwoHoles([h0, h1])
                        } else if sf0[0] == high {
                            FindNuts::ThreeHoles([h0, h1, Hole::pair_or(high_card, d1, h0)])
                        } else if found.len() > 2 {
                            let ends_in_ace = match found[2].last() {
                                Some(v) => v == Value::Ace,
                                None => false,
                            };
                            if ends_in_ace {
                                FindNuts::ThreeHoles([h0, h1, Hole::pair_or(ace, d0, h0)])
                            } else {
                                match found[2] {
                                    StraightSolve::One(v) => FindNuts::ThreeHoles(
                                        [h0, h1, Hole::pair_or(Card(v, suit), c0, h0)],
                                    ),
                                    _ => FindNuts::TwoHoles([h0, h1]),
                                }
                            }
                        } else if sf1[1] == Value::Ace {
                            FindNuts::ThreeHoles([h0, h1, Hole::pair_or(ace, c0, h0)])
                        } else {
                            FindNuts::ThreeHoles([h0, h1, Hole::pair_or(high_card, d0, h0)])
                        }
                    },
                }
            }
        },
    }
}

impl Board {
    /// Describes the holdings that nothing can beat on this board. There
    /// is nothing to describe before the flop. The description is made by
    /// the rules of `nuts_of`. On a flop, and at every street on a board
    /// of different ranks without three cards of one suit, it is shown to
    /// name just the holdings that nothing beats.
    pub fn find_nuts(&self) -> (r: FindNuts)
        requires
            self@.len() >= 3,
        ensures
            r == nuts_of(self@),
            is_settled(self@) ==> forall|hole: Seq<Card>| #[trigger]
                is_holding(hole, self@) ==> (r.admits(hole) <==> unbeaten(self@, hole)),
    {
        let cards = self.to_vec();
        proof {
            if is_settled(self@) {
                assert forall|hole: Seq<Card>| #[trigger] is_holding(hole, self@) implies (nuts_of(
                    self@,
                ).admits(hole) <==> unbeaten(self@, hole)) by {
                    lemma_settled_board_nuts(self@, hole);
                }
            }
        }
        match flush_cards(cards.as_slice()) {
            Some((suit, shown)) => flush_case(cards.as_slice(), suit, &shown),
            None => if paired(cards.as_slice()) {
                quads_full_house(cards.as_slice())
            } else {
                let (_, found) = straight_scan(cards.as_slice(), true);
                if found.len() == 0 {
                    FindNuts::PocketPair(highest_rank(cards.as_slice()))
                } else {
                    match found[0] {
                        StraightSolve::Complete => FindNuts::AnyTwo,
                        StraightSolve::One(v) => FindNuts::OneValue(v),
                        StraightSolve::Two(a) => FindNuts::TwoValues(a),
                    }
                }
            },
        }
    }

    /// Tells whether the description of the nuts on this board admits the
    /// holding; on a flop, and at every street on a board of different
    /// ranks without three cards of one suit, whether nothing beats the
    /// holding.
    pub fn is_nuts(&self, hole: Hole) -> (r: bool)
        requires
            self@.len() >= 3,
        ensures
            r == nuts_of(self@).admits(hole@),
            is_settled(self@) && is_holding(hole@, self@) ==> (r <==> unbeaten(self@, hole@)),
    {
        self.find_nuts() == hole
    }
}

} // verus!
