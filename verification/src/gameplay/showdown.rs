//! The best hand among seven cards, and the showdown between two holdings
//! on a full board.

use super::card::{Card, Suit, Value};
use super::cards::{cards_of_suit, count_suit, disjoint, CardsCombined, Hole};
use super::hand::{HandValue, SortedHandValue};
use super::rank::rank_of;
use super::strength::{lemma_order_transitive, lemma_order_trichotomy};
use super::tie::{dealt, lemma_board_plays_for_all};
use itertools::Itertools;
use vstd::prelude::*;

verus! {

/// Five places of a sequence of `n`, from left to right.
pub open spec fn rising(a: int, b: int, c: int, d: int, e: int, n: int) -> bool {
    0 <= a < b < c < d < e < n
}

/// The cards at five places.
pub open spec fn five_of(cards: Seq<Card>, a: int, b: int, c: int, d: int, e: int) -> Seq<Card> {
    seq![cards[a], cards[b], cards[c], cards[d], cards[e]]
}

/// `hand` holds five of the cards, taken from left to right.
pub open spec fn chosen(cards: Seq<Card>, hand: Seq<Card>) -> bool {
    exists|a: int, b: int, c: int, d: int, e: int|
        rising(a, b, c, d, e, cards.len() as int) && hand == #[trigger] five_of(
            cards,
            a,
            b,
            c,
            d,
            e,
        )
}

/// `hand` is one of the hands.
pub open spec fn among(hands: Seq<[Card; 5]>, hand: Seq<Card>) -> bool {
    exists|k: int| 0 <= k < hands.len() && (#[trigger] hands[k])@ == hand
}

/// `h` is the value of five of the cards, and no five of them have a
/// stronger value.
pub open spec fn is_best(cards: Seq<Card>, h: SortedHandValue) -> bool {
    &&& forall|a: int, b: int, c: int, d: int, e: int|
        rising(a, b, c, d, e, cards.len() as int) ==> rank_of(
            #[trigger] five_of(cards, a, b, c, d, e),
        ).at_most(h)
    &&& exists|a: int, b: int, c: int, d: int, e: int|
        rising(a, b, c, d, e, cards.len() as int) && h == rank_of(
            #[trigger] five_of(cards, a, b, c, d, e),
        )
}

/// The strongest value that five of the cards have.
pub open spec fn best_of(cards: Seq<Card>) -> SortedHandValue {
    choose|h: SortedHandValue| is_best(cards, h)
}

/// There is one best value only.
pub proof fn lemma_best_unique(cards: Seq<Card>, g: SortedHandValue, h: SortedHandValue)
    requires
        is_best(cards, g),
        is_best(cards, h),
    ensures
        g == h,
{
    lemma_order_trichotomy(g, h);
}

/// `itertools::Itertools::array_combinations`, asked for the arrays of
/// five out of seven cards. It yields each choice of five places, taken
/// from left to right, once: 21 arrays in all.
#[verifier::external_body]
fn five_card_subsets(cards: &[Card; 7]) -> (r: Vec<[Card; 5]>)
    ensures
        r@.len() == 21,
        forall|k: int| 0 <= k < r@.len() ==> chosen(cards@, (#[trigger] r@[k])@),
        forall|a: int, b: int, c: int, d: int, e: int|
            rising(a, b, c, d, e, 7) ==> among(r@, #[trigger] five_of(cards@, a, b, c, d, e)),
{
    cards.iter().copied().array_combinations::<5>().collect()
}

/// Five cards taken from different places of cards that are all
/// different are all different.
pub proof fn lemma_five_of_distinct(cards: Seq<Card>, a: int, b: int, c: int, d: int, e: int)
    requires
        cards.no_duplicates(),
        rising(a, b, c, d, e, cards.len() as int),
    ensures
        five_of(cards, a, b, c, d, e).no_duplicates(),
        five_of(cards, a, b, c, d, e).len() == 5,
{
    let s = five_of(cards, a, b, c, d, e);
    assert(s[0] == cards[a] && s[1] == cards[b] && s[2] == cards[c] && s[3] == cards[d] && s[4]
        == cards[e]);
}

/// `h` is the value of one of the hands, and none of them is stronger.
pub open spec fn is_strongest(hands: Seq<[Card; 5]>, h: SortedHandValue) -> bool {
    &&& forall|j: int| 0 <= j < hands.len() ==> rank_of((#[trigger] hands[j])@).at_most(h)
    &&& exists|j: int| 0 <= j < hands.len() && h == rank_of((#[trigger] hands[j])@)
}

/// The strongest value among the hands.
fn strongest(hands: &Vec<[Card; 5]>) -> (r: HandValue)
    requires
        hands@.len() > 0,
        forall|j: int| 0 <= j < hands@.len() ==> (#[trigger] hands@[j])@.no_duplicates(),
    ensures
        is_strongest(hands@, r@),
{
    let mut best = HandValue::rank(CardsCombined::unchecked(hands[0]));
    let mut k: usize = 1;
    while k < hands.len()
        invariant
            1 <= k <= hands@.len(),
            forall|j: int| 0 <= j < hands@.len() ==> (#[trigger] hands@[j])@.no_duplicates(),
            forall|j: int| 0 <= j < k ==> rank_of((#[trigger] hands@[j])@).at_most(best@),
            exists|j: int| 0 <= j < k && best@ == rank_of((#[trigger] hands@[j])@),
        decreases hands@.len() - k,
    {
        let v = HandValue::rank(CardsCombined::unchecked(hands[k]));
        let ghost before = best@;
        if best.0.compare(&v.0) < 0 {
            best = v;
            proof {
                assert forall|j: int| 0 <= j < k + 1 implies rank_of(
                    (#[trigger] hands@[j])@,
                ).at_most(v@) by {
                    if j < k {
                        let w = rank_of(hands@[j]@);
                        assert(w.at_most(before));
                        if w != before {
                            lemma_order_transitive(w, before, v@);
                        }
                    }
                }
            }
        } else {
            proof {
                lemma_order_trichotomy(best@, v@);
            }
        }
        k += 1;
    }
    best
}

/// The strongest of the hands that `array_combinations` yields is the best
/// value among the cards.
proof fn lemma_strongest_is_best(cards: Seq<Card>, hands: Seq<[Card; 5]>, h: SortedHandValue)
    requires
        cards.len() == 7,
        forall|k: int| 0 <= k < hands.len() ==> chosen(cards, (#[trigger] hands[k])@),
        forall|a: int, b: int, c: int, d: int, e: int|
            rising(a, b, c, d, e, 7) ==> among(hands, #[trigger] five_of(cards, a, b, c, d, e)),
        is_strongest(hands, h),
    ensures
        is_best(cards, h),
        h == best_of(cards),
{
    assert(is_best(cards, h)) by {
        lemma_strongest_covers(cards, hands, h);
    }
    lemma_best_unique(cards, h, best_of(cards));
}

/// Every choice of `array_combinations` from cards that are all different
/// holds cards that are all different.
proof fn lemma_choices_distinct(cards: Seq<Card>, hands: Seq<[Card; 5]>)
    requires
        cards.len() == 7,
        cards.no_duplicates(),
        forall|k: int| 0 <= k < hands.len() ==> chosen(cards, (#[trigger] hands[k])@),
    ensures
        forall|j: int| 0 <= j < hands.len() ==> (#[trigger] hands[j])@.no_duplicates(),
{
    assert forall|j: int| 0 <= j < hands.len() implies (#[trigger] hands[j])@.no_duplicates() by {
        let (a, b, c, d, e) = choose|a: int, b: int, c: int, d: int, e: int|
            rising(a, b, c, d, e, 7) && hands[j]@ == #[trigger] five_of(cards, a, b, c, d, e);
        lemma_five_of_distinct(cards, a, b, c, d, e);
    }
}

proof fn lemma_strongest_covers(cards: Seq<Card>, hands: Seq<[Card; 5]>, h: SortedHandValue)
    requires
        cards.len() == 7,
        forall|k: int| 0 <= k < hands.len() ==> chosen(cards, (#[trigger] hands[k])@),
        forall|a: int, b: int, c: int, d: int, e: int|
            rising(a, b, c, d, e, 7) ==> among(hands, #[trigger] five_of(cards, a, b, c, d, e)),
        is_strongest(hands, h),
    ensures
        is_best(cards, h),
{
    assert forall|a: int, b: int, c: int, d: int, e: int| rising(a, b, c, d, e, 7) implies rank_of(
        #[trigger] five_of(cards, a, b, c, d, e),
    ).at_most(h) by {
        assert(among(hands, five_of(cards, a, b, c, d, e)));
        let j = choose|j: int|
            0 <= j < hands.len() && (#[trigger] hands[j])@ == five_of(cards, a, b, c, d, e);
        assert(rank_of(hands[j]@).at_most(h));
    }
    let j = choose|j: int| 0 <= j < hands.len() && h == rank_of((#[trigger] hands[j])@);
    assert(chosen(cards, hands[j]@));
    let (a, b, c, d, e) = choose|a: int, b: int, c: int, d: int, e: int|
        rising(a, b, c, d, e, 7) && hands[j]@ == #[trigger] five_of(cards, a, b, c, d, e);
    assert(rising(a, b, c, d, e, 7) && h == rank_of(five_of(cards, a, b, c, d, e)));
}

impl CardsCombined<7> {
    /// The best value that five of the seven cards make.
    pub fn hand_value(&self) -> (r: HandValue)
        ensures
            is_best(self@, r@),
            r@ == best_of(self@),
    {
        let cards = self.cards();
        let hands = five_card_subsets(&cards);
        proof {
            lemma_choices_distinct(cards@, hands@);
        }
        let best = strongest(&hands);
        proof {
            lemma_strongest_is_best(self@, hands@, best@);
        }
        best
    }
}

/// `rayon::join` runs both closures, possibly on two threads, and hands
/// back what each returned: the first closure's result first.
pub assume_specification<A, B, RA, RB>[ rayon::join::<A, B, RA, RB> ](oper_a: A, oper_b: B) -> (r: (
    RA,
    RB,
)) where A: FnOnce() -> RA + Send, B: FnOnce() -> RB + Send, RA: Send, RB: Send
    requires
        oper_a.requires(()),
        oper_b.requires(()),
    ensures
        oper_a.ensures((), r.0),
        oper_b.ensures((), r.1),
;

/// The five cards of a full board are a hand that no holding can improve
/// on: a royal flush; four of a kind with the best fifth card there can
/// be; or a straight up to the Ace on a board with no three cards of one
/// suit.
pub open spec fn plays_the_board(board: Seq<Card>) -> bool {
    match rank_of(board) {
        SortedHandValue::RoyalFlush => true,
        SortedHandValue::Quads(a) => (a[0] == Value::Ace && a[1] == Value::King) || a[1]
            == Value::Ace,
        SortedHandValue::Straight(t) => t == Value::Ace && forall|s: Suit|
            count_suit(board, s) <= 2,
        _ => false,
    }
}

impl CardsCombined<5> {
    /// Tells whether the board alone is the best hand there can be: where
    /// it is, every holding makes the value of the board and no more.
    pub fn is_nuts(&self) -> (r: bool)
        ensures
            r == plays_the_board(self@),
            r ==> forall|hole: Seq<Card>| #[trigger]
                dealt(hole, self@) ==> best_of(hole + self@) == rank_of(self@),
    {
        proof {
            if plays_the_board(self@) {
                assert forall|hole: Seq<Card>| #[trigger] dealt(hole, self@) implies best_of(
                    hole + self@,
                ) == rank_of(self@) by {
                    lemma_board_plays_for_all(hole, self@);
                }
            }
        }
        match HandValue::rank(*self).0 {
            SortedHandValue::RoyalFlush => true,
            SortedHandValue::Quads(a) => (a[0] == Value::Ace && a[1] == Value::King) || a[1]
                == Value::Ace,
            SortedHandValue::Straight(t) => {
                let cards = self.cards();
                let spades = cards_of_suit(cards.as_slice(), Suit::Spades).len();
                let hearts = cards_of_suit(cards.as_slice(), Suit::Hearts).len();
                let diamonds = cards_of_suit(cards.as_slice(), Suit::Diamonds).len();
                let clubs = cards_of_suit(cards.as_slice(), Suit::Clubs).len();
                let low = spades <= 2 && hearts <= 2 && diamonds <= 2 && clubs <= 2;
                proof {
                    assert(count_suit(self@, Suit::Spades) == spades);
                    assert(count_suit(self@, Suit::Hearts) == hearts);
                    assert(count_suit(self@, Suit::Diamonds) == diamonds);
                    assert(count_suit(self@, Suit::Clubs) == clubs);
                    if low {
                        assert forall|s: Suit| count_suit(self@, s) <= 2 by {
                            match s {
                                Suit::Spades => {},
                                Suit::Hearts => {},
                                Suit::Diamonds => {},
                                Suit::Clubs => {},
                            }
                        }
                    }
                }
                t == Value::Ace && low
            },
            _ => false,
        }
    }

    /// The best value that five of the holding's and the board's seven
    /// cards make.
    pub fn hand_value(&self, hole: Hole) -> (r: HandValue)
        requires
            disjoint(hole@, self@),
        ensures
            is_best(hole@ + self@, r@),
            r@ == best_of(hole@ + self@),
    {
        self.to_seven(hole).hand_value()
    }

    /// The showdown of two holdings on this board: the winning value, and
    /// who won. `Some(true)` where the first holding is stronger,
    /// `Some(false)` where the second is, `None` where they tie.
    pub fn who_wins(&self, h1: Hole, h2: Hole) -> (r: (HandValue, Option<bool>))
        requires
            disjoint(h1@, self@),
            disjoint(h2@, self@),
        ensures
            ({
                let v1 = best_of(h1@ + self@);
                let v2 = best_of(h2@ + self@);
                if v2.weaker_than(v1) {
                    r.0@ == v1 && r.1 == Some(true)
                } else if v1.weaker_than(v2) {
                    r.0@ == v2 && r.1 == Some(false)
                } else {
                    r.0@ == v1 && v1 == v2 && r.1 is None
                }
            }),
    {
        let board = *self;
        let first = || -> (v: HandValue)
            ensures
                v@ == best_of(h1@ + board@),
            { board.hand_value(h1) };
        let second = || -> (v: HandValue)
            ensures
                v@ == best_of(h2@ + board@),
            { board.hand_value(h2) };
        let (v1, v2) = rayon::join(first, second);
        let c = v1.0.compare(&v2.0);
        proof {
            lemma_order_trichotomy(v1@, v2@);
        }
        if c > 0 {
            (v1, Some(true))
        } else if c < 0 {
            (v2, Some(false))
        } else {
            (v1, None)
        }
    }
}

} // verus!
