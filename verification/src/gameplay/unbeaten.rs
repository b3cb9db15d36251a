//! What it means that nothing beats a holding, and boards on which the
//! description of the nuts is shown to say just that.

use super::card::{Card, Suit, Value};
use super::cards::{
    all_same_suit,
    high_ordinals,
    is_run,
    low_ordinals,
    of_suit,
    run_top,
    straight_top,
    suited,
    values_of,
};
use super::hand::SortedHandValue;
use super::nuts::{flush_nuts, flush_suit, nuts_of, FindNuts};
use super::rank::{lemma_describes_exists, rank_of};
use super::scan::{free, holds_ordinal, missing, present, solve_of, solves, window, StraightSolve};
use super::showdown::{best_of, plays_the_board};
use super::strength::lemma_order_trichotomy;
use super::tie::{dealt, lemma_board_plays_for_all, lemma_count_suit_of_five, lemma_dealt_distinct};
use vstd::prelude::*;

verus! {

/// Two cards that can be held on the cards already out: they differ from
/// each other and from all of those.
pub open spec fn is_holding(hole: Seq<Card>, out: Seq<Card>) -> bool {
    hole.len() == 2 && (hole + out).no_duplicates()
}

/// Nothing beats the holding on the board: no two cards that are neither
/// on the board nor in the holding make a stronger hand with the board
/// than the holding does.
pub open spec fn unbeaten(board: Seq<Card>, hole: Seq<Card>) -> bool {
    forall|other: Seq<Card>| #[trigger]
        is_holding(other, hole + board) ==> !best_of(hole + board).weaker_than(
            best_of(other + board),
        )
}

/// A holding on the cards of another holding and the board can be held on
/// the board alone.
pub proof fn lemma_holding_on_less(other: Seq<Card>, hole: Seq<Card>, board: Seq<Card>)
    requires
        is_holding(other, hole + board),
    ensures
        is_holding(other, board),
{
    let more = other + (hole + board);
    let less = other + board;
    assert forall|i: int, j: int| 0 <= i < less.len() && 0 <= j < less.len() && i != j implies less[i]
        != less[j] by {
        let x = if i < 2 {
            i
        } else {
            i + hole.len()
        };
        let y = if j < 2 {
            j
        } else {
            j + hole.len()
        };
        assert(more[x] == less[i] && more[y] == less[j]);
    }
}

/// Five cards of one suit are the cards of that suit among them.
pub proof fn lemma_suited_all(cards: Seq<Card>, s: Suit)
    requires
        cards.len() == 5,
        forall|i: int| 0 <= i < 5 ==> (#[trigger] cards[i]).1 == s,
    ensures
        suited(cards, s) == cards,
{
    let f = of_suit(s);
    let e = Seq::<Card>::empty();
    let s1 = e.push(cards[0]);
    let s2 = s1.push(cards[1]);
    let s3 = s2.push(cards[2]);
    let s4 = s3.push(cards[3]);
    let s5 = s4.push(cards[4]);
    assert(s5 =~= cards);
    e.lemma_filter_len(f);
    assert(e.filter(f) =~= e);
    e.lemma_filter_push(cards[0], f);
    s1.lemma_filter_push(cards[1], f);
    s2.lemma_filter_push(cards[2], f);
    s3.lemma_filter_push(cards[3], f);
    s4.lemma_filter_push(cards[4], f);
    assert(f(cards[0]) && f(cards[1]) && f(cards[2]) && f(cards[3]) && f(cards[4]));
}

/// Five cards that make a straight up to the Ace show each rank from the
/// Ten to the Ace.
pub proof fn lemma_broadway_present(cards: Seq<Card>, o: int)
    requires
        cards.len() == 5,
        straight_top(values_of(cards)) == Some(Value::Ace),
        9 <= o <= 13,
    ensures
        present(cards, o),
{
    let vals = values_of(cards);
    let hi = high_ordinals(vals);
    if run_top(hi) is Some {
        let t = choose|t: int| is_run(hi, t);
        assert(is_run(hi, t));
        let w = choose|w: int| 0 <= w < hi.len() && hi[w] == t;
        assert(1 <= hi[w] <= 13);
        assert(Value::of_straight_ordinal(t) == Value::Ace);
        assert(t == 13);
        assert(8 < hi[0] <= 13 && 8 < hi[1] <= 13 && 8 < hi[2] <= 13 && 8 < hi[3] <= 13 && 8
            < hi[4] <= 13);
        assert(hi[0] != hi[1] && hi[0] != hi[2] && hi[0] != hi[3] && hi[0] != hi[4]);
        assert(hi[1] != hi[2] && hi[1] != hi[3] && hi[1] != hi[4]);
        assert(hi[2] != hi[3] && hi[2] != hi[4] && hi[3] != hi[4]);
        assert(hi[0] == o || hi[1] == o || hi[2] == o || hi[3] == o || hi[4] == o);
        let k = if hi[0] == o {
            0int
        } else if hi[1] == o {
            1int
        } else if hi[2] == o {
            2int
        } else if hi[3] == o {
            3int
        } else {
            4int
        };
        assert(holds_ordinal(cards[k], o));
    } else {
        let lo = low_ordinals(vals);
        let t = choose|t: int| is_run(lo, t);
        assert(is_run(lo, t));
        let w = choose|w: int| 0 <= w < vals.len() && vals[w] == Value::Ace;
        let k = super::rank::first_witness(vals, w);
        let f = super::cards::first_ace(vals);
        assert(super::cards::is_first_ace(vals, f));
        assert(lo[f] == 0);
        assert(t - 5 < 0);
        let at = choose|at: int| 0 <= at < lo.len() && lo[at] == t;
        assert(0 <= t <= 4);
        assert(Value::of_straight_ordinal(t) == Value::Ace);
        assert(t == 0);
        assert(0 <= lo[0] <= 0 && 0 <= lo[1] <= 0);
        assert(lo[0] == lo[1]);
        assert(false);
    }
}

/// The window from the Ten to the Ace misses nothing on five cards that
/// make a straight up to the Ace.
pub proof fn lemma_broadway_complete(cards: Seq<Card>)
    requires
        cards.len() == 5,
        straight_top(values_of(cards)) == Some(Value::Ace),
    ensures
        missing(cards, 9).len() == 0,
        solves(cards, false) == seq![StraightSolve::Complete],
        solves(cards, true) == seq![StraightSolve::Complete],
{
    let f = free(cards);
    let e = Seq::<int>::empty();
    let s1 = e.push(9int);
    let s2 = s1.push(10int);
    let s3 = s2.push(11int);
    let s4 = s3.push(12int);
    let s5 = s4.push(13int);
    assert(s5 =~= window(9));
    lemma_broadway_present(cards, 9);
    lemma_broadway_present(cards, 10);
    lemma_broadway_present(cards, 11);
    lemma_broadway_present(cards, 12);
    lemma_broadway_present(cards, 13);
    e.lemma_filter_len(f);
    assert(e.filter(f) =~= e);
    e.lemma_filter_push(9int, f);
    s1.lemma_filter_push(10int, f);
    s2.lemma_filter_push(11int, f);
    s3.lemma_filter_push(12int, f);
    s4.lemma_filter_push(13int, f);
    assert(missing(cards, 9) =~= e);
    let none = Seq::<StraightSolve>::empty();
    assert(solve_of(missing(cards, 9)) == StraightSolve::Complete);
    assert(!none.contains(StraightSolve::Complete));
    assert(none.push(StraightSolve::Complete) =~= seq![StraightSolve::Complete]);
}

/// On a board that shows a royal flush the description of the nuts is
/// "any two cards", and rightly so: nothing beats any holding.
pub proof fn lemma_royal_board_nuts(board: Seq<Card>, hole: Seq<Card>)
    requires
        dealt(hole, board),
        rank_of(board) == SortedHandValue::RoyalFlush,
    ensures
        nuts_of(board) == FindNuts::AnyTwo,
        nuts_of(board).admits(hole),
        unbeaten(board, hole),
{
    lemma_dealt_distinct(hole, board);
    lemma_describes_exists(board);
    let s = board[0].1;
    assert(all_same_suit(board));
    assert forall|i: int| 0 <= i < 5 implies (#[trigger] board[i]).1 == s by {}
    lemma_suited_all(board, s);
    lemma_count_suit_of_five(board, Suit::Spades);
    lemma_count_suit_of_five(board, Suit::Hearts);
    lemma_count_suit_of_five(board, Suit::Diamonds);
    lemma_count_suit_of_five(board, Suit::Clubs);
    assert(flush_suit(board) == Some(s));
    lemma_broadway_complete(board);
    assert(flush_nuts(board, s) == FindNuts::AnyTwo);
    assert(plays_the_board(board));
    lemma_board_plays_for_all(hole, board);
    assert forall|other: Seq<Card>| #[trigger] is_holding(other, hole + board) implies !best_of(
        hole + board,
    ).weaker_than(best_of(other + board)) by {
        lemma_holding_on_less(other, hole, board);
        lemma_board_plays_for_all(other, board);
        lemma_order_trichotomy(rank_of(board), rank_of(board));
    }
}

} // verus!
