//! Why a board that is the nuts by itself leaves nothing to any holding:
//! on such a board every holding makes the value of the board.

use super::card::{Card, Suit, Value};
use super::cards::{all_same_suit, count_suit, of_suit, values_of};
use super::hand::{grouped, occurs, SortedHandValue};
use super::rank::{
    hit, lemma_describes_exists, lemma_groups_cover, lemma_occurs_of_five, lemma_same_kickers,
    lemma_straight_distinct, rank_of,
};
use super::showdown::{
    best_of, five_of, is_best, lemma_best_unique, lemma_five_of_distinct, plays_the_board, rising,
};
use super::strength::lex_less;
use vstd::prelude::*;

verus! {

/// No value is stronger than a royal flush.
pub proof fn lemma_royal_flush_is_top(h: SortedHandValue)
    ensures
        h.at_most(SortedHandValue::RoyalFlush),
{
}

/// 1 where the card at `p` has the suit `s`, else 0.
pub open spec fn suit_hit(cards: Seq<Card>, p: int, s: Suit) -> nat {
    if cards[p].1 == s {
        1
    } else {
        0
    }
}

/// Among five cards, a suit occurs as often as the five places hold it.
pub proof fn lemma_count_suit_of_five(cards: Seq<Card>, s: Suit)
    requires
        cards.len() == 5,
    ensures
        count_suit(cards, s) == suit_hit(cards, 0, s) + suit_hit(cards, 1, s) + suit_hit(
            cards,
            2,
            s,
        ) + suit_hit(cards, 3, s) + suit_hit(cards, 4, s),
{
    let f = of_suit(s);
    let e = Seq::<Card>::empty();
    let s1 = e.push(cards[0]);
    let s2 = s1.push(cards[1]);
    let s3 = s2.push(cards[2]);
    let s4 = s3.push(cards[3]);
    let s5 = s4.push(cards[4]);
    assert(s5 =~= cards);
    e.lemma_filter_len(f);
    assert(e.filter(f).len() == 0);
    e.lemma_filter_push(cards[0], f);
    s1.lemma_filter_push(cards[1], f);
    s2.lemma_filter_push(cards[2], f);
    s3.lemma_filter_push(cards[3], f);
    s4.lemma_filter_push(cards[4], f);
}

/// The seven cards of a holding on a board, the holding first: five of
/// them taken from left to right hold three cards of the board at least,
/// in their last three places.
pub proof fn lemma_three_from_the_board(
    hole: Seq<Card>,
    board: Seq<Card>,
    a: int,
    b: int,
    c: int,
    d: int,
    e: int,
)
    requires
        hole.len() == 2,
        board.len() == 5,
        rising(a, b, c, d, e, 7),
    ensures
        ({
            let hand = five_of(hole + board, a, b, c, d, e);
            &&& hand.len() == 5
            &&& 0 <= c - 2 < d - 2 < e - 2 < 5
            &&& hand[2] == board[c - 2]
            &&& hand[3] == board[d - 2]
            &&& hand[4] == board[e - 2]
        }),
{
}

/// The board is the choice of the last five of the seven cards.
pub proof fn lemma_board_is_a_choice(hole: Seq<Card>, board: Seq<Card>)
    requires
        hole.len() == 2,
        board.len() == 5,
    ensures
        five_of(hole + board, 2, 3, 4, 5, 6) == board,
        rising(2, 3, 4, 5, 6, 7),
{
    assert(five_of(hole + board, 2, 3, 4, 5, 6) =~= board);
}

/// What the lemmas below ask of a holding on a full board: two cards and
/// five, all seven different.
pub open spec fn dealt(hole: Seq<Card>, board: Seq<Card>) -> bool {
    &&& hole.len() == 2
    &&& board.len() == 5
    &&& (hole + board).no_duplicates()
}

/// The five cards of the board differ, and so do five of the seven that
/// are taken from left to right.
pub proof fn lemma_dealt_distinct(hole: Seq<Card>, board: Seq<Card>)
    requires
        dealt(hole, board),
    ensures
        board.no_duplicates(),
{
    let cards = hole + board;
    assert forall|i: int, j: int| 0 <= i < 5 && 0 <= j < 5 && i != j implies board[i]
        != board[j] by {
        assert(cards[i + 2] == board[i] && cards[j + 2] == board[j]);
    }
}

/// On a board that shows four of a kind with the best fifth card that
/// there can be, no five of the seven cards are stronger than the board.
pub proof fn lemma_quads_board_bounds(
    hole: Seq<Card>,
    board: Seq<Card>,
    a: int,
    b: int,
    c: int,
    d: int,
    e: int,
)
    requires
        dealt(hole, board),
        rising(a, b, c, d, e, 7),
        rank_of(board) is Quads,
        plays_the_board(board),
    ensures
        rank_of(five_of(hole + board, a, b, c, d, e)).at_most(rank_of(board)),
{
    let cards = hole + board;
    let hand = five_of(cards, a, b, c, d, e);
    let target = rank_of(board);
    let v = rank_of(hand);
    lemma_dealt_distinct(hole, board);
    lemma_five_of_distinct(cards, a, b, c, d, e);
    lemma_describes_exists(board);
    lemma_describes_exists(hand);
    lemma_three_from_the_board(hole, board, a, b, c, d, e);
    let t = target->Quads_0;
    let q = t[0];
    let k = t[1];
    let bv = values_of(board);
    let hv = values_of(hand);
    assert(grouped(bv, t@, seq![4nat, 1nat]));
    assert(occurs(bv, t@[0]) == 4);
    lemma_occurs_of_five(bv, q);
    lemma_occurs_of_five(hv, q);
    let i = c - 2;
    let j = d - 2;
    let l = e - 2;
    assert(hit(bv, i, q) + hit(bv, j, q) + hit(bv, l, q) >= 2);
    assert(hit(hv, 2, q) + hit(hv, 3, q) + hit(hv, 4, q) >= 2);
    assert(occurs(hv, q) >= 2);
    assert(!all_same_suit(hand)) by {
        if hand[2].0 == q && hand[3].0 == q {
            assert(hand[2] != hand[3]);
            assert(hand[2].1 != hand[3].1);
        } else if hand[2].0 == q && hand[4].0 == q {
            assert(hand[2] != hand[4]);
            assert(hand[2].1 != hand[4].1);
        } else {
            assert(hand[3].0 == q && hand[4].0 == q);
            assert(hand[3] != hand[4]);
            assert(hand[3].1 != hand[4].1);
        }
    }
    match v {
        SortedHandValue::Quads(u) => {
            assert(grouped(hv, u@, seq![4nat, 1nat]));
            lemma_groups_cover(hv, u@, seq![4nat, 1nat], q);
            assert(occurs(hv, u@[1]) == 1);
            assert(u@.contains(q));
            let w = choose|w: int| 0 <= w < u@.len() && u@[w] == q;
            assert(w == 0);
            assert(u[0] == q);
            assert(u[1] != q);
            if u[1] == k {
                assert(u@ =~= t@);
                lemma_same_kickers(v, target);
            } else {
                assert(u@.take(1) =~= t@.take(1));
                assert(u@[1].ordinal() < t@[1].ordinal());
                assert(lex_less(u@, t@));
            }
        },
        _ => {},
    }
}

/// On a board that shows a straight up to the Ace and no three cards of
/// one suit, no five of the seven cards are stronger than the board.
pub proof fn lemma_straight_board_bounds(
    hole: Seq<Card>,
    board: Seq<Card>,
    a: int,
    b: int,
    c: int,
    d: int,
    e: int,
)
    requires
        dealt(hole, board),
        rising(a, b, c, d, e, 7),
        rank_of(board) is Straight,
        plays_the_board(board),
    ensures
        rank_of(five_of(hole + board, a, b, c, d, e)).at_most(rank_of(board)),
{
    let cards = hole + board;
    let hand = five_of(cards, a, b, c, d, e);
    let target = rank_of(board);
    let v = rank_of(hand);
    lemma_dealt_distinct(hole, board);
    lemma_five_of_distinct(cards, a, b, c, d, e);
    lemma_describes_exists(board);
    lemma_describes_exists(hand);
    lemma_three_from_the_board(hole, board, a, b, c, d, e);
    let bv = values_of(board);
    let hv = values_of(hand);
    assert(target == SortedHandValue::Straight(Value::Ace));
    lemma_straight_distinct(bv);
    let i = c - 2;
    let j = d - 2;
    let l = e - 2;
    assert(bv[i] != bv[j] && bv[i] != bv[l] && bv[j] != bv[l]);
    let x = hand[2].0;
    let y = hand[3].0;
    let z = hand[4].0;
    assert(x != y && x != z && y != z);
    assert(!all_same_suit(hand)) by {
        if all_same_suit(hand) {
            let s = hand[2].1;
            assert(hand[3].1 == s && hand[4].1 == s);
            lemma_count_suit_of_five(board, s);
            assert(suit_hit(board, i, s) + suit_hit(board, j, s) + suit_hit(board, l, s) == 3);
            assert(count_suit(board, s) >= 3);
        }
    }
    lemma_occurs_of_five(hv, x);
    lemma_occurs_of_five(hv, y);
    lemma_occurs_of_five(hv, z);
    assert(hv[2] == x && hv[3] == y && hv[4] == z);
    match v {
        SortedHandValue::Quads(u) => {
            assert(grouped(hv, u@, seq![4nat, 1nat]));
            lemma_groups_cover(hv, u@, seq![4nat, 1nat], x);
            lemma_groups_cover(hv, u@, seq![4nat, 1nat], y);
            lemma_groups_cover(hv, u@, seq![4nat, 1nat], z);
            lemma_three_in_two(u@, x, y, z);
        },
        SortedHandValue::FullHouse(u) => {
            assert(grouped(hv, u@, seq![3nat, 2nat]));
            lemma_groups_cover(hv, u@, seq![3nat, 2nat], x);
            lemma_groups_cover(hv, u@, seq![3nat, 2nat], y);
            lemma_groups_cover(hv, u@, seq![3nat, 2nat], z);
            lemma_three_in_two(u@, x, y, z);
        },
        SortedHandValue::Straight(top) => {
            if top != Value::Ace {
                let mine = v.kickers();
                let theirs = target.kickers();
                assert(mine[0].ordinal() < theirs[0].ordinal());
                assert(mine.take(0) =~= theirs.take(0));
                assert(lex_less(mine, theirs));
            }
        },
        _ => {},
    }
}

/// Two ranks cannot be three different ranks.
pub proof fn lemma_three_in_two(pair: Seq<Value>, x: Value, y: Value, z: Value)
    requires
        pair.len() == 2,
        pair.contains(x),
        pair.contains(y),
        pair.contains(z),
    ensures
        x == y || x == z || y == z,
{
    let i = choose|i: int| 0 <= i < 2 && pair[i] == x;
    let j = choose|j: int| 0 <= j < 2 && pair[j] == y;
    let k = choose|k: int| 0 <= k < 2 && pair[k] == z;
}

/// On a full board that is the nuts by itself, every holding makes the
/// value of the board and nothing more: whatever two holdings meet on it,
/// they tie.
pub proof fn lemma_board_plays_for_all(hole: Seq<Card>, board: Seq<Card>)
    requires
        dealt(hole, board),
        plays_the_board(board),
    ensures
        is_best(hole + board, rank_of(board)),
        best_of(hole + board) == rank_of(board),
{
    let cards = hole + board;
    let target = rank_of(board);
    assert forall|a: int, b: int, c: int, d: int, e: int|
        rising(a, b, c, d, e, cards.len() as int) implies rank_of(
        #[trigger] five_of(cards, a, b, c, d, e),
    ).at_most(target) by {
        match target {
            SortedHandValue::RoyalFlush => {
                lemma_royal_flush_is_top(rank_of(five_of(cards, a, b, c, d, e)));
            },
            SortedHandValue::Quads(_) => {
                lemma_quads_board_bounds(hole, board, a, b, c, d, e);
            },
            SortedHandValue::Straight(_) => {
                lemma_straight_board_bounds(hole, board, a, b, c, d, e);
            },
            _ => {},
        }
    }
    lemma_board_is_a_choice(hole, board);
    assert(rising(2, 3, 4, 5, 6, cards.len() as int) && target == rank_of(
        five_of(cards, 2, 3, 4, 5, 6),
    ));
    assert(is_best(cards, target));
    lemma_best_unique(cards, target, best_of(cards));
}

} // verus!
