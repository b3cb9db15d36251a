//! Boards of different ranks without three cards of one suit, at every
//! street: the description of the nuts names just the holdings that
//! nothing beats.

use super::boards::{
    is_board, is_part, lemma_best_exists, lemma_choice_split, lemma_part_inherits, part_flop,
    part_hole,
};
use super::card::{Card, Suit, Value};
use super::cards::values_of;
use super::flops::{
    is_dry, lemma_dry_flop_shapes, lemma_first_rank_decides, lemma_set_on_flop,
    lemma_trips_on_flop,
};
use super::flops::{gap, lemma_missing_count, lemma_scan_finds};
use super::flops_paired::lemma_two_free_hold;
use super::flops_suited_nuts::lemma_flop_nuts;
use super::flops_straight::{
    fills, lemma_holds_both, lemma_missing_two, lemma_scan_first, lemma_slot_holds,
    lemma_slot_of_rank, lemma_straight_flop_bound, lemma_top_window, lemma_window_value, slot,
    top_window,
};
use super::scan::{free, window};
use super::flops_suited::has_rank;
use super::boards::lemma_part_missing;
use super::scan::{holds_ordinal, missing, present, solve_of, StraightSolve};
use super::hand::SortedHandValue;
use super::headsup::{fresh_deck, lemma_fresh_deck_distinct};
use super::nuts::{flush_suit, nuts_of, straight_nuts, top_rank, FindNuts};
use super::rank::rank_of;
use super::scan::solves;
use super::showdown::{best_of, five_of, is_best, rising};
use super::strength::lemma_order_trichotomy;
use super::unbeaten::{is_holding, lemma_holding_on_less, unbeaten};
use vstd::prelude::*;
use vstd::relations::sorted_by;
use vstd::seq_lib::{to_multiset_contains, to_multiset_len};

verus! {

/// A board is dry: different ranks, no three cards of one suit, no
/// straight within reach of a holding.
pub open spec fn is_dry_board(board: Seq<Card>) -> bool {
    &&& is_board(board)
    &&& values_of(board).no_duplicates()
    &&& flush_suit(board) is None
    &&& solves(board, true).len() == 0
}

/// The highest of some ranks is one of them and no lower than any.
pub proof fn lemma_top_rank(vals: Seq<Value>)
    requires
        vals.len() >= 1,
    ensures
        vals.contains(top_rank(vals)),
        forall|i: int| 0 <= i < vals.len() ==> (#[trigger] vals[i]).ordinal() <= top_rank(
            vals,
        ).ordinal(),
    decreases vals.len(),
{
    if vals.len() == 1 {
        assert(vals[0] == top_rank(vals));
    } else {
        let rest = vals.drop_last();
        lemma_top_rank(rest);
        let t = top_rank(rest);
        let k = choose|k: int| 0 <= k < rest.len() && rest[k] == t;
        assert(vals[k] == t);
        assert(vals[vals.len() - 1] == vals.last());
        assert forall|i: int| 0 <= i < vals.len() implies (#[trigger] vals[i]).ordinal()
            <= top_rank(vals).ordinal() by {
            if i < rest.len() {
                assert(rest[i] == vals[i]);
            }
        }
    }
}

/// On a dry board, five of the cards of a holding and the board make three
/// of a kind at best, and make it only with a pair in the hand that meets
/// a card of the board.
pub proof fn lemma_dry_choice(
    board: Seq<Card>,
    hole: Seq<Card>,
    a: int,
    b: int,
    c: int,
    d: int,
    e: int,
)
    requires
        is_dry_board(board),
        is_holding(hole, board),
        rising(a, b, c, d, e, (hole + board).len() as int),
    ensures
        ({
            let v = rank_of(five_of(hole + board, a, b, c, d, e));
            &&& v.category() <= 3
            &&& v is Trips ==> {
                let r = v->Trips_0[0];
                hole[0].0 == r && hole[1].0 == r && values_of(board).contains(r)
            }
        }),
{
    let cards = hole + board;
    let ho = part_hole(cards, a, b);
    let fl = part_flop(cards, c, d, e);
    lemma_choice_split(hole, board, a, b, c, d, e);
    lemma_part_inherits(fl, board);
    assert(is_dry(fl));
    lemma_dry_flop_shapes(fl, ho);
    let v = rank_of(ho + fl);
    if v is Trips {
        lemma_trips_on_flop(fl, ho);
        let r = v->Trips_0[0];
        let fv = values_of(fl);
        let bv = values_of(board);
        let x = choose|x: int| 0 <= x < fv.len() && fv[x] == r;
        let (i, j, k) = choose|i: int, j: int, k: int|
            0 <= i < j < k < board.len() && fl[0] == #[trigger] board[i] && fl[1]
                == #[trigger] board[j] && fl[2] == #[trigger] board[k];
        let y = if x == 0 {
            i
        } else if x == 1 {
            j
        } else {
            k
        };
        assert(bv[y] == r);
        assert(fl[x] == board[y]);
        if a >= 2 {
            let z = choose|z: int| 0 <= z < board.len() && board[z] == ho[0];
            assert(bv[z] == r);
            assert(z != y) by {
                let hand = ho + fl;
                assert(hand[0] == ho[0] && hand[x + 2] == fl[x]);
            }
        }
        if b >= 2 {
            let z = choose|z: int| 0 <= z < board.len() && board[z] == ho[1];
            assert(bv[z] == r);
            assert(z != y) by {
                let hand = ho + fl;
                assert(hand[1] == ho[1] && hand[x + 2] == fl[x]);
            }
        }
        assert(a == 0 && b == 1);
    }
}

/// On a dry board a holding makes three of a kind at best, and makes it
/// only as a pair that meets a card of the board.
pub proof fn lemma_dry_best(board: Seq<Card>, hole: Seq<Card>)
    requires
        is_dry_board(board),
        is_holding(hole, board),
    ensures
        ({
            let v = best_of(hole + board);
            &&& v.category() <= 3
            &&& v is Trips ==> {
                let r = v->Trips_0[0];
                hole[0].0 == r && hole[1].0 == r && values_of(board).contains(r)
            }
        }),
{
    let cards = hole + board;
    lemma_best_exists(cards);
    let v = best_of(cards);
    let (a, b, c, d, e) = choose|a: int, b: int, c: int, d: int, e: int|
        rising(a, b, c, d, e, cards.len() as int) && v == rank_of(
            #[trigger] five_of(cards, a, b, c, d, e),
        );
    lemma_dry_choice(board, hole, a, b, c, d, e);
}

/// On a dry board a pair of a rank that the board shows makes three of a
/// kind of the rank.
pub proof fn lemma_dry_set(board: Seq<Card>, hole: Seq<Card>, r: Value)
    requires
        is_dry_board(board),
        is_holding(hole, board),
        hole[0].0 == r,
        hole[1].0 == r,
        values_of(board).contains(r),
    ensures
        best_of(hole + board) is Trips,
        best_of(hole + board)->Trips_0[0] == r,
{
    let cards = hole + board;
    let bv = values_of(board);
    let t = choose|t: int| 0 <= t < bv.len() && bv[t] == r;
    let (i, j, k) = if t <= 2 {
        (0int, 1int, 2int)
    } else if t == 3 {
        (0int, 1int, 3int)
    } else {
        (0int, 1int, 4int)
    };
    assert(rising(0, 1, i + 2, j + 2, k + 2, cards.len() as int));
    lemma_choice_split(hole, board, 0, 1, i + 2, j + 2, k + 2);
    let ho = part_hole(cards, 0, 1);
    let fl = part_flop(cards, i + 2, j + 2, k + 2);
    assert(ho =~= hole);
    lemma_part_inherits(fl, board);
    assert(fl[0] == board[i] && fl[1] == board[j] && fl[2] == board[k]);
    let fv = values_of(fl);
    assert(fv[0] == bv[i] && fv[1] == bv[j] && fv[2] == bv[k]);
    assert(fv.contains(r)) by {
        if t == i {
            assert(fv[0] == r);
        } else if t == j {
            assert(fv[1] == r);
        } else {
            assert(fv[2] == r);
        }
    }
    lemma_set_on_flop(fl, ho, r);
    let made = rank_of(five_of(cards, 0, 1, i + 2, j + 2, k + 2));
    lemma_best_exists(cards);
    lemma_dry_best(board, hole);
    let v = best_of(cards);
    assert(made.at_most(v));
    lemma_order_trichotomy(made, v);
    if v is Trips && v->Trips_0[0] != r {
        assert(false);
    }
}

/// Of three cards of one rank, a board of different ranks and a holding
/// that is no pair of the rank hold two at most.
proof fn lemma_two_of_rank_out(
    board: Seq<Card>,
    hole: Seq<Card>,
    r: Value,
    s: Suit,
    t: Suit,
    u: Suit,
)
    requires
        is_board(board),
        values_of(board).no_duplicates(),
        is_holding(hole, board),
        !(hole[0].0 == r && hole[1].0 == r),
        s != t && s != u && t != u,
    ensures
        !((hole + board).contains(Card(r, s)) && (hole + board).contains(Card(r, t)) && (hole
            + board).contains(Card(r, u))),
{
    let out = hole + board;
    let bv = values_of(board);
    if out.contains(Card(r, s)) && out.contains(Card(r, t)) && out.contains(Card(r, u)) {
        let x = choose|i: int| 0 <= i < out.len() && out[i] == Card(r, s);
        let y = choose|i: int| 0 <= i < out.len() && out[i] == Card(r, t);
        let z = choose|i: int| 0 <= i < out.len() && out[i] == Card(r, u);
        assert(x != y && x != z && y != z);
        if x >= 2 {
            assert(bv[x - 2] == r);
        } else {
            assert(hole[x].0 == r);
        }
        if y >= 2 {
            assert(bv[y - 2] == r);
        } else {
            assert(hole[y].0 == r);
        }
        if z >= 2 {
            assert(bv[z - 2] == r);
        } else {
            assert(hole[z].0 == r);
        }
        assert(false);
    }
}

/// Where a board shows every rank once at most and a holding is no pair
/// of the rank, two more cards of the rank can be held on them.
pub proof fn lemma_pocket_free(board: Seq<Card>, hole: Seq<Card>, r: Value) -> (other: Seq<Card>)
    requires
        is_board(board),
        values_of(board).no_duplicates(),
        is_holding(hole, board),
        !(hole[0].0 == r && hole[1].0 == r),
    ensures
        is_holding(other, hole + board),
        other[0].0 == r,
        other[1].0 == r,
{
    let out = hole + board;
    let a = Suit::Spades;
    let b = Suit::Hearts;
    let c = Suit::Diamonds;
    let d = Suit::Clubs;
    lemma_two_of_rank_out(board, hole, r, a, b, c);
    lemma_two_of_rank_out(board, hole, r, a, b, d);
    lemma_two_of_rank_out(board, hole, r, a, c, d);
    lemma_two_of_rank_out(board, hole, r, b, c, d);
    let used = |s: Suit| out.contains(Card(r, s));
    let (x, y) = if !used(a) && !used(b) {
        (a, b)
    } else if !used(a) && !used(c) {
        (a, c)
    } else if !used(a) && !used(d) {
        (a, d)
    } else if !used(b) && !used(c) {
        (b, c)
    } else if !used(b) && !used(d) {
        (b, d)
    } else {
        (c, d)
    };
    assert(!used(x) && !used(y) && x != y);
    lemma_two_free_hold(out, Card(r, x), Card(r, y));
    seq![Card(r, x), Card(r, y)]
}

/// Two holdings on a board cannot both be a pair of a rank that the
/// board shows: the rank has four cards.
pub proof fn lemma_one_pocket_only(board: Seq<Card>, hole: Seq<Card>, other: Seq<Card>, r: Value)
    requires
        is_board(board),
        is_holding(hole, board),
        is_holding(other, hole + board),
        values_of(board).contains(r),
        hole[0].0 == r,
        hole[1].0 == r,
    ensures
        !(other[0].0 == r && other[1].0 == r),
{
    let bv = values_of(board);
    let k = choose|k: int| 0 <= k < bv.len() && bv[k] == r;
    let all = other + (hole + board);
    assert(all[0] == other[0] && all[1] == other[1] && all[2] == hole[0] && all[3] == hole[1]
        && all[4 + k] == board[k]);
    if other[0].0 == r && other[1].0 == r {
        let c0 = all[0];
        let c1 = all[1];
        let c2 = all[2];
        let c3 = all[3];
        let c4 = all[4 + k];
        assert(c0 != c1 && c0 != c2 && c0 != c3 && c0 != c4);
        assert(c1 != c2 && c1 != c3 && c1 != c4);
        assert(c2 != c3 && c2 != c4 && c3 != c4);
        assert(c0.0 == r && c1.0 == r && c2.0 == r && c3.0 == r && c4.0 == r);
        assert(c0.1 != c1.1 && c0.1 != c2.1 && c0.1 != c3.1 && c0.1 != c4.1);
        assert(c1.1 != c2.1 && c1.1 != c3.1 && c1.1 != c4.1);
        assert(c2.1 != c3.1 && c2.1 != c4.1 && c3.1 != c4.1);
        assert(false);
    }
}

/// A holding on the cards of another holding and a board can be held on
/// the board alone.
pub proof fn lemma_holding_on_board(other: Seq<Card>, hole: Seq<Card>, board: Seq<Card>)
    requires
        is_holding(other, hole + board),
    ensures
        is_holding(other, board),
{
    lemma_holding_on_less(other, hole, board);
}

/// On a dry board, at every street, the nuts is the pair of the board's
/// highest rank: the description names it, and it is just the holding that
/// nothing beats.
pub proof fn lemma_dry_board_nuts(board: Seq<Card>, hole: Seq<Card>)
    requires
        is_dry_board(board),
        is_holding(hole, board),
    ensures
        nuts_of(board) == FindNuts::PocketPair(top_rank(values_of(board))),
        nuts_of(board).admits(hole) <==> unbeaten(board, hole),
{
    let bv = values_of(board);
    let top = top_rank(bv);
    lemma_top_rank(bv);
    assert(nuts_of(board) == straight_nuts(board));
    let mine = best_of(hole + board);
    lemma_dry_best(board, hole);
    if hole[0].0 == top && hole[1].0 == top {
        lemma_dry_set(board, hole, top);
        assert forall|other: Seq<Card>| #[trigger] is_holding(other, hole + board) implies !best_of(
            hole + board,
        ).weaker_than(best_of(other + board)) by {
            lemma_holding_on_board(other, hole, board);
            lemma_dry_best(board, other);
            let theirs = best_of(other + board);
            lemma_order_trichotomy(mine, theirs);
            if theirs is Trips {
                let r = theirs->Trips_0[0];
                lemma_one_pocket_only(board, hole, other, top);
                let k = choose|k: int| 0 <= k < bv.len() && bv[k] == r;
                assert(bv[k].ordinal() <= top.ordinal());
                assert(r != top);
                lemma_first_rank_decides(theirs, mine);
            }
        }
    } else {
        let other = lemma_pocket_free(board, hole, top);
        lemma_holding_on_board(other, hole, board);
        lemma_dry_set(board, other, top);
        let theirs = best_of(other + board);
        if mine is Trips {
            let r = mine->Trips_0[0];
            let k = choose|k: int| 0 <= k < bv.len() && bv[k] == r;
            assert(bv[k].ordinal() <= top.ordinal());
            assert(r != top);
            lemma_first_rank_decides(mine, theirs);
        }
        assert(mine.weaker_than(theirs));
        assert(is_holding(other, hole + board) && best_of(hole + board).weaker_than(
            best_of(other + board),
        ));
    }
}

/// A board of different ranks, without three cards of one suit, that
/// leaves a straight within reach or shows one.
pub open spec fn is_straight_board(board: Seq<Card>) -> bool {
    &&& is_board(board)
    &&& values_of(board).no_duplicates()
    &&& flush_suit(board) is None
    &&& solves(board, true).len() > 0
}

/// The holding has a card of the rank of every place that the board
/// leaves free in the window that begins at `w`.
pub open spec fn covers(board: Seq<Card>, hole: Seq<Card>, w: int) -> bool {
    forall|o: int|
        w <= o <= w + 4 && !#[trigger] present(board, o) ==> has_rank(
            hole,
            Value::of_straight_ordinal(o),
        )
}

/// The value of the straight of the window that begins at `w`.
pub open spec fn straight_of(w: int) -> SortedHandValue {
    SortedHandValue::Straight(Value::of_straight_ordinal(w + 4))
}

/// On a board of different ranks without three cards of one suit, no
/// holding makes more than the straight of the highest window within
/// reach, and a holding that makes it covers what the board leaves free in
/// that window.
pub proof fn lemma_straight_board_bound(board: Seq<Card>, hole: Seq<Card>, w: int)
    requires
        is_board(board),
        values_of(board).no_duplicates(),
        flush_suit(board) is None,
        is_holding(hole, board),
        0 <= w <= 9,
        forall|v: int| w < v <= 9 ==> (#[trigger] missing(board, v)).len() > 2,
    ensures
        best_of(hole + board).at_most(straight_of(w)),
        best_of(hole + board) == straight_of(w) ==> covers(board, hole, w),
{
    let cards = hole + board;
    lemma_best_exists(cards);
    let v = best_of(cards);
    let (a, b, c, d, e) = choose|a: int, b: int, c: int, d: int, e: int|
        rising(a, b, c, d, e, cards.len() as int) && v == rank_of(
            #[trigger] five_of(cards, a, b, c, d, e),
        );
    let ho = part_hole(cards, a, b);
    let fl = part_flop(cards, c, d, e);
    lemma_choice_split(hole, board, a, b, c, d, e);
    lemma_part_inherits(fl, board);
    assert forall|u: int| w < u <= 9 implies (#[trigger] missing(fl, u)).len() > 2 by {
        lemma_part_missing(fl, board, u);
        assert(missing(board, u).len() > 2);
    }
    lemma_straight_flop_bound(fl, ho, w);
    if v == straight_of(w) {
        let hand = ho + fl;
        assert(fills(hand, w));
        assert forall|o: int| w <= o <= w + 4 && !#[trigger] present(board, o) implies has_rank(
            hole,
            Value::of_straight_ordinal(o),
        ) by {
            assert(slot(hand[0], w) == o || slot(hand[1], w) == o || slot(hand[2], w) == o
                || slot(hand[3], w) == o || slot(hand[4], w) == o) by {
                lemma_five_slots(hand, w, o);
            }
            let k = if slot(hand[0], w) == o {
                0int
            } else if slot(hand[1], w) == o {
                1int
            } else if slot(hand[2], w) == o {
                2int
            } else if slot(hand[3], w) == o {
                3int
            } else {
                4int
            };
            lemma_slot_holds(hand[k], w, o);
            lemma_slot_of_rank(hand[k], w, o);
            assert(!board.contains(hand[k])) by {
                if board.contains(hand[k]) {
                    let z = choose|z: int| 0 <= z < board.len() && board[z] == hand[k];
                    assert(holds_ordinal(board[z], o));
                }
            }
            assert(k < 2) by {
                if k >= 2 {
                    assert(hand[k] == fl[k - 2]);
                    let (i, j, l) = choose|i: int, j: int, l: int|
                        0 <= i < j < l < board.len() && fl[0] == #[trigger] board[i] && fl[1]
                            == #[trigger] board[j] && fl[2] == #[trigger] board[l];
                    assert(board.contains(fl[0]) && board.contains(fl[1]) && board.contains(
                        fl[2],
                    ));
                }
            }
            assert(hand[k] == ho[k]);
            if k == 0 {
                assert(a < 2);
            } else {
                assert(b < 2);
            }
        }
    }
}

/// Five cards that fill a window stand at each of its places.
pub proof fn lemma_five_slots(hand: Seq<Card>, w: int, o: int)
    requires
        fills(hand, w),
        w <= o <= w + 4,
    ensures
        slot(hand[0], w) == o || slot(hand[1], w) == o || slot(hand[2], w) == o || slot(hand[3], w)
            == o || slot(hand[4], w) == o,
{
    let s = |i: int| slot(hand[i], w);
    assert(w <= s(0) <= w + 4 && w <= s(1) <= w + 4 && w <= s(2) <= w + 4 && w <= s(3) <= w + 4
        && w <= s(4) <= w + 4);
    assert(s(0) != s(1) && s(0) != s(2) && s(0) != s(3) && s(0) != s(4));
    assert(s(1) != s(2) && s(1) != s(3) && s(1) != s(4));
    assert(s(2) != s(3) && s(2) != s(4) && s(3) != s(4));
}

/// The order of places from left to right, as a relation for sorting.
pub open spec fn place_leq() -> spec_fn(int, int) -> bool {
    |x: int, y: int| x <= y
}

/// A card of the cards stands at the place `o` of the window that begins
/// at `w`.
pub open spec fn stands_at(cards: Seq<Card>, w: int, o: int) -> bool {
    exists|i: int| 0 <= i < cards.len() && #[trigger] slot(cards[i], w) == o
}

/// Where a card of the cards stands at each place of a window, five of
/// the cards, taken from left to right, fill the window.
pub proof fn lemma_pick_window(cards: Seq<Card>, w: int) -> (r: (int, int, int, int, int))
    requires
        0 <= w <= 9,
        stands_at(cards, w, w),
        stands_at(cards, w, w + 1),
        stands_at(cards, w, w + 2),
        stands_at(cards, w, w + 3),
        stands_at(cards, w, w + 4),
    ensures
        rising(r.0, r.1, r.2, r.3, r.4, cards.len() as int),
        fills(five_of(cards, r.0, r.1, r.2, r.3, r.4), w),
{
    let at = |o: int| choose|i: int| 0 <= i < cards.len() && #[trigger] slot(cards[i], w) == o;
    let p = seq![at(w), at(w + 1), at(w + 2), at(w + 3), at(w + 4)];
    assert(0 <= p[0] < cards.len() && slot(cards[p[0]], w) == w);
    assert(0 <= p[1] < cards.len() && slot(cards[p[1]], w) == w + 1);
    assert(0 <= p[2] < cards.len() && slot(cards[p[2]], w) == w + 2);
    assert(0 <= p[3] < cards.len() && slot(cards[p[3]], w) == w + 3);
    assert(0 <= p[4] < cards.len() && slot(cards[p[4]], w) == w + 4);
    assert(p.no_duplicates());
    let leq = place_leq();
    assert(vstd::relations::total_ordering(leq)) by {
        assert forall|x: int, y: int| #[trigger] leq(x, y) && #[trigger] leq(y, x) implies x
            == y by {}
    }
    let q = p.sort_by(leq);
    p.lemma_sort_by_ensures(leq);
    to_multiset_len(p);
    to_multiset_len(q);
    assert(q.len() == 5);
    assert forall|i: int| 0 <= i < 5 implies p.contains(#[trigger] q[i]) by {
        to_multiset_contains(q, q[i]);
        to_multiset_contains(p, q[i]);
        assert(q.contains(q[i]));
    }
    p.lemma_multiset_has_no_duplicates();
    q.lemma_multiset_has_no_duplicates_conv();
    assert forall|i: int, j: int| 0 <= i < j < 5 implies q[i] < q[j] by {
        assert(leq(q[i], q[j]));
        assert(q[i] != q[j]);
    }
    let hand = five_of(cards, q[0], q[1], q[2], q[3], q[4]);
    assert forall|i: int| 0 <= i < 5 implies w <= slot(#[trigger] hand[i], w) <= w + 4 by {
        assert(hand[i] == cards[q[i]]);
        let k = choose|k: int| 0 <= k < p.len() && p[k] == q[i];
        assert(slot(cards[p[k]], w) == w + k);
    }
    assert forall|i: int, j: int| 0 <= i < j < 5 implies slot(#[trigger] hand[i], w) != slot(
        #[trigger] hand[j],
        w,
    ) by {
        assert(hand[i] == cards[q[i]] && hand[j] == cards[q[j]]);
        let k = choose|k: int| 0 <= k < p.len() && p[k] == q[i];
        let l = choose|l: int| 0 <= l < p.len() && p[l] == q[j];
        assert(slot(cards[p[k]], w) == w + k);
        assert(slot(cards[p[l]], w) == w + l);
        assert(k != l);
    }
    assert(0 <= q[0] && q[4] < cards.len()) by {
        let k = choose|k: int| 0 <= k < p.len() && p[k] == q[0];
        let l = choose|l: int| 0 <= l < p.len() && p[l] == q[4];
    }
    (q[0], q[1], q[2], q[3], q[4])
}

/// On a board of different ranks without three cards of one suit, a
/// holding that covers what the board leaves free in a window makes the
/// straight of the window, or more.
pub proof fn lemma_straight_board_made(board: Seq<Card>, hole: Seq<Card>, w: int)
    requires
        is_board(board),
        values_of(board).no_duplicates(),
        flush_suit(board) is None,
        is_holding(hole, board),
        0 <= w <= 9,
        covers(board, hole, w),
    ensures
        straight_of(w).at_most(best_of(hole + board)),
{
    let cards = hole + board;
    assert forall|o: int| w <= o <= w + 4 implies #[trigger] stands_at(cards, w, o) by {
        if present(board, o) {
            let k = choose|k: int| 0 <= k < board.len() && holds_ordinal(#[trigger] board[k], o);
            lemma_slot_holds(board[k], w, o);
            assert(cards[k + 2] == board[k]);
            assert(slot(cards[k + 2], w) == o);
        } else {
            assert(has_rank(hole, Value::of_straight_ordinal(o)));
            let x = if hole[0].0 == Value::of_straight_ordinal(o) {
                0int
            } else {
                1int
            };
            lemma_slot_of_rank(hole[x], w, o);
            assert(cards[x] == hole[x]);
            assert(slot(cards[x], w) == o);
        }
    }
    assert(stands_at(cards, w, w) && stands_at(cards, w, w + 1) && stands_at(cards, w, w + 2)
        && stands_at(cards, w, w + 3) && stands_at(cards, w, w + 4));
    let (a, b, c, d, e) = lemma_pick_window(cards, w);
    lemma_choice_split(hole, board, a, b, c, d, e);
    let ho = part_hole(cards, a, b);
    let fl = part_flop(cards, c, d, e);
    lemma_part_inherits(fl, board);
    lemma_window_value(fl, ho, w);
    lemma_best_exists(cards);
    assert(rank_of(five_of(cards, a, b, c, d, e)).at_most(best_of(cards)));
}

/// A window that misses one place has cards at its other four.
pub proof fn lemma_missing_one(cards: Seq<Card>, start: int)
    requires
        missing(cards, start).len() == 1,
    ensures
        start <= missing(cards, start)[0] <= start + 4,
        !present(cards, missing(cards, start)[0]),
        forall|o: int|
            start <= o <= start + 4 && o != missing(cards, start)[0] ==> present(cards, o),
{
    let f = free(cards);
    let e = Seq::<int>::empty();
    let s1 = e.push(start);
    let s2 = s1.push(start + 1);
    let s3 = s2.push(start + 2);
    let s4 = s3.push(start + 3);
    let s5 = s4.push(start + 4);
    assert(s5 =~= window(start));
    e.lemma_filter_len(f);
    assert(e.filter(f) =~= e);
    e.lemma_filter_push(start, f);
    s1.lemma_filter_push(start + 1, f);
    s2.lemma_filter_push(start + 2, f);
    s3.lemma_filter_push(start + 3, f);
    s4.lemma_filter_push(start + 4, f);
    assert(f(start) == !present(cards, start));
    assert(f(start + 1) == !present(cards, start + 1));
    assert(f(start + 2) == !present(cards, start + 2));
    assert(f(start + 3) == !present(cards, start + 3));
    assert(f(start + 4) == !present(cards, start + 4));
    let g0 = gap(cards, start);
    let g1 = gap(cards, start + 1);
    let g2 = gap(cards, start + 2);
    let g3 = gap(cards, start + 3);
    let g4 = gap(cards, start + 4);
    assert(s1.filter(f).len() == g0);
    assert(s2.filter(f).len() == g0 + g1);
    assert(s3.filter(f).len() == g0 + g1 + g2);
    assert(s4.filter(f).len() == g0 + g1 + g2 + g3);
    assert(s5.filter(f).len() == g0 + g1 + g2 + g3 + g4);
}

/// What the description of the nuts is on a board that leaves a straight
/// within reach and nothing better: it admits the holdings that cover
/// what the board leaves free in the highest window within reach.
pub proof fn lemma_straight_board_table(board: Seq<Card>, hole: Seq<Card>) -> (w: int)
    requires
        is_straight_board(board),
        hole.len() == 2,
    ensures
        0 <= w <= 9,
        missing(board, w).len() <= 2,
        forall|v: int| w < v <= 9 ==> (#[trigger] missing(board, v)).len() > 2,
        nuts_of(board).admits(hole) <==> covers(board, hole, w),
{
    lemma_scan_first(board, 9);
    lemma_top_window(board, 9);
    let w = top_window(board, 9);
    assert(w >= 0);
    let m = missing(board, w);
    let ws = values_of(hole);
    assert(ws[0] == hole[0].0 && ws[1] == hole[1].0);
    assert(solves(board, true)[0] == solve_of(m));
    assert(nuts_of(board) == straight_nuts(board));
    lemma_missing_count(board, w);
    if m.len() == 0 {
        assert(nuts_of(board) == FindNuts::AnyTwo);
        assert(covers(board, hole, w));
    } else if m.len() == 1 {
        lemma_missing_one(board, w);
        let v = Value::of_straight_ordinal(m[0]);
        assert(nuts_of(board) == FindNuts::OneValue(v));
        if ws.contains(v) {
            let i = choose|i: int| 0 <= i < ws.len() && ws[i] == v;
        }
        if covers(board, hole, w) {
            assert(!present(board, m[0]));
        }
    } else {
        lemma_missing_two(board, w);
        let a = Value::of_straight_ordinal(m[1]);
        let b = Value::of_straight_ordinal(m[0]);
        assert(nuts_of(board) == FindNuts::TwoValues([a, b]));
        lemma_holds_both(hole, a, b);
        if covers(board, hole, w) {
            assert(!present(board, m[0]));
            assert(!present(board, m[1]));
        }
    }
    w
}

/// One of the first cards of a fresh deck, one more than the cards are,
/// is not among the cards.
proof fn lemma_free_among(out: Seq<Card>, n: int) -> (k: int)
    requires
        out.len() <= n < 52,
    ensures
        0 <= k <= n,
        !out.contains(fresh_deck()[k]),
    decreases n,
{
    lemma_fresh_deck_distinct();
    let deck = fresh_deck();
    if !out.contains(deck[n]) {
        n
    } else {
        let i = choose|i: int| 0 <= i < out.len() && out[i] == deck[n];
        let rest = out.remove(i);
        assert(n >= 1);
        let k = lemma_free_among(rest, n - 1);
        assert(deck[k] != deck[n]);
        if out.contains(deck[k]) {
            let j = choose|j: int| 0 <= j < out.len() && out[j] == deck[k];
            assert(j != i);
            if j < i {
                assert(rest[j] == out[j]);
            } else {
                assert(rest[j - 1] == out[j]);
            }
            assert(rest.contains(deck[k]));
        }
        k
    }
}

/// Some card is not among eight cards or fewer.
pub proof fn lemma_any_free(out: Seq<Card>) -> (c: Card)
    requires
        out.len() <= 8,
    ensures
        !out.contains(c),
{
    let k = lemma_free_among(out, 8);
    fresh_deck()[k]
}

/// A card of a rank that the board does not show can be found outside a
/// holding and the board.
pub proof fn lemma_rank_free(board: Seq<Card>, hole: Seq<Card>, r: Value) -> (c: Card)
    requires
        is_holding(hole, board),
        !values_of(board).contains(r),
    ensures
        !(hole + board).contains(c),
        c.0 == r,
{
    let out = hole + board;
    let bv = values_of(board);
    let used = |s: Suit| hole[0] == Card(r, s) || hole[1] == Card(r, s);
    assert(out[0] == hole[0] && out[1] == hole[1]);
    assert(hole[0] != hole[1]);
    let s = if !used(Suit::Spades) {
        Suit::Spades
    } else if !used(Suit::Hearts) {
        Suit::Hearts
    } else {
        Suit::Diamonds
    };
    assert(!used(s));
    let c = Card(r, s);
    if out.contains(c) {
        let i = choose|i: int| 0 <= i < out.len() && out[i] == c;
        if i >= 2 {
            assert(board[i - 2] == c);
            assert(bv[i - 2] == r);
        }
    }
    c
}

/// A rank at a place that the board leaves free is not on the board.
pub proof fn lemma_free_place_rank(board: Seq<Card>, w: int, o: int)
    requires
        0 <= w <= 9,
        w <= o <= w + 4,
        !present(board, o),
    ensures
        !values_of(board).contains(Value::of_straight_ordinal(o)),
{
    let bv = values_of(board);
    let r = Value::of_straight_ordinal(o);
    if bv.contains(r) {
        let i = choose|i: int| 0 <= i < bv.len() && bv[i] == r;
        lemma_slot_of_rank(board[i], w, o);
        lemma_slot_holds(board[i], w, o);
        assert(holds_ordinal(board[i], o));
    }
}

/// Where the highest window within reach misses one place or two on the
/// board, a holding that covers them can be held on the cards of any
/// holding and the board.
pub proof fn lemma_covering_holding(board: Seq<Card>, hole: Seq<Card>, w: int) -> (other: Seq<
    Card,
>)
    requires
        is_board(board),
        is_holding(hole, board),
        0 <= w <= 9,
        1 <= missing(board, w).len() <= 2,
    ensures
        is_holding(other, hole + board),
        covers(board, other, w),
{
    let out = hole + board;
    let m = missing(board, w);
    if m.len() == 1 {
        lemma_missing_one(board, w);
        let r = Value::of_straight_ordinal(m[0]);
        lemma_free_place_rank(board, w, m[0]);
        let c0 = lemma_rank_free(board, hole, r);
        let c1 = lemma_any_free(out.push(c0));
        assert(!out.contains(c1)) by {
            if out.contains(c1) {
                let i = choose|i: int| 0 <= i < out.len() && out[i] == c1;
                assert(out.push(c0)[i] == c1);
            }
        }
        assert(c0 != c1) by {
            assert(out.push(c0)[out.len() as int] == c0);
        }
        lemma_two_free_hold(out, c0, c1);
        let other = seq![c0, c1];
        assert(other[0] == c0);
        other
    } else {
        lemma_missing_two(board, w);
        let a = Value::of_straight_ordinal(m[1]);
        let b = Value::of_straight_ordinal(m[0]);
        lemma_free_place_rank(board, w, m[0]);
        lemma_free_place_rank(board, w, m[1]);
        let c0 = lemma_rank_free(board, hole, a);
        let c1 = lemma_rank_free(board, hole, b);
        assert(a != b);
        lemma_two_free_hold(out, c0, c1);
        let other = seq![c0, c1];
        assert(other[0] == c0 && other[1] == c1);
        other
    }
}

/// On a board of different ranks without three cards of one suit that
/// leaves a straight within reach, at every street, the description of the
/// nuts names just the holdings that nothing beats: those that make the
/// highest straight within reach.
pub proof fn lemma_straight_board_nuts(board: Seq<Card>, hole: Seq<Card>)
    requires
        is_straight_board(board),
        is_holding(hole, board),
    ensures
        nuts_of(board).admits(hole) <==> unbeaten(board, hole),
{
    let w = lemma_straight_board_table(board, hole);
    let mine = best_of(hole + board);
    lemma_straight_board_bound(board, hole, w);
    if covers(board, hole, w) {
        lemma_straight_board_made(board, hole, w);
        lemma_order_trichotomy(mine, straight_of(w));
        assert(mine == straight_of(w));
        assert forall|other: Seq<Card>| #[trigger] is_holding(other, hole + board) implies !best_of(
            hole + board,
        ).weaker_than(best_of(other + board)) by {
            lemma_holding_on_board(other, hole, board);
            lemma_straight_board_bound(board, other, w);
            lemma_order_trichotomy(mine, best_of(other + board));
        }
    } else {
        lemma_missing_count(board, w);
        assert(missing(board, w).len() >= 1) by {
            if missing(board, w).len() == 0 {
                assert(covers(board, hole, w));
            }
        }
        let other = lemma_covering_holding(board, hole, w);
        lemma_holding_on_board(other, hole, board);
        lemma_straight_board_bound(board, other, w);
        lemma_straight_board_made(board, other, w);
        let theirs = best_of(other + board);
        lemma_order_trichotomy(theirs, straight_of(w));
        assert(theirs == straight_of(w));
        assert(mine.weaker_than(theirs));
        assert(is_holding(other, hole + board) && best_of(hole + board).weaker_than(
            best_of(other + board),
        ));
    }
}

/// On every board of different ranks without three cards of one suit, at
/// every street, the description of the nuts names just the holdings that
/// nothing beats.
pub proof fn lemma_open_board_nuts(board: Seq<Card>, hole: Seq<Card>)
    requires
        is_board(board),
        values_of(board).no_duplicates(),
        flush_suit(board) is None,
        is_holding(hole, board),
    ensures
        nuts_of(board).admits(hole) <==> unbeaten(board, hole),
{
    if solves(board, true).len() == 0 {
        lemma_dry_board_nuts(board, hole);
    } else {
        lemma_straight_board_nuts(board, hole);
    }
}

/// The boards on which the description of the nuts is shown to name just
/// the holdings that nothing beats: every flop, and at the turn and the
/// river every board of different ranks without three cards of one suit.
pub open spec fn is_settled(board: Seq<Card>) -> bool {
    &&& is_board(board)
    &&& board.len() == 3 || (values_of(board).no_duplicates() && flush_suit(board) is None)
}

/// On every flop, and at the turn and the river on every board of
/// different ranks without three cards of one suit, the description of the
/// nuts names just the holdings that nothing beats: it admits a holding
/// exactly where no two cards that are neither on the board nor in the
/// holding make a stronger hand with the board than the holding does.
pub proof fn lemma_settled_board_nuts(board: Seq<Card>, hole: Seq<Card>)
    requires
        is_settled(board),
        is_holding(hole, board),
    ensures
        nuts_of(board).admits(hole) <==> unbeaten(board, hole),
{
    if board.len() == 3 {
        lemma_flop_nuts(board, hole);
    } else {
        lemma_open_board_nuts(board, hole);
    }
}

} // verus!
