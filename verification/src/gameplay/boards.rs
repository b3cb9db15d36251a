//! Holdings on boards of three to five cards: the best value among six or
//! seven cards, and the five-card choices seen as a holding on a flop.

use super::card::{Card, Suit, Value};
use super::cards::{count_suit, of_suit, suited, values_of};
use super::flops::{is_flop, lemma_best_of_five};
use super::hand::SortedHandValue;
use super::nuts::flush_suit;
use super::rank::rank_of;
use super::flops::{gap, lemma_missing_count};
use super::flops_straight::{lemma_scan_first, lemma_top_window, top_window};
use super::scan::{holds_ordinal, missing, present, solves};
use super::showdown::{best_of, five_of, is_best, lemma_best_unique, rising};
use super::strength::{lemma_order_transitive, lemma_order_trichotomy};
use super::unbeaten::is_holding;
use vstd::prelude::*;

verus! {

/// A board after the flop, the turn or the river: three to five cards, all
/// different.
pub open spec fn is_board(board: Seq<Card>) -> bool {
    3 <= board.len() <= 5 && board.no_duplicates()
}

/// Among some values there is one that none of them is stronger than.
pub proof fn lemma_strongest_exists(values: Seq<SortedHandValue>) -> (k: int)
    requires
        values.len() > 0,
    ensures
        0 <= k < values.len(),
        forall|i: int| 0 <= i < values.len() ==> (#[trigger] values[i]).at_most(values[k]),
    decreases values.len(),
{
    if values.len() == 1 {
        0
    } else {
        let rest = values.drop_last();
        let j = lemma_strongest_exists(rest);
        let last = values.last();
        lemma_order_trichotomy(rest[j], last);
        if rest[j].weaker_than(last) {
            assert forall|i: int| 0 <= i < values.len() implies (#[trigger] values[i]).at_most(
                last,
            ) by {
                if i < rest.len() {
                    assert(rest[i].at_most(rest[j]));
                    if rest[i] != rest[j] {
                        lemma_order_transitive(rest[i], rest[j], last);
                    }
                }
            }
            values.len() - 1
        } else {
            assert forall|i: int| 0 <= i < values.len() implies (#[trigger] values[i]).at_most(
                values[j],
            ) by {
                if i < rest.len() {
                    assert(rest[i].at_most(rest[j]));
                }
            }
            j
        }
    }
}

/// The values of the six choices of five out of six cards.
pub open spec fn values_of_six(c: Seq<Card>) -> Seq<SortedHandValue> {
    seq![
        rank_of(five_of(c, 1, 2, 3, 4, 5)),
        rank_of(five_of(c, 0, 2, 3, 4, 5)),
        rank_of(five_of(c, 0, 1, 3, 4, 5)),
        rank_of(five_of(c, 0, 1, 2, 4, 5)),
        rank_of(five_of(c, 0, 1, 2, 3, 5)),
        rank_of(five_of(c, 0, 1, 2, 3, 4)),
    ]
}

/// The values of the 21 choices of five out of seven cards.
pub open spec fn values_of_seven(c: Seq<Card>) -> Seq<SortedHandValue> {
    seq![
        rank_of(five_of(c, 2, 3, 4, 5, 6)),
        rank_of(five_of(c, 1, 3, 4, 5, 6)),
        rank_of(five_of(c, 1, 2, 4, 5, 6)),
        rank_of(five_of(c, 1, 2, 3, 5, 6)),
        rank_of(five_of(c, 1, 2, 3, 4, 6)),
        rank_of(five_of(c, 1, 2, 3, 4, 5)),
        rank_of(five_of(c, 0, 3, 4, 5, 6)),
        rank_of(five_of(c, 0, 2, 4, 5, 6)),
        rank_of(five_of(c, 0, 2, 3, 5, 6)),
        rank_of(five_of(c, 0, 2, 3, 4, 6)),
        rank_of(five_of(c, 0, 2, 3, 4, 5)),
        rank_of(five_of(c, 0, 1, 4, 5, 6)),
        rank_of(five_of(c, 0, 1, 3, 5, 6)),
        rank_of(five_of(c, 0, 1, 3, 4, 6)),
        rank_of(five_of(c, 0, 1, 3, 4, 5)),
        rank_of(five_of(c, 0, 1, 2, 5, 6)),
        rank_of(five_of(c, 0, 1, 2, 4, 6)),
        rank_of(five_of(c, 0, 1, 2, 4, 5)),
        rank_of(five_of(c, 0, 1, 2, 3, 6)),
        rank_of(five_of(c, 0, 1, 2, 3, 5)),
        rank_of(five_of(c, 0, 1, 2, 3, 4)),
    ]
}

/// Five to seven cards have a best value: the value of five of them, and
/// no five of them have a stronger one.
pub proof fn lemma_best_exists(cards: Seq<Card>)
    requires
        5 <= cards.len() <= 7,
    ensures
        is_best(cards, best_of(cards)),
{
    if cards.len() == 5 {
        lemma_best_of_five(cards);
        let v = rank_of(cards);
        assert(five_of(cards, 0, 1, 2, 3, 4) =~= cards);
        assert forall|a: int, b: int, c: int, d: int, e: int|
            rising(a, b, c, d, e, 5) implies rank_of(
            #[trigger] five_of(cards, a, b, c, d, e),
        ).at_most(v) by {
            assert(a == 0 && b == 1 && c == 2 && d == 3 && e == 4);
        }
        assert(rising(0, 1, 2, 3, 4, 5) && v == rank_of(five_of(cards, 0, 1, 2, 3, 4)));
    } else if cards.len() == 6 {
        let vs = values_of_six(cards);
        let k = lemma_strongest_exists(vs);
        let v = vs[k];
        assert forall|a: int, b: int, c: int, d: int, e: int|
            rising(a, b, c, d, e, 6) implies rank_of(
            #[trigger] five_of(cards, a, b, c, d, e),
        ).at_most(v) by {
            let skip = 15 - a - b - c - d - e;
            assert(0 <= skip <= 5);
            assert(vs[skip] == rank_of(five_of(cards, a, b, c, d, e)));
        }
        assert(exists|a: int, b: int, c: int, d: int, e: int|
            rising(a, b, c, d, e, 6) && v == rank_of(#[trigger] five_of(cards, a, b, c, d, e))) by {
            if k == 0 {
                assert(rising(1, 2, 3, 4, 5, 6) && v == rank_of(five_of(cards, 1, 2, 3, 4, 5)));
            } else if k == 1 {
                assert(rising(0, 2, 3, 4, 5, 6) && v == rank_of(five_of(cards, 0, 2, 3, 4, 5)));
            } else if k == 2 {
                assert(rising(0, 1, 3, 4, 5, 6) && v == rank_of(five_of(cards, 0, 1, 3, 4, 5)));
            } else if k == 3 {
                assert(rising(0, 1, 2, 4, 5, 6) && v == rank_of(five_of(cards, 0, 1, 2, 4, 5)));
            } else if k == 4 {
                assert(rising(0, 1, 2, 3, 5, 6) && v == rank_of(five_of(cards, 0, 1, 2, 3, 5)));
            } else {
                assert(rising(0, 1, 2, 3, 4, 6) && v == rank_of(five_of(cards, 0, 1, 2, 3, 4)));
            }
        }
        assert(is_best(cards, v));
    } else {
        lemma_best_of_seven(cards);
    }
}

/// Seven cards have a best value.
proof fn lemma_best_of_seven(cards: Seq<Card>)
    requires
        cards.len() == 7,
    ensures
        is_best(cards, best_of(cards)),
{
    let vs = values_of_seven(cards);
    let k = lemma_strongest_exists(vs);
    let v = vs[k];
    assert forall|a: int, b: int, c: int, d: int, e: int| rising(a, b, c, d, e, 7) implies rank_of(
        #[trigger] five_of(cards, a, b, c, d, e),
    ).at_most(v) by {
        lemma_seven_covers(cards, a, b, c, d, e);
    }
    lemma_seven_reaches(cards, k);
    assert(is_best(cards, v));
}

/// Each choice of five out of seven cards is one of the 21.
proof fn lemma_seven_covers(cards: Seq<Card>, a: int, b: int, c: int, d: int, e: int)
    requires
        cards.len() == 7,
        rising(a, b, c, d, e, 7),
    ensures
        exists|i: int|
            0 <= i < 21 && #[trigger] values_of_seven(cards)[i] == rank_of(
                five_of(cards, a, b, c, d, e),
            ),
{
    let vs = values_of_seven(cards);
    let want = rank_of(five_of(cards, a, b, c, d, e));
    if a == 2 {
        assert(vs[0] == want);
    } else if a == 1 {
        if b == 3 {
            assert(vs[1] == want);
        } else if c == 4 {
            assert(vs[2] == want);
        } else if d == 5 {
            assert(vs[3] == want);
        } else if e == 6 {
            assert(vs[4] == want);
        } else {
            assert(vs[5] == want);
        }
    } else if b == 3 {
        assert(vs[6] == want);
    } else if b == 2 {
        if c == 4 {
            assert(vs[7] == want);
        } else if d == 5 {
            assert(vs[8] == want);
        } else if e == 6 {
            assert(vs[9] == want);
        } else {
            assert(vs[10] == want);
        }
    } else if c == 4 {
        assert(vs[11] == want);
    } else if c == 3 {
        if d == 5 {
            assert(vs[12] == want);
        } else if e == 6 {
            assert(vs[13] == want);
        } else {
            assert(vs[14] == want);
        }
    } else if d == 5 {
        assert(vs[15] == want);
    } else if d == 4 {
        if e == 6 {
            assert(vs[16] == want);
        } else {
            assert(vs[17] == want);
        }
    } else if e == 6 {
        assert(vs[18] == want);
    } else if e == 5 {
        assert(vs[19] == want);
    } else {
        assert(vs[20] == want);
    }
}

/// Each of the 21 values is the value of a choice of five out of the
/// seven cards.
proof fn lemma_seven_reaches(cards: Seq<Card>, k: int)
    requires
        cards.len() == 7,
        0 <= k < 21,
    ensures
        exists|a: int, b: int, c: int, d: int, e: int|
            rising(a, b, c, d, e, 7) && values_of_seven(cards)[k] == rank_of(
                #[trigger] five_of(cards, a, b, c, d, e),
            ),
{
    let vs = values_of_seven(cards);
    let v = vs[k];
    if k == 0 {
        assert(rising(2, 3, 4, 5, 6, 7) && v == rank_of(five_of(cards, 2, 3, 4, 5, 6)));
    } else if k == 1 {
        assert(rising(1, 3, 4, 5, 6, 7) && v == rank_of(five_of(cards, 1, 3, 4, 5, 6)));
    } else if k == 2 {
        assert(rising(1, 2, 4, 5, 6, 7) && v == rank_of(five_of(cards, 1, 2, 4, 5, 6)));
    } else if k == 3 {
        assert(rising(1, 2, 3, 5, 6, 7) && v == rank_of(five_of(cards, 1, 2, 3, 5, 6)));
    } else if k == 4 {
        assert(rising(1, 2, 3, 4, 6, 7) && v == rank_of(five_of(cards, 1, 2, 3, 4, 6)));
    } else if k == 5 {
        assert(rising(1, 2, 3, 4, 5, 7) && v == rank_of(five_of(cards, 1, 2, 3, 4, 5)));
    } else if k == 6 {
        assert(rising(0, 3, 4, 5, 6, 7) && v == rank_of(five_of(cards, 0, 3, 4, 5, 6)));
    } else if k == 7 {
        assert(rising(0, 2, 4, 5, 6, 7) && v == rank_of(five_of(cards, 0, 2, 4, 5, 6)));
    } else if k == 8 {
        assert(rising(0, 2, 3, 5, 6, 7) && v == rank_of(five_of(cards, 0, 2, 3, 5, 6)));
    } else if k == 9 {
        assert(rising(0, 2, 3, 4, 6, 7) && v == rank_of(five_of(cards, 0, 2, 3, 4, 6)));
    } else if k == 10 {
        assert(rising(0, 2, 3, 4, 5, 7) && v == rank_of(five_of(cards, 0, 2, 3, 4, 5)));
    } else if k == 11 {
        assert(rising(0, 1, 4, 5, 6, 7) && v == rank_of(five_of(cards, 0, 1, 4, 5, 6)));
    } else if k == 12 {
        assert(rising(0, 1, 3, 5, 6, 7) && v == rank_of(five_of(cards, 0, 1, 3, 5, 6)));
    } else if k == 13 {
        assert(rising(0, 1, 3, 4, 6, 7) && v == rank_of(five_of(cards, 0, 1, 3, 4, 6)));
    } else if k == 14 {
        assert(rising(0, 1, 3, 4, 5, 7) && v == rank_of(five_of(cards, 0, 1, 3, 4, 5)));
    } else if k == 15 {
        assert(rising(0, 1, 2, 5, 6, 7) && v == rank_of(five_of(cards, 0, 1, 2, 5, 6)));
    } else if k == 16 {
        assert(rising(0, 1, 2, 4, 6, 7) && v == rank_of(five_of(cards, 0, 1, 2, 4, 6)));
    } else if k == 17 {
        assert(rising(0, 1, 2, 4, 5, 7) && v == rank_of(five_of(cards, 0, 1, 2, 4, 5)));
    } else if k == 18 {
        assert(rising(0, 1, 2, 3, 6, 7) && v == rank_of(five_of(cards, 0, 1, 2, 3, 6)));
    } else if k == 19 {
        assert(rising(0, 1, 2, 3, 5, 7) && v == rank_of(five_of(cards, 0, 1, 2, 3, 5)));
    } else {
        assert(rising(0, 1, 2, 3, 4, 7) && v == rank_of(five_of(cards, 0, 1, 2, 3, 4)));
    }
}

/// The first two cards of a choice of five, as a holding.
pub open spec fn part_hole(cards: Seq<Card>, a: int, b: int) -> Seq<Card> {
    seq![cards[a], cards[b]]
}

/// The last three cards of a choice of five, as a flop.
pub open spec fn part_flop(cards: Seq<Card>, c: int, d: int, e: int) -> Seq<Card> {
    seq![cards[c], cards[d], cards[e]]
}

/// The three cards are cards of the board, from three different places.
pub open spec fn is_part(flop: Seq<Card>, board: Seq<Card>) -> bool {
    &&& flop.len() == 3
    &&& exists|i: int, j: int, k: int|
        0 <= i < j < k < board.len() && flop[0] == #[trigger] board[i] && flop[1]
            == #[trigger] board[j] && flop[2] == #[trigger] board[k]
}

/// Five of the cards of a holding on a board, taken from left to right,
/// are a holding on a flop: two cards first, then three cards of the
/// board.
pub proof fn lemma_choice_split(
    hole: Seq<Card>,
    board: Seq<Card>,
    a: int,
    b: int,
    c: int,
    d: int,
    e: int,
)
    requires
        is_board(board),
        is_holding(hole, board),
        rising(a, b, c, d, e, (hole + board).len() as int),
    ensures
        ({
            let cards = hole + board;
            let ho = part_hole(cards, a, b);
            let fl = part_flop(cards, c, d, e);
            &&& five_of(cards, a, b, c, d, e) == ho + fl
            &&& is_flop(fl)
            &&& is_part(fl, board)
            &&& is_holding(ho, fl)
            &&& (a == 0 ==> ho[0] == hole[0])
            &&& (a == 1 ==> ho[0] == hole[1])
            &&& (a >= 2 ==> board.contains(ho[0]))
            &&& (b == 1 ==> ho[1] == hole[1])
            &&& (b >= 2 ==> board.contains(ho[1]))
        }),
{
    let cards = hole + board;
    let ho = part_hole(cards, a, b);
    let fl = part_flop(cards, c, d, e);
    assert(five_of(cards, a, b, c, d, e) =~= ho + fl);
    assert(cards[c] == board[c - 2] && cards[d] == board[d - 2] && cards[e] == board[e - 2]);
    assert(0 <= c - 2 < d - 2 < e - 2 < board.len());
    assert(fl[0] == board[c - 2] && fl[1] == board[d - 2] && fl[2] == board[e - 2]);
    assert(is_part(fl, board));
    let hand = ho + fl;
    assert forall|i: int, j: int| 0 <= i < hand.len() && 0 <= j < hand.len() && i != j implies hand[i]
        != hand[j] by {
        let x = if i == 0 {
            a
        } else if i == 1 {
            b
        } else if i == 2 {
            c
        } else if i == 3 {
            d
        } else {
            e
        };
        let y = if j == 0 {
            a
        } else if j == 1 {
            b
        } else if j == 2 {
            c
        } else if j == 3 {
            d
        } else {
            e
        };
        assert(hand[i] == cards[x] && hand[j] == cards[y]);
    }
    assert(fl.no_duplicates()) by {
        assert(hand[2] == fl[0] && hand[3] == fl[1] && hand[4] == fl[2]);
    }
    if a >= 2 {
        assert(cards[a] == board[a - 2]);
    }
    if b >= 2 {
        assert(cards[b] == board[b - 2]);
    }
}

/// Three cards of a board stand on the straight scale only where cards of
/// the board stand.
pub proof fn lemma_part_present(flop: Seq<Card>, board: Seq<Card>, o: int)
    requires
        is_part(flop, board),
    ensures
        present(flop, o) ==> present(board, o),
        gap(flop, o) >= gap(board, o),
{
    if present(flop, o) {
        let x = choose|x: int| 0 <= x < flop.len() && holds_ordinal(#[trigger] flop[x], o);
        let (i, j, k) = choose|i: int, j: int, k: int|
            0 <= i < j < k < board.len() && flop[0] == #[trigger] board[i] && flop[1]
                == #[trigger] board[j] && flop[2] == #[trigger] board[k];
        let y = if x == 0 {
            i
        } else if x == 1 {
            j
        } else {
            k
        };
        assert(holds_ordinal(board[y], o));
    }
}

/// A window misses on three cards of a board what it misses on the board,
/// and more.
pub proof fn lemma_part_missing(flop: Seq<Card>, board: Seq<Card>, w: int)
    requires
        is_part(flop, board),
    ensures
        missing(flop, w).len() >= missing(board, w).len(),
{
    lemma_missing_count(flop, w);
    lemma_missing_count(board, w);
    lemma_part_present(flop, board, w);
    lemma_part_present(flop, board, w + 1);
    lemma_part_present(flop, board, w + 2);
    lemma_part_present(flop, board, w + 3);
    lemma_part_present(flop, board, w + 4);
}

/// Three cards of one suit among different cards: the suit occurs three
/// times at least.
pub proof fn lemma_three_of_suit(cards: Seq<Card>, s: Suit, i: int, j: int, k: int)
    requires
        cards.no_duplicates(),
        0 <= i < j < k < cards.len(),
        cards[i].1 == s,
        cards[j].1 == s,
        cards[k].1 == s,
    ensures
        count_suit(cards, s) >= 3,
{
    let f = of_suit(s);
    let kept = suited(cards, s);
    cards.lemma_filter_contains(f, i);
    cards.lemma_filter_contains(f, j);
    cards.lemma_filter_contains(f, k);
    let x = choose|x: int| 0 <= x < kept.len() && kept[x] == cards[i];
    let y = choose|y: int| 0 <= y < kept.len() && kept[y] == cards[j];
    let z = choose|z: int| 0 <= z < kept.len() && kept[z] == cards[k];
    assert(x != y && x != z && y != z);
}

/// What three cards of a board inherit: no three cards of one suit, three
/// different ranks, no straight within reach, where the board has none.
pub proof fn lemma_part_inherits(flop: Seq<Card>, board: Seq<Card>)
    requires
        is_board(board),
        is_part(flop, board),
    ensures
        flush_suit(board) is None ==> flush_suit(flop) is None,
        values_of(board).no_duplicates() ==> values_of(flop).no_duplicates(),
        solves(board, true).len() == 0 ==> solves(flop, true).len() == 0,
{
    let (i, j, k) = choose|i: int, j: int, k: int|
        0 <= i < j < k < board.len() && flop[0] == #[trigger] board[i] && flop[1]
            == #[trigger] board[j] && flop[2] == #[trigger] board[k];
    if flush_suit(board) is None && flush_suit(flop) is Some {
        let s = flush_suit(flop)->0;
        super::flops::lemma_count_suit_of_three(flop, s);
        lemma_three_of_suit(board, s, i, j, k);
    }
    if values_of(board).no_duplicates() {
        let bv = values_of(board);
        let fv = values_of(flop);
        assert(fv[0] == bv[i] && fv[1] == bv[j] && fv[2] == bv[k]);
    }
    if solves(board, true).len() == 0 {
        lemma_scan_first(board, 9);
        lemma_top_window(board, 9);
        lemma_scan_first(flop, 9);
        lemma_top_window(flop, 9);
        let w = top_window(flop, 9);
        if w >= 0 {
            lemma_part_missing(flop, board, w);
            assert(missing(board, w).len() > 2);
        }
    }
}

} // verus!
