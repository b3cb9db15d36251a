//! The windows in which a flop leaves a straight within reach, and what
//! the scan lists for them.

use super::card::{Card, Value};
use super::flops::{gap, lemma_missing_count};
use super::flops_straight::{
    lemma_flop_gaps, lemma_missing_two, lemma_top_window, misses, top_window,
};
use super::flops_suited::sf_window;
use super::scan::{holds_ordinal, missing, present, scan, solve_of, solves, StraightSolve};
use vstd::prelude::*;

verus! {

/// What completes the window that begins at `w`.
pub open spec fn solve_at(cards: Seq<Card>, w: int) -> StraightSolve {
    solve_of(missing(cards, w))
}

/// The solves of the windows that miss two places at most, from the
/// window that begins at `from` down.
pub open spec fn below(cards: Seq<Card>, from: int) -> Seq<StraightSolve>
    decreases from + 1,
{
    if from < 0 {
        Seq::empty()
    } else if missing(cards, from).len() <= 2 {
        seq![solve_at(cards, from)] + below(cards, from - 1)
    } else {
        below(cards, from - 1)
    }
}

/// The places of a flop on the straight scale: a card stands at a place
/// exactly where one of the three cards has the place, an Ace also at 0.
pub proof fn lemma_flop_places(flop: Seq<Card>)
    requires
        flop.len() == 3,
    ensures
        forall|o: int|
            present(flop, o) <==> (flop[0].0.straight_ordinal() == o || flop[1].0.straight_ordinal()
                == o || flop[2].0.straight_ordinal() == o || (o == 0 && (flop[0].0 == Value::Ace
                || flop[1].0 == Value::Ace || flop[2].0 == Value::Ace))),
{
    assert forall|o: int|
        present(flop, o) <==> (flop[0].0.straight_ordinal() == o || flop[1].0.straight_ordinal()
            == o || flop[2].0.straight_ordinal() == o || (o == 0 && (flop[0].0 == Value::Ace
            || flop[1].0 == Value::Ace || flop[2].0 == Value::Ace))) by {
        if present(flop, o) {
            let i = choose|i: int| 0 <= i < flop.len() && holds_ordinal(#[trigger] flop[i], o);
            assert(i == 0 || i == 1 || i == 2);
        }
        assert(holds_ordinal(flop[0], o) ==> present(flop, o));
        assert(holds_ordinal(flop[1], o) ==> present(flop, o));
        assert(holds_ordinal(flop[2], o) ==> present(flop, o));
    }
}

/// The gaps of each of the ten windows of a flop.
pub proof fn lemma_flop_window_gaps(flop: Seq<Card>)
    requires
        flop.len() == 3,
    ensures
        forall|w: int|
            0 <= w <= 9 ==> (#[trigger] missing(flop, w)).len() == gap(flop, w) + gap(flop, w + 1)
                + gap(flop, w + 2) + gap(flop, w + 3) + gap(flop, w + 4),
        forall|w: int|
            0 <= w <= 9 && (#[trigger] missing(flop, w)).len() == 2 ==> misses(
                flop,
                w,
                missing(flop, w)[0],
                missing(flop, w)[1],
            ),
        forall|w: int| 0 <= w <= 9 ==> (#[trigger] missing(flop, w)).len() >= 2,
{
    assert forall|w: int| 0 <= w <= 9 implies (#[trigger] missing(flop, w)).len() == gap(flop, w)
        + gap(flop, w + 1) + gap(flop, w + 2) + gap(flop, w + 3) + gap(flop, w + 4) by {
        lemma_missing_count(flop, w);
    }
    assert forall|w: int| 0 <= w <= 9 && (#[trigger] missing(flop, w)).len() == 2 implies misses(
        flop,
        w,
        missing(flop, w)[0],
        missing(flop, w)[1],
    ) by {
        lemma_missing_two(flop, w);
    }
    assert forall|w: int| 0 <= w <= 9 implies (#[trigger] missing(flop, w)).len() >= 2 by {
        lemma_flop_gaps(flop, w);
    }
}

/// What the lemmas on windows ask of a flop: three cards of three
/// different ranks.
pub open spec fn is_ranked_flop(flop: Seq<Card>) -> bool {
    &&& flop.len() == 3
    &&& flop[0].0 != flop[1].0
    &&& flop[0].0 != flop[2].0
    &&& flop[1].0 != flop[2].0
}

/// The two places that a window misses, where it misses two: the lower
/// and the higher.
pub open spec fn low_gap(cards: Seq<Card>, w: int) -> int {
    missing(cards, w)[0]
}

pub open spec fn high_gap(cards: Seq<Card>, w: int) -> int {
    missing(cards, w)[1]
}

/// Two windows in which a flop leaves a straight within reach lie side by
/// side or one window apart, and stand as windows that share places must:
/// of two neighbours the higher misses its highest place and the lower its
/// lowest, and they miss one place in common.
pub proof fn lemma_neighbour_windows(flop: Seq<Card>, u: int, w: int)
    requires
        is_ranked_flop(flop),
        sf_window(flop, u),
        sf_window(flop, w),
        w < u,
    ensures
        u - w <= 2,
        high_gap(flop, u) == u + 4,
        low_gap(flop, w) == w,
        u - w == 1 ==> low_gap(flop, u) == high_gap(flop, w),
        u - w == 2 ==> low_gap(flop, u) == u + 3 && high_gap(flop, w) == w + 1 && sf_window(
            flop,
            w + 1,
        ),
        sf_window(flop, u - 1),
{
    lemma_flop_places(flop);
    lemma_flop_window_gaps(flop);
    lemma_missing_two(flop, u);
    lemma_missing_two(flop, w);
    let a = flop[0].0.straight_ordinal();
    let b = flop[1].0.straight_ordinal();
    let c = flop[2].0.straight_ordinal();
    assert(a != b && a != c && b != c);
    assert(1 <= a <= 13 && 1 <= b <= 13 && 1 <= c <= 13);
    assert(missing(flop, u - 1).len() == gap(flop, u - 1) + gap(flop, u) + gap(flop, u + 1) + gap(
        flop,
        u + 2,
    ) + gap(flop, u + 3));
}

/// Two different windows in which a flop leaves a straight within reach
/// have different solves.
pub proof fn lemma_solves_differ(flop: Seq<Card>, u: int, w: int)
    requires
        is_ranked_flop(flop),
        sf_window(flop, u),
        sf_window(flop, w),
        u != w,
    ensures
        solve_at(flop, u) != solve_at(flop, w),
{
    let (x, y) = if w < u {
        (u, w)
    } else {
        (w, u)
    };
    lemma_neighbour_windows(flop, x, y);
    lemma_missing_two(flop, x);
    lemma_missing_two(flop, y);
    let a = solve_at(flop, x)->Two_0;
    let b = solve_at(flop, y)->Two_0;
    assert(a[0] == Value::of_straight_ordinal(x + 4));
    assert(b[0] == Value::of_straight_ordinal(high_gap(flop, y)));
    assert(a[0] != b[0]);
}

/// The full scan of a flop lists the solves of the windows within reach,
/// from the highest down, behind what was found in higher windows.
pub proof fn lemma_scan_all(flop: Seq<Card>, from: int, found: Seq<StraightSolve>)
    requires
        is_ranked_flop(flop),
        from <= 9,
        forall|i: int|
            0 <= i < found.len() ==> exists|u: int|
                from < u <= 9 && sf_window(flop, u) && #[trigger] found[i] == #[trigger] solve_at(
                    flop,
                    u,
                ),
    ensures
        scan(flop, from, false, found) == found + below(flop, from),
    decreases from + 1,
{
    if from < 0 {
        assert(found + Seq::<StraightSolve>::empty() =~= found);
    } else {
        let m = missing(flop, from);
        lemma_flop_gaps(flop, from);
        if m.len() > 2 {
            lemma_scan_all(flop, from - 1, found);
        } else {
            let s = solve_at(flop, from);
            assert(sf_window(flop, from));
            assert(!found.contains(s)) by {
                if found.contains(s) {
                    let i = choose|i: int| 0 <= i < found.len() && found[i] == s;
                    let u = choose|u: int|
                        from < u <= 9 && sf_window(flop, u) && found[i] == #[trigger] solve_at(
                            flop,
                            u,
                        );
                    lemma_solves_differ(flop, u, from);
                }
            }
            let next = found.push(s);
            assert forall|i: int| 0 <= i < next.len() implies exists|u: int|
                from - 1 < u <= 9 && sf_window(flop, u) && #[trigger] next[i] == #[trigger] solve_at(
                    flop,
                    u,
                ) by {
                if i < found.len() {
                    let u = choose|u: int|
                        from < u <= 9 && sf_window(flop, u) && found[i] == #[trigger] solve_at(
                            flop,
                            u,
                        );
                    assert(from - 1 < u <= 9 && sf_window(flop, u) && next[i] == solve_at(flop, u));
                } else {
                    assert(next[i] == solve_at(flop, from));
                }
            }
            lemma_scan_all(flop, from - 1, next);
            assert(next + below(flop, from - 1) =~= found + below(flop, from));
        }
    }
}

/// No window below the given one is within reach: the list of solves
/// below it is empty.
pub proof fn lemma_below_empty(flop: Seq<Card>, from: int)
    requires
        from <= 9,
        forall|w: int| 0 <= w <= from ==> !sf_window(flop, w),
        flop.len() == 3,
    ensures
        below(flop, from) == Seq::<StraightSolve>::empty(),
    decreases from + 1,
{
    if from >= 0 {
        lemma_flop_gaps(flop, from);
        assert(!sf_window(flop, from));
        lemma_below_empty(flop, from - 1);
    }
}

/// The list of solves from a window down begins with the solve of the
/// highest window within reach.
pub proof fn lemma_below_skips(flop: Seq<Card>, from: int, w: int)
    requires
        from <= 9,
        0 <= w <= from,
        sf_window(flop, w),
        forall|v: int| w < v <= from ==> !sf_window(flop, v),
        flop.len() == 3,
    ensures
        below(flop, from) == seq![solve_at(flop, w)] + below(flop, w - 1),
    decreases from + 1,
{
    if from > w {
        lemma_flop_gaps(flop, from);
        assert(!sf_window(flop, from));
        lemma_below_skips(flop, from - 1, w);
    }
}

/// Below the lowest of the windows within reach that lie side by side
/// under the highest, no window is within reach.
proof fn lemma_none_lower(flop: Seq<Card>, top: int, n: int, w: int)
    requires
        is_ranked_flop(flop),
        1 <= n <= 3,
        sf_window(flop, top),
        n >= 2 ==> sf_window(flop, top - 1),
        n >= 3 ==> sf_window(flop, top - 2),
        n < 3 ==> !sf_window(flop, top - n),
        w <= top - n,
    ensures
        !sf_window(flop, w),
{
    if sf_window(flop, w) {
        lemma_neighbour_windows(flop, top, w);
        if n >= 2 && w < top - 1 {
            lemma_neighbour_windows(flop, top - 1, w);
        }
    }
}

/// The list of solves from the highest window within reach down, where
/// `n` windows within reach lie side by side and none lies lower.
proof fn lemma_below_run(flop: Seq<Card>, top: int, n: int)
    requires
        flop.len() == 3,
        0 <= n <= 3,
        top <= 9,
        n > 0 ==> top - n + 1 >= 0,
        forall|w: int| top - n < w <= top ==> #[trigger] sf_window(flop, w),
        forall|w: int| w <= top - n ==> !#[trigger] sf_window(flop, w),
    ensures
        below(flop, top).len() == n,
        forall|k: int| 0 <= k < n ==> #[trigger] below(flop, top)[k] == solve_at(flop, top - k),
    decreases n,
{
    if n == 0 {
        lemma_below_empty(flop, top);
    } else {
        assert(sf_window(flop, top));
        lemma_below_skips(flop, top, top);
        lemma_below_run(flop, top - 1, n - 1);
        let rest = below(flop, top - 1);
        assert forall|k: int| 0 <= k < n implies below(flop, top)[k] == solve_at(flop, top - k) by {
            if k > 0 {
                assert(below(flop, top)[k] == rest[k - 1]);
                assert(rest[k - 1] == solve_at(flop, top - 1 - (k - 1)));
            }
        }
    }
}

/// The windows in which a flop leaves a straight within reach: three at
/// most, side by side. The full scan lists their solves from the highest
/// down.
pub proof fn lemma_flop_windows(flop: Seq<Card>) -> (r: (int, int))
    requires
        is_ranked_flop(flop),
    ensures
        0 <= r.0 <= 3,
        r.0 > 0 ==> 0 <= r.1 - r.0 + 1 && r.1 <= 9,
        forall|w: int| #[trigger] sf_window(flop, w) <==> (r.1 - r.0 < w <= r.1 && r.0 > 0),
        solves(flop, false).len() == r.0,
        forall|k: int|
            0 <= k < r.0 ==> #[trigger] solves(flop, false)[k] == solve_at(flop, r.1 - k),
{
    lemma_top_window(flop, 9);
    lemma_scan_all(flop, 9, Seq::empty());
    let found = solves(flop, false);
    assert(found =~= below(flop, 9));
    let w0 = top_window(flop, 9);
    if w0 < 0 {
        assert forall|w: int| !sf_window(flop, w) by {
            if sf_window(flop, w) {
                assert(missing(flop, w).len() > 2);
            }
        }
        lemma_below_empty(flop, 9);
        (0, 0)
    } else {
        lemma_flop_gaps(flop, w0);
        assert(sf_window(flop, w0));
        assert forall|v: int| w0 < v <= 9 implies !sf_window(flop, v) by {
            assert(missing(flop, v).len() > 2);
        }
        lemma_below_skips(flop, 9, w0);
        let n: int = if w0 >= 1 && sf_window(flop, w0 - 1) {
            if w0 >= 2 && sf_window(flop, w0 - 2) {
                3
            } else {
                2
            }
        } else {
            1
        };
        assert forall|w: int| w <= w0 - n implies !#[trigger] sf_window(flop, w) by {
            lemma_none_lower(flop, w0, n, w);
        }
        assert forall|w: int| w0 - n < w <= w0 implies #[trigger] sf_window(flop, w) by {
            assert(w == w0 || w == w0 - 1 || w == w0 - 2);
        }
        lemma_below_run(flop, w0, n);
        assert(below(flop, 9) =~= below(flop, w0)) by {
            assert(below(flop, w0) =~= seq![solve_at(flop, w0)] + below(flop, w0 - 1)) by {
                lemma_below_skips(flop, w0, w0);
            }
        }
        assert forall|w: int| #[trigger] sf_window(flop, w) <==> (w0 - n < w <= w0) by {
            if w0 - n < w <= w0 {
                assert(w == w0 || w == w0 - 1 || w == w0 - 2);
            }
        }
        (n, w0)
    }
}

} // verus!
