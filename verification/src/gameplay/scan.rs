//! The rank-run scan: which ranks would complete a straight.

use super::card::{Card, Value, ACE_HIGH};
use indexmap::IndexSet;
use std::collections::hash_map::RandomState;
use vstd::prelude::*;

verus! {

/// `indexmap::IndexSet`: a hash set that keeps its items in the order of
/// their first insertion.
#[verifier::external_type_specification]
#[verifier::external_body]
#[verifier::reject_recursive_types(T)]
#[verifier::reject_recursive_types(S)]
pub struct ExIndexSet<T, S>(IndexSet<T, S>);

/// The items of an `IndexSet` of bytes, in the order in which it keeps
/// them.
pub uninterp spec fn held(set: IndexSet<u8, RandomState>) -> Seq<u8>;

/// `IndexSet::new`: a set that holds nothing.
#[verifier::external_body]
fn codes_new() -> (set: IndexSet<u8, RandomState>)
    ensures
        held(set) == Seq::<u8>::empty(),
{
    IndexSet::new()
}

/// `IndexSet::insert`: where the set holds the item already, nothing
/// changes and the answer is `false`; else the item is put behind all the
/// others and the answer is `true`.
#[verifier::external_body]
fn codes_insert(set: &mut IndexSet<u8, RandomState>, code: u8) -> (fresh: bool)
    ensures
        fresh == !held(*old(set)).contains(code),
        held(*final(set)) == if fresh {
            held(*old(set)).push(code)
        } else {
            held(*old(set))
        },
{
    set.insert(code)
}

/// `IndexSet::len`: how many items the set holds.
#[verifier::external_body]
fn codes_len(set: &IndexSet<u8, RandomState>) -> (n: usize)
    ensures
        n == held(*set).len(),
{
    set.len()
}

/// `IndexSet::get_index`: the item at a place in the order, or nothing
/// where the place is past the end.
#[verifier::external_body]
fn codes_get(set: &IndexSet<u8, RandomState>, index: usize) -> (r: Option<u8>)
    ensures
        r == if index < held(*set).len() {
            Some(held(*set)[index as int])
        } else {
            None
        },
{
    set.get_index(index).copied()
}

/// What a holding needs to complete the straight of one window of five
/// consecutive ranks: nothing, one rank, or two ranks (the higher place of
/// the window first).
#[derive(Debug, PartialEq, Eq, Clone, Copy, Hash)]
pub enum StraightSolve {
    Complete,
    One(Value),
    Two([Value; 2]),
}

impl StraightSolve {
    /// The number that stands for the solve in a set of bytes.
    pub open spec fn code(self) -> int {
        match self {
            StraightSolve::Complete => 0,
            StraightSolve::One(v) => 1 + v.ordinal(),
            StraightSolve::Two(a) => 14 + 13 * a[0].ordinal() + a[1].ordinal(),
        }
    }

    /// The solve that a number stands for.
    pub open spec fn of_code(c: int) -> StraightSolve {
        if c <= 0 {
            StraightSolve::Complete
        } else if c <= 13 {
            StraightSolve::One(Value::of_straight_ordinal(c))
        } else {
            StraightSolve::Two(
                [
                    Value::of_straight_ordinal((c - 14) / 13 + 1),
                    Value::of_straight_ordinal((c - 14) % 13 + 1),
                ],
            )
        }
    }

    /// The last rank that the solve names.
    pub open spec fn spec_last(&self) -> Option<Value> {
        match *self {
            StraightSolve::Complete => None,
            StraightSolve::One(v) => Some(v),
            StraightSolve::Two(a) => Some(a[1]),
        }
    }

    /// The last rank that the solve names.
    #[verifier::when_used_as_spec(spec_last)]
    pub fn last(&self) -> (r: Option<Value>)
        ensures
            r == self.spec_last(),
    {
        match self {
            StraightSolve::Complete => None,
            StraightSolve::One(value) => Some(*value),
            StraightSolve::Two(values) => Some(values[1]),
        }
    }

    fn encode(&self) -> (c: u8)
        ensures
            c == self.code(),
    {
        match self {
            StraightSolve::Complete => 0,
            StraightSolve::One(v) => 1 + v.as_u8(),
            StraightSolve::Two(a) => 14 + 13 * a[0].as_u8() + a[1].as_u8(),
        }
    }

    fn decode(c: u8) -> (r: StraightSolve)
        requires
            c <= 182,
        ensures
            r == StraightSolve::of_code(c as int),
    {
        if c == 0 {
            StraightSolve::Complete
        } else if c <= 13 {
            StraightSolve::One(Value::from_u8_straight(c))
        } else {
            StraightSolve::Two(
                [Value::from_u8_straight((c - 14) / 13 + 1), Value::from_u8_straight((c - 14) % 13 + 1)],
            )
        }
    }
}

/// The number of a solve tells which solve it is.
pub proof fn lemma_code_round_trip(s: StraightSolve)
    ensures
        StraightSolve::of_code(s.code()) == s,
        0 <= s.code() <= 182,
{
    match s {
        StraightSolve::Two(a) => {
            let c = s.code();
            let x = a[0].ordinal();
            let y = a[1].ordinal();
            assert((c - 14) / 13 == x && (c - 14) % 13 == y) by (nonlinear_arith)
                requires
                    c == 14 + 13 * x + y,
                    0 <= x <= 12,
                    0 <= y <= 12,
            ;
            let b = StraightSolve::of_code(c)->Two_0;
            assert(b =~= a);
        },
        _ => {},
    }
}

/// The card's rank stands at `o` on the straight scale; an Ace stands at
/// 13 and at 0.
pub open spec fn holds_ordinal(c: Card, o: int) -> bool {
    c.0.straight_ordinal() == o || (o == 0 && c.0 == Value::Ace)
}

/// Some card's rank stands at `o` on the straight scale.
pub open spec fn present(cards: Seq<Card>, o: int) -> bool {
    exists|i: int| 0 <= i < cards.len() && holds_ordinal(#[trigger] cards[i], o)
}

/// The test for a place of the straight scale at which no card stands.
pub open spec fn free(cards: Seq<Card>) -> spec_fn(int) -> bool {
    |o: int| !present(cards, o)
}

/// The five places of the window that begins at `start`.
pub open spec fn window(start: int) -> Seq<int> {
    seq![start, start + 1, start + 2, start + 3, start + 4]
}

/// The places of a window at which no card stands, lowest first.
pub open spec fn missing(cards: Seq<Card>, start: int) -> Seq<int> {
    window(start).filter(free(cards))
}

/// What completes a window of which `m` lists the missing places, at most
/// two.
pub open spec fn solve_of(m: Seq<int>) -> StraightSolve {
    if m.len() == 0 {
        StraightSolve::Complete
    } else if m.len() == 1 {
        StraightSolve::One(Value::of_straight_ordinal(m[0]))
    } else {
        StraightSolve::Two([Value::of_straight_ordinal(m[1]), Value::of_straight_ordinal(m[0])])
    }
}

/// The scan from the window that begins at `start` down to the one that
/// begins at 0, with `found` in hand. A window that misses more than two
/// places is passed over. One that misses nothing ends the scan, and so
/// does the first that counts when `only_first` is set. A solve that was
/// found before is not listed again.
pub open spec fn scan(
    cards: Seq<Card>,
    start: int,
    only_first: bool,
    found: Seq<StraightSolve>,
) -> Seq<StraightSolve>
    decreases start + 1,
{
    if start < 0 {
        found
    } else {
        let m = missing(cards, start);
        if m.len() > 2 {
            scan(cards, start - 1, only_first, found)
        } else {
            let next = if found.contains(solve_of(m)) {
                found
            } else {
                found.push(solve_of(m))
            };
            if m.len() == 0 || only_first {
                next
            } else {
                scan(cards, start - 1, only_first, next)
            }
        }
    }
}

/// The solves of all ten windows, from the one that ends at the Ace down
/// to the wheel.
pub open spec fn solves(cards: Seq<Card>, only_first: bool) -> Seq<StraightSolve> {
    scan(cards, 9, only_first, Seq::empty())
}

/// `o` is the highest place of the straight scale at which no card stands.
pub open spec fn is_top_free(cards: Seq<Card>, o: int) -> bool {
    &&& 0 <= o <= 13
    &&& !present(cards, o)
    &&& forall|p: int| o < p <= 13 ==> present(cards, p)
}

/// The highest place of the straight scale at which no card stands.
pub open spec fn top_free(cards: Seq<Card>) -> int {
    choose|o: int| is_top_free(cards, o)
}

/// Marks the places of the straight scale at which a card stands.
fn mark_present(cards: &[Card]) -> (p: [bool; 14])
    ensures
        forall|o: int| 0 <= o < 14 ==> p@[o] == present(cards@, o),
{
    let mut p = [false; 14];
    let mut i: usize = 0;
    while i < cards.len()
        invariant
            i <= cards@.len(),
            forall|o: int| 0 <= o < 14 ==> p@[o] == present(cards@.take(i as int), o),
        decreases cards@.len() - i,
    {
        let ghost before = cards@.take(i as int);
        let ghost after = cards@.take(i + 1);
        let ghost marks = p@;
        let at = cards[i].0.as_u8_straight();
        p[at as usize] = true;
        if at == ACE_HIGH {
            p[0] = true;
        }
        proof {
            let c = cards@[i as int];
            assert(after =~= before.push(c));
            assert forall|o: int| 0 <= o < 14 implies p@[o] == present(after, o) by {
                if present(before, o) {
                    let k = choose|k: int| 0 <= k < before.len() && holds_ordinal(before[k], o);
                    assert(holds_ordinal(after[k], o));
                }
                if holds_ordinal(c, o) {
                    assert(holds_ordinal(after[i as int], o));
                }
                if present(after, o) {
                    let k = choose|k: int| 0 <= k < after.len() && holds_ordinal(after[k], o);
                    if k < i {
                        assert(holds_ordinal(before[k], o));
                    }
                }
                assert(p@[o] == (marks[o] || holds_ordinal(c, o)));
            }
        }
        i += 1;
    }
    assert(cards@.take(cards@.len() as int) =~= cards@);
    p
}

/// Five cards leave one of the places 1 to 6 of the straight scale free.
pub proof fn lemma_some_place_free(cards: Seq<Card>)
    requires
        cards.len() <= 5,
    ensures
        exists|o: int| 1 <= o <= 6 && !present(cards, o),
{
    if present(cards, 1) && present(cards, 2) && present(cards, 3) && present(cards, 4) && present(
        cards,
        5,
    ) && present(cards, 6) {
        let w = |o: int| choose|i: int| 0 <= i < cards.len() && holds_ordinal(#[trigger] cards[i], o);
        assert(holds_ordinal(cards[w(1)], 1));
        assert(holds_ordinal(cards[w(2)], 2));
        assert(holds_ordinal(cards[w(3)], 3));
        assert(holds_ordinal(cards[w(4)], 4));
        assert(holds_ordinal(cards[w(5)], 5));
        assert(holds_ordinal(cards[w(6)], 6));
        assert(false);
    }
}

/// The highest free place is one place only.
pub proof fn lemma_top_free_unique(cards: Seq<Card>, a: int, b: int)
    requires
        is_top_free(cards, a),
        is_top_free(cards, b),
    ensures
        a == b,
{
}

/// The highest place of the straight scale that is not marked.
fn highest_free(p: &[bool; 14], Ghost(cards): Ghost<Seq<Card>>) -> (r: u8)
    requires
        forall|o: int| 0 <= o < 14 ==> p@[o] == present(cards, o),
        exists|o: int| 0 <= o <= 13 && !present(cards, o),
    ensures
        r == top_free(cards),
        is_top_free(cards, r as int),
{
    let mut o: u8 = 13;
    while p[o as usize]
        invariant
            o <= 13,
            forall|q: int| 0 <= q < 14 ==> p@[q] == present(cards, q),
            forall|q: int| o < q <= 13 ==> present(cards, q),
            exists|q: int| 0 <= q <= 13 && !present(cards, q),
        decreases o,
    {
        proof {
            if o == 0 {
                let q = choose|q: int| 0 <= q <= 13 && !present(cards, q);
                assert(false);
            }
        }
        o -= 1;
    }
    proof {
        assert(is_top_free(cards, o as int));
        lemma_top_free_unique(cards, o as int, top_free(cards));
    }
    o
}

/// The places of one window that are not marked: how many there are, and
/// the lowest two of them.
fn missing_in(p: &[bool; 14], start: u8, Ghost(cards): Ghost<Seq<Card>>) -> (r: (u8, u8, u8))
    requires
        start <= 9,
        forall|o: int| 0 <= o < 14 ==> p@[o] == present(cards, o),
    ensures
        r.0 == missing(cards, start as int).len(),
        r.0 >= 1 ==> r.1 == missing(cards, start as int)[0],
        r.0 >= 2 ==> r.2 == missing(cards, start as int)[1],
        r.0 <= 5,
        r.0 >= 1 ==> start <= r.1 <= start + 4,
        r.0 >= 2 ==> r.1 < r.2 <= start + 4,
{
    let ghost w = window(start as int);
    let ghost f = free(cards);
    let mut count: u8 = 0;
    let mut first: u8 = 0;
    let mut second: u8 = 0;
    let mut k: u8 = 0;
    proof {
        assert(w.take(0) =~= Seq::<int>::empty());
        Seq::<int>::empty().lemma_filter_len(f);
    }
    while k < 5
        invariant
            k <= 5,
            start <= 9,
            w == window(start as int),
            f == free(cards),
            forall|o: int| 0 <= o < 14 ==> p@[o] == present(cards, o),
            count == w.take(k as int).filter(f).len(),
            count <= k,
            count >= 1 ==> first == w.take(k as int).filter(f)[0] && start <= first < start + k,
            count >= 2 ==> second == w.take(k as int).filter(f)[1] && first < second < start + k,
        decreases 5 - k,
    {
        let o = start + k;
        proof {
            assert(w.take(k + 1) =~= w.take(k as int).push(w[k as int]));
            w.take(k as int).lemma_filter_push(w[k as int], f);
            assert(w[k as int] == o);
            assert(f(o as int) == !present(cards, o as int));
        }
        if !p[o as usize] {
            if count == 0 {
                first = o;
            } else if count == 1 {
                second = o;
            }
            count += 1;
        }
        k += 1;
    }
    assert(w.take(5) =~= w);
    (count, first, second)
}

impl StraightSolve {
    /// Two ranks of a solve are two different ranks.
    pub open spec fn wf(self) -> bool {
        match self {
            StraightSolve::Two(a) => a[0] != a[1],
            _ => true,
        }
    }
}

/// The set of codes holds the code of a solve exactly where the solves
/// that it stands for hold the solve.
proof fn lemma_codes_contain(codes: Seq<u8>, found: Seq<StraightSolve>, solve: StraightSolve)
    requires
        codes.len() == found.len(),
        forall|i: int| 0 <= i < found.len() ==> codes[i] == (#[trigger] found[i]).code(),
    ensures
        codes.contains(solve.code() as u8) <==> found.contains(solve),
{
    lemma_code_round_trip(solve);
    if codes.contains(solve.code() as u8) {
        let i = choose|i: int| 0 <= i < codes.len() && codes[i] == solve.code() as u8;
        lemma_code_round_trip(found[i]);
        assert(found[i] == solve);
    }
    if found.contains(solve) {
        let i = choose|i: int| 0 <= i < found.len() && found[i] == solve;
        assert(codes[i] == solve.code() as u8);
    }
}

/// Scans the ten windows of five consecutive ranks from the highest down
/// and lists what would complete each straight that misses at most two
/// ranks. Gives also the highest rank that no card has.
pub fn straight_scan(cards: &[Card], only_first: bool) -> (r: (Value, Vec<StraightSolve>))
    requires
        cards@.len() <= 5,
    ensures
        r.0 == Value::of_straight_ordinal(top_free(cards@)),
        r.1@ == solves(cards@, only_first),
        forall|i: int| 0 <= i < r.1@.len() ==> (#[trigger] r.1@[i]).wf(),
{
    let p = mark_present(cards);
    proof {
        lemma_some_place_free(cards@);
    }
    let high = Value::from_u8_straight(highest_free(&p, Ghost(cards@)));
    let mut set = codes_new();
    let ghost mut found: Seq<StraightSolve> = Seq::empty();
    let mut start: u8 = 10;
    let mut done = false;
    while start > 0 && !done
        invariant
            start <= 10,
            cards@.len() <= 5,
            forall|o: int| 0 <= o < 14 ==> p@[o] == present(cards@, o),
            held(set).len() == found.len(),
            forall|i: int| 0 <= i < found.len() ==> held(set)[i] == (#[trigger] found[i]).code(),
            forall|i: int| 0 <= i < found.len() ==> (#[trigger] found[i]).wf(),
            done ==> found == solves(cards@, only_first),
            !done ==> scan(cards@, start - 1, only_first, found) == solves(cards@, only_first),
        decreases start,
    {
        let at = start - 1;
        let (count, first, second) = missing_in(&p, at, Ghost(cards@));
        let ghost m = missing(cards@, at as int);
        if count <= 2 {
            let solve = if count == 0 {
                StraightSolve::Complete
            } else if count == 1 {
                StraightSolve::One(Value::from_u8_straight(first))
            } else {
                StraightSolve::Two(
                    [Value::from_u8_straight(second), Value::from_u8_straight(first)],
                )
            };
            assert(solve == solve_of(m));
            assert(solve.wf());
            let ghost before = held(set);
            let fresh = codes_insert(&mut set, solve.encode());
            proof {
                lemma_codes_contain(before, found, solve);
                lemma_code_round_trip(solve);
                if !found.contains(solve) {
                    found = found.push(solve);
                }
            }
            if count == 0 || only_first {
                done = true;
            }
        }
        start = at;
    }
    let n = codes_len(&set);
    let mut out: Vec<StraightSolve> = Vec::new();
    let mut i: usize = 0;
    while i < n
        invariant
            i <= n,
            n == found.len(),
            held(set).len() == found.len(),
            forall|k: int| 0 <= k < found.len() ==> held(set)[k] == (#[trigger] found[k]).code(),
            out@ == found.take(i as int),
        decreases n - i,
    {
        proof {
            lemma_code_round_trip(found[i as int]);
        }
        match codes_get(&set, i) {
            Some(c) => {
                out.push(StraightSolve::decode(c));
            },
            None => {},
        }
        assert(found.take(i + 1) =~= found.take(i as int).push(found[i as int]));
        i += 1;
    }
    assert(found.take(n as int) =~= found);
    (high, out)
}

} // verus!
