//! Sets of a fixed number of distinct cards.

use super::card::{Card, Suit, Value, ACE_HIGH};
use std::hash::{Hash, Hasher};
use std::ops::Deref;
use vstd::prelude::*;
use vstd::relations::{sorted_by, total_ordering};
use vstd::seq_lib::{lemma_sorted_unique, to_multiset_contains, to_multiset_len, to_multiset_update};
use vstd::std_specs::cmp::PartialEqSpecImpl;

verus! {

/// The ranks of a sequence of cards, in the same order.
pub open spec fn values_of(cards: Seq<Card>) -> Seq<Value> {
    Seq::new(cards.len(), |i: int| cards[i].0)
}

/// The test for a card of the suit `s`.
pub open spec fn of_suit(s: Suit) -> spec_fn(Card) -> bool {
    |c: Card| c.1 == s
}

/// The cards of the suit `s`, in the order in which they stand.
pub open spec fn suited(cards: Seq<Card>, s: Suit) -> Seq<Card> {
    cards.filter(of_suit(s))
}

/// How many of `cards` have the suit `s`.
pub open spec fn count_suit(cards: Seq<Card>, s: Suit) -> nat {
    suited(cards, s).len()
}

/// Every card has the same suit.
pub open spec fn all_same_suit(cards: Seq<Card>) -> bool {
    forall|i: int, j: int| 0 <= i < cards.len() && 0 <= j < cards.len() ==> cards[i].1 == cards[j].1
}

/// The order of ranks from high to low, as a relation for sorting.
pub open spec fn rank_geq() -> spec_fn(Value, Value) -> bool {
    |a: Value, b: Value| a.ordinal() >= b.ordinal()
}

/// The same ranks, each as often, from the highest to the lowest.
pub open spec fn descending(vals: Seq<Value>) -> Seq<Value> {
    vals.sort_by(rank_geq())
}

/// From high to low is a total order on ranks.
pub proof fn lemma_rank_geq_total()
    ensures
        total_ordering(rank_geq()),
{
    let r = rank_geq();
    assert forall|a: Value, b: Value| #[trigger] r(a, b) && #[trigger] r(b, a) implies a == b by {
        assert(a.ordinal() == b.ordinal());
    }
}

/// A sequence that runs from high to low and holds the same ranks as
/// `vals`, each as often, is `descending(vals)`.
pub proof fn lemma_descending_unique(vals: Seq<Value>, sorted: Seq<Value>)
    requires
        sorted_by(sorted, rank_geq()),
        sorted.to_multiset() == vals.to_multiset(),
    ensures
        sorted == descending(vals),
{
    lemma_rank_geq_total();
    vals.lemma_sort_by_ensures(rank_geq());
    lemma_sorted_unique(sorted, descending(vals), rank_geq());
}

/// The canonical order of cards, as a relation for sorting: by the key,
/// lowest first.
pub open spec fn key_leq() -> spec_fn(Card, Card) -> bool {
    |a: Card, b: Card| a.key() <= b.key()
}

/// The same cards in canonical order.
pub open spec fn canonical(cards: Seq<Card>) -> Seq<Card> {
    cards.sort_by(key_leq())
}

/// The canonical order is a total order on cards.
pub proof fn lemma_key_leq_total()
    ensures
        total_ordering(key_leq()),
{
    let r = key_leq();
    assert forall|a: Card, b: Card| #[trigger] r(a, b) && #[trigger] r(b, a) implies a == b by {
        super::card::lemma_key_injective(a, b);
    }
}

/// Cards are the same but for their order exactly if they are the same
/// in canonical order: equal sets are drawn up alike, and no others.
pub proof fn lemma_canonical_same(a: Seq<Card>, b: Seq<Card>)
    ensures
        same_cards(a, b) <==> canonical(a) == canonical(b),
{
    lemma_key_leq_total();
    a.lemma_sort_by_ensures(key_leq());
    b.lemma_sort_by_ensures(key_leq());
    if same_cards(a, b) {
        lemma_sorted_unique(canonical(a), canonical(b), key_leq());
    }
}

/// Puts the cards in canonical order.
pub fn sort_canonical<const N: usize>(cards: [Card; N]) -> (r: [Card; N])
    ensures
        r@ == canonical(cards@),
{
    let mut a = cards;
    let mut i: usize = 0;
    while i < N
        invariant
            i <= N,
            a@.to_multiset() == cards@.to_multiset(),
            forall|x: int, y: int| 0 <= x < y < N && x < i ==> a@[x].key() <= a@[y].key(),
        decreases N - i,
    {
        let mut m: usize = i;
        let mut j: usize = i + 1;
        while j < N
            invariant
                i < N,
                i <= m < N,
                i < j <= N,
                forall|y: int| i <= y < j ==> a@[m as int].key() <= a@[y].key(),
            decreases N - j,
        {
            if a[j].as_u8() < a[m].as_u8() {
                m = j;
            }
            j += 1;
        }
        let ghost before = a@;
        let lo = a[m];
        let hi = a[i];
        a[m] = hi;
        a[i] = lo;
        proof {
            lemma_swap_keeps_multiset(before, m as int, i as int);
            assert(a@ =~= before.update(m as int, before[i as int]).update(
                i as int,
                before[m as int],
            ));
        }
        i += 1;
    }
    proof {
        assert(sorted_by(a@, key_leq()));
        lemma_key_leq_total();
        cards@.lemma_sort_by_ensures(key_leq());
        lemma_sorted_unique(a@, canonical(cards@), key_leq());
    }
    a
}

/// `Hasher::write`: feeds the bytes to the hasher.
#[verifier::external_body]
fn feed<H: Hasher>(state: &mut H, bytes: &[u8]) {
    state.write(bytes);
}

/// Exchanging two entries of a sequence keeps what it holds.
pub proof fn lemma_swap_keeps_multiset<A>(s: Seq<A>, i: int, j: int)
    requires
        0 <= i < s.len(),
        0 <= j < s.len(),
    ensures
        s.update(i, s[j]).update(j, s[i]).to_multiset() =~= s.to_multiset(),
{
    broadcast use vstd::multiset::group_multiset_axioms;

    let t = s.update(i, s[j]);
    to_multiset_update(s, i, s[j]);
    to_multiset_update(t, j, s[i]);
    to_multiset_contains(s, s[i]);
    to_multiset_contains(s, s[j]);
    assert(s.contains(s[i]));
    assert(s.contains(s[j]));
    if i == j {
        assert(t.update(j, s[i]) =~= s);
    } else {
        assert(t[j] == s[j]);
        let m = s.to_multiset();
        assert forall|v: A| t.update(j, s[i]).to_multiset().count(v) == m.count(v) by {
            assert(m.insert(s[j]).count(v) == m.count(v) + if v == s[j] { 1nat } else { 0nat });
        }
    }
}

/// Puts the ranks in order from the highest to the lowest.
pub fn sort_descending<const N: usize>(vals: [Value; N]) -> (r: [Value; N])
    ensures
        r@ == descending(vals@),
{
    let mut a = vals;
    let mut i: usize = 0;
    while i < N
        invariant
            i <= N,
            a@.to_multiset() == vals@.to_multiset(),
            forall|x: int, y: int| 0 <= x < y < N && x < i ==> a@[x].ordinal() >= a@[y].ordinal(),
        decreases N - i,
    {
        let mut m: usize = i;
        let mut j: usize = i + 1;
        while j < N
            invariant
                i < N,
                i <= m < N,
                i < j <= N,
                forall|y: int| i <= y < j ==> a@[m as int].ordinal() >= a@[y].ordinal(),
            decreases N - j,
        {
            if a[j].as_u8() > a[m].as_u8() {
                m = j;
            }
            j += 1;
        }
        let ghost before = a@;
        let hi = a[m];
        let lo = a[i];
        a[m] = lo;
        a[i] = hi;
        proof {
            lemma_swap_keeps_multiset(before, m as int, i as int);
            assert(a@ =~= before.update(m as int, before[i as int]).update(i as int, before[m as int]));
        }
        i += 1;
    }
    proof {
        assert(sorted_by(a@, rank_geq()));
        lemma_descending_unique(vals@, a@);
    }
    a
}

/// The ranks on the straight scale with every Ace high, in the same order.
pub open spec fn high_ordinals(vals: Seq<Value>) -> Seq<int> {
    Seq::new(vals.len(), |i: int| vals[i].straight_ordinal())
}

/// `i` is where the first Ace of `vals` stands.
pub open spec fn is_first_ace(vals: Seq<Value>, i: int) -> bool {
    &&& 0 <= i < vals.len()
    &&& vals[i] == Value::Ace
    &&& forall|j: int| 0 <= j < i ==> vals[j] != Value::Ace
}

/// Where the first Ace of `vals` stands.
pub open spec fn first_ace(vals: Seq<Value>) -> int {
    choose|i: int| is_first_ace(vals, i)
}

/// The ranks on the straight scale with the first Ace low, at 0.
pub open spec fn low_ordinals(vals: Seq<Value>) -> Seq<int> {
    high_ordinals(vals).update(first_ace(vals), 0)
}

/// The ordinals are all different, `top` is one of them, and all lie in
/// the window of their own number that ends at `top`: they are the run of
/// consecutive integers up to `top`.
pub open spec fn is_run(ords: Seq<int>, top: int) -> bool {
    &&& ords.no_duplicates()
    &&& ords.contains(top)
    &&& forall|i: int| 0 <= i < ords.len() ==> top - ords.len() < #[trigger] ords[i] <= top
}

/// The highest ordinal, where the ordinals form a run.
pub open spec fn run_top(ords: Seq<int>) -> Option<int> {
    if exists|t: int| is_run(ords, t) {
        Some(choose|t: int| is_run(ords, t))
    } else {
        None
    }
}

/// The top rank of the straight that the ranks form, if they form one:
/// first with every Ace high, and failing that, where there is an Ace,
/// with the first Ace low (the wheel, whose top is the Five).
pub open spec fn straight_top(vals: Seq<Value>) -> Option<Value> {
    match run_top(high_ordinals(vals)) {
        Some(t) => Some(Value::of_straight_ordinal(t)),
        None => if vals.contains(Value::Ace) {
            match run_top(low_ordinals(vals)) {
                Some(t) => Some(Value::of_straight_ordinal(t)),
                None => None,
            }
        } else {
            None
        },
    }
}

/// A run has one top only: its highest ordinal.
pub proof fn lemma_run_top_unique(ords: Seq<int>, a: int, b: int)
    requires
        is_run(ords, a),
        is_run(ords, b),
    ensures
        a == b,
{
    let i = choose|i: int| 0 <= i < ords.len() && ords[i] == a;
    let j = choose|j: int| 0 <= j < ords.len() && ords[j] == b;
    assert(ords[i] <= b);
    assert(ords[j] <= a);
}

/// The bytes as integers.
pub open spec fn as_ints(s: Seq<u8>) -> Seq<int> {
    Seq::new(s.len(), |i: int| s[i] as int)
}

/// Tells whether the ordinals form a run, and gives its top.
pub fn check_run<const N: usize>(ords: &[u8; N]) -> (r: Option<u8>)
    requires
        N >= 1,
    ensures
        match r {
            Some(t) => run_top(as_ints(ords@)) == Some(t as int) && ords@.contains(t),
            None => run_top(as_ints(ords@)) is None,
        },
{
    let ghost ints = as_ints(ords@);
    let mut hi: u8 = ords[0];
    let mut lo: u8 = ords[0];
    let mut i: usize = 1;
    while i < N
        invariant
            1 <= i <= N,
            forall|k: int| 0 <= k < i ==> lo <= #[trigger] ords@[k] <= hi,
            exists|k: int| 0 <= k < i && ords@[k] == hi,
            exists|k: int| 0 <= k < i && ords@[k] == lo,
        decreases N - i,
    {
        if ords[i] > hi {
            hi = ords[i];
        }
        if ords[i] < lo {
            lo = ords[i];
        }
        i += 1;
    }
    let ghost at_hi = choose|k: int| 0 <= k < N && ords@[k] == hi;
    let ghost at_lo = choose|k: int| 0 <= k < N && ords@[k] == lo;
    let mut distinct = true;
    let mut a: usize = 0;
    while a < N && distinct
        invariant
            a <= N,
            distinct ==> forall|x: int, y: int| 0 <= x < y < a ==> ords@[x] != ords@[y],
            !distinct ==> !ints.no_duplicates(),
            ints == as_ints(ords@),
        decreases N - a, distinct as int,
    {
        let mut b: usize = 0;
        while b < a && distinct
            invariant
                a < N,
                b <= a,
                distinct ==> forall|x: int| 0 <= x < b ==> ords@[x] != ords@[a as int],
                !distinct ==> !ints.no_duplicates(),
                ints == as_ints(ords@),
            decreases a - b, distinct as int,
        {
            if ords[b] == ords[a] {
                distinct = false;
                assert(ints[b as int] == ints[a as int]);
            }
            b += 1;
        }
        if distinct {
            a += 1;
        }
    }
    if distinct && ((hi - lo) as usize) < N {
        proof {
            assert(ints[at_hi] == hi as int);
            assert(is_run(ints, hi as int));
            assert forall|t: int| is_run(ints, t) implies t == hi as int by {
                lemma_run_top_unique(ints, t, hi as int);
            }
        }
        Some(hi)
    } else {
        proof {
            if exists|t: int| is_run(ints, t) {
                let t = choose|t: int| is_run(ints, t);
                let k = choose|k: int| 0 <= k < ints.len() && ints[k] == t;
                assert(ints[at_hi] <= t);
                assert(ints[k] <= hi);
                assert(t - N < ints[at_lo]);
                assert(false);
            }
        }
        None
    }
}

/// The two sequences hold the same cards, each as often, in any order.
pub open spec fn same_cards(a: Seq<Card>, b: Seq<Card>) -> bool {
    a.to_multiset() =~= b.to_multiset()
}

/// Sequences without repeats that contain the same cards hold the same
/// cards.
pub proof fn lemma_same_cards_by_containment(a: Seq<Card>, b: Seq<Card>)
    requires
        a.no_duplicates(),
        b.no_duplicates(),
        forall|c: Card| a.contains(c) <==> b.contains(c),
    ensures
        same_cards(a, b),
{
    a.lemma_multiset_has_no_duplicates();
    b.lemma_multiset_has_no_duplicates();
    assert forall|c: Card| a.to_multiset().count(c) == b.to_multiset().count(c) by {
        to_multiset_contains(a, c);
        to_multiset_contains(b, c);
    }
}

/// The order in which cards are given is immaterial: cards given in
/// another order are refused alike or accepted alike by `new`, and the sets
/// built of them are equal.
pub proof fn lemma_order_is_immaterial(a: Seq<Card>, b: Seq<Card>)
    requires
        a.to_multiset() == b.to_multiset(),
    ensures
        a.no_duplicates() <==> b.no_duplicates(),
        same_cards(a, b),
{
    if a.no_duplicates() {
        a.lemma_multiset_has_no_duplicates();
        b.lemma_multiset_has_no_duplicates_conv();
    }
    if b.no_duplicates() {
        b.lemma_multiset_has_no_duplicates();
        a.lemma_multiset_has_no_duplicates_conv();
    }
}

/// A card that only one of two sequences contains tells them apart.
pub proof fn lemma_same_cards_contains(a: Seq<Card>, b: Seq<Card>, c: Card)
    requires
        same_cards(a, b),
    ensures
        a.contains(c) <==> b.contains(c),
        a.len() == b.len(),
{
    to_multiset_contains(a, c);
    to_multiset_contains(b, c);
    to_multiset_len(a);
    to_multiset_len(b);
}

/// `N` cards, no two of them the same. The order in which they were given
/// is kept, and plays no part in equality.
#[derive(Debug, Eq, Clone, Copy)]
pub struct CardsCombined<const N: usize>([Card; N]);

pub type Hole = CardsCombined<2>;

pub type Flop = CardsCombined<3>;

pub type FullBoard = CardsCombined<5>;

impl<const N: usize> View for CardsCombined<N> {
    type V = Seq<Card>;

    closed spec fn view(&self) -> Seq<Card> {
        self.0@
    }
}

impl<const N: usize> CardsCombined<N> {
    #[verifier::type_invariant]
    closed spec fn distinct(self) -> bool {
        self.0@.no_duplicates()
    }

    /// A set of `N` cards shows `N` cards.
    pub proof fn lemma_len(self)
        ensures
            self@.len() == N,
    {
    }

    /// Builds the set, or refuses when a card occurs twice.
    pub fn new(cards: [Card; N]) -> (r: Option<Self>)
        ensures
            r is Some <==> cards@.no_duplicates(),
            r is Some ==> r->0@ == cards@,
    {
        if all_unique(cards.as_slice()) {
            Some(CardsCombined(cards))
        } else {
            None
        }
    }

    /// Builds the set from cards already known to differ.
    pub fn unchecked(cards: [Card; N]) -> (r: Self)
        requires
            cards@.no_duplicates(),
        ensures
            r@ == cards@,
    {
        CardsCombined(cards)
    }

    /// Builds the set from a slice of exactly `N` cards already known to
    /// differ.
    pub fn from_slice(cards: &[Card]) -> (r: Self)
        requires
            cards@.len() == N,
            cards@.no_duplicates(),
        ensures
            r@ == cards@,
    {
        let mut a = [Card(Value::Ace, Suit::Spades); N];
        let mut i: usize = 0;
        while i < N
            invariant
                i <= N,
                cards@.len() == N,
                forall|k: int| 0 <= k < i ==> a@[k] == cards@[k],
            decreases N - i,
        {
            a[i] = cards[i];
            i += 1;
        }
        assert(a@ =~= cards@);
        CardsCombined(a)
    }

    /// Some card of the set has this rank.
    pub fn contains_value(&self, value: Value) -> (r: bool)
        ensures
            r == values_of(self@).contains(value),
    {
        let mut i: usize = 0;
        while i < N
            invariant
                i <= N,
                forall|k: int| 0 <= k < i ==> self@[k].0 != value,
            decreases N - i,
        {
            if self.0[i].0 == value {
                assert(values_of(self@)[i as int] == value);
                return true;
            }
            i += 1;
        }
        false
    }

    /// Some card of the set has this suit.
    pub fn contains_suit(&self, suit: Suit) -> (r: bool)
        ensures
            r == exists|k: int| 0 <= k < self@.len() && self@[k].1 == suit,
    {
        let mut i: usize = 0;
        while i < N
            invariant
                i <= N,
                forall|k: int| 0 <= k < i ==> self@[k].1 != suit,
            decreases N - i,
        {
            if self.0[i].1 == suit {
                return true;
            }
            i += 1;
        }
        false
    }

    /// The card is in the set.
    pub fn contains_card(&self, card: Card) -> (r: bool)
        ensures
            r == self@.contains(card),
    {
        contains_card(self.0.as_slice(), card)
    }

    /// All cards share one suit.
    pub fn is_flush(&self) -> (r: bool)
        ensures
            r == all_same_suit(self@),
    {
        let mut i: usize = 1;
        while i < N
            invariant
                1 <= i,
                forall|k: int| 0 <= k < i && k < N ==> (#[trigger] self@[k]).1 == self@[0].1,
            decreases N - i,
        {
            if self.0[i].1 != self.0[0].1 {
                return false;
            }
            i += 1;
        }
        true
    }

    /// The ranks of the cards, in the order of the cards.
    pub fn values(&self) -> (r: [Value; N])
        ensures
            r@ == values_of(self@),
    {
        let mut a = [Value::Deuce; N];
        let mut i: usize = 0;
        while i < N
            invariant
                i <= N,
                forall|k: int| 0 <= k < i ==> a@[k] == self@[k].0,
            decreases N - i,
        {
            a[i] = self.0[i].0;
            i += 1;
        }
        assert(a@ =~= values_of(self@));
        a
    }

    /// The ranks of the cards from the highest to the lowest.
    pub fn to_sorted_values(&self) -> (r: [Value; N])
        ensures
            r@ == descending(values_of(self@)),
    {
        sort_descending(self.values())
    }

    /// The top rank of the straight that the cards form, if they form one.
    /// The wheel, Ace to Five, has the Five on top.
    pub fn is_straight(&self) -> (r: Option<Value>)
        requires
            N >= 1,
        ensures
            r == straight_top(values_of(self@)),
    {
        let vals = self.values();
        let mut ords = [0u8; N];
        let mut ace: Option<usize> = None;
        let mut i: usize = 0;
        while i < N
            invariant
                i <= N,
                vals@ == values_of(self@),
                forall|k: int| 0 <= k < i ==> ords@[k] == vals@[k].straight_ordinal(),
                match ace {
                    Some(k) => is_first_ace(vals@.take(i as int), k as int),
                    None => forall|k: int| 0 <= k < i ==> vals@[k] != Value::Ace,
                },
            decreases N - i,
        {
            ords[i] = vals[i].as_u8_straight();
            if ace.is_none() && ords[i] == ACE_HIGH {
                ace = Some(i);
            }
            i += 1;
        }
        assert(vals@.take(N as int) =~= vals@);
        assert(as_ints(ords@) =~= high_ordinals(vals@));
        match check_run(&ords) {
            Some(t) => Some(Value::from_u8_straight(t)),
            None => match ace {
                Some(k) => {
                    proof {
                        assert(is_first_ace(vals@, k as int));
                        assert(vals@.contains(Value::Ace));
                        assert forall|j: int| is_first_ace(vals@, j) implies j == k by {
                            if j < k {
                                assert(vals@[j] != Value::Ace);
                            }
                        }
                    }
                    ords[k] = 0;
                    assert(as_ints(ords@) =~= low_ordinals(vals@));
                    match check_run(&ords) {
                        Some(t) => Some(Value::from_u8_straight(t)),
                        None => None,
                    }
                },
                None => {
                    proof {
                        if vals@.contains(Value::Ace) {
                            let j = choose|j: int| 0 <= j < vals@.len() && vals@[j] == Value::Ace;
                            assert(false);
                        }
                    }
                    None
                },
            },
        }
    }

    /// The cards in canonical order.
    pub fn sorted(&self) -> (r: [Card; N])
        ensures
            r@ == canonical(self@),
    {
        sort_canonical(self.0)
    }

    /// The cards, in the order given at construction.
    pub fn cards(&self) -> (r: [Card; N])
        ensures
            r@ == self@,
            r@.no_duplicates(),
    {
        proof {
            use_type_invariant(self);
        }
        self.0
    }
}

/// No card is in both sequences.
pub open spec fn disjoint(a: Seq<Card>, b: Seq<Card>) -> bool {
    forall|i: int, j: int| 0 <= i < a.len() && 0 <= j < b.len() ==> a[i] != b[j]
}

/// The holding of the two cards, in this order.
pub closed spec fn hole_of(a: Card, b: Card) -> Hole {
    CardsCombined([a, b])
}

/// The holding of two cards shows the two cards.
pub proof fn lemma_hole_of(a: Card, b: Card)
    ensures
        hole_of(a, b)@ == seq![a, b],
{
    assert(hole_of(a, b)@ =~= seq![a, b]);
}

/// The holding of the two cards where they differ; where they are one
/// card, which no holding has twice, `other`.
pub open spec fn pair_or(a: Card, b: Card, other: Hole) -> Hole {
    if a != b {
        hole_of(a, b)
    } else {
        other
    }
}

impl CardsCombined<2> {
    /// The holding of the two cards where they differ, else `other`.
    pub fn pair_or(a: Card, b: Card, other: Hole) -> (r: Hole)
        ensures
            r == pair_or(a, b, other),
    {
        if a != b {
            let cards = [a, b];
            CardsCombined(cards)
        } else {
            other
        }
    }

    /// Both cards have one rank.
    pub fn is_pocket_pair(&self) -> (r: bool)
        ensures
            r == (self@[0].0 == self@[1].0),
    {
        self.0[0].0 == self.0[1].0
    }

    /// Both cards have the rank `value`.
    pub fn is_pocket(&self, value: Value) -> (r: bool)
        ensures
            r == (self@[0].0 == value && self@[1].0 == value),
    {
        self.0[0].0 == value && self.0[1].0 == value
    }

    /// Both cards have one suit.
    pub fn is_suited(&self) -> (r: bool)
        ensures
            r == (self@[0].1 == self@[1].1),
    {
        self.is_flush()
    }

    /// Each of the two ranks is the rank of one of the cards.
    pub fn is_of_values(&self, values: [Value; 2]) -> (r: bool)
        ensures
            r == (values_of(self@).contains(values@[0]) && values_of(self@).contains(values@[1])),
    {
        self.contains_value(values[0]) && self.contains_value(values[1])
    }

    /// The holding of two different ranks in one suit.
    pub fn from_values_suited(values: [Value; 2], suit: Suit) -> (r: Self)
        requires
            values@[0] != values@[1],
        ensures
            r == hole_of(Card(values@[0], suit), Card(values@[1], suit)),
    {
        let cards = [Card(values[0], suit), Card(values[1], suit)];
        CardsCombined(cards)
    }
}

impl CardsCombined<5> {
    /// The seven cards of a holding on this board: the holding first, then
    /// the board.
    pub fn to_seven(&self, hole: Hole) -> (r: CardsCombined<7>)
        requires
            disjoint(hole@, self@),
        ensures
            r@ == hole@ + self@,
    {
        proof {
            use_type_invariant(self);
            use_type_invariant(&hole);
        }
        let h = hole.0;
        let b = self.0;
        let cards = [h[0], h[1], b[0], b[1], b[2], b[3], b[4]];
        assert(cards@ =~= hole@ + self@);
        CardsCombined(cards)
    }
}

impl<const N: usize> PartialEq for CardsCombined<N> {
    /// Two sets are equal when they hold the same cards; the order in
    /// which the cards were given does not matter.
    fn eq(&self, other: &Self) -> (r: bool) {
        proof {
            use_type_invariant(self);
            use_type_invariant(other);
        }
        let a = self.0.as_slice();
        let b = other.0.as_slice();
        let r = subset_of(a, b) && subset_of(b, a);
        proof {
            if r {
                lemma_same_cards_by_containment(self@, other@);
            } else {
                if same_cards(self@, other@) {
                    assert forall|c: Card| self@.contains(c) <==> other@.contains(c) by {
                        lemma_same_cards_contains(self@, other@, c);
                    }
                }
            }
        }
        r
    }
}

impl<const N: usize> PartialEqSpecImpl for CardsCombined<N> {
    open spec fn obeys_eq_spec() -> bool {
        true
    }

    open spec fn eq_spec(&self, other: &Self) -> bool {
        same_cards(self@, other@)
    }
}

impl<const N: usize> Hash for CardsCombined<N> {
    /// Hashes the keys of the cards in canonical order, so that equal sets
    /// hash alike.
    fn hash<H: Hasher>(&self, state: &mut H) {
        let cards = self.sorted();
        let mut keys: Vec<u8> = Vec::new();
        let mut i: usize = 0;
        while i < N
            invariant
                i <= N,
            decreases N - i,
        {
            keys.push(cards[i].as_u8());
            i += 1;
        }
        feed(state, keys.as_slice());
    }
}

impl<const N: usize> Deref for CardsCombined<N> {
    type Target = [Card; N];

    fn deref(&self) -> (r: &[Card; N])
        ensures
            r@ == self@,
    {
        &self.0
    }
}

/// The cards of one suit, in the order in which they stand.
pub fn cards_of_suit(cards: &[Card], suit: Suit) -> (r: Vec<Card>)
    ensures
        r@ == suited(cards@, suit),
{
    let mut r: Vec<Card> = Vec::new();
    let mut i: usize = 0;
    assert(cards@.take(0) =~= Seq::<Card>::empty());
    assert(Seq::<Card>::empty().filter(of_suit(suit)) =~= Seq::<Card>::empty()) by {
        Seq::<Card>::empty().lemma_filter_len(of_suit(suit));
    }
    while i < cards.len()
        invariant
            i <= cards@.len(),
            r@ == suited(cards@.take(i as int), suit),
        decreases cards@.len() - i,
    {
        proof {
            assert(cards@.take(i + 1) =~= cards@.take(i as int).push(cards@[i as int]));
            cards@.take(i as int).lemma_filter_push(cards@[i as int], of_suit(suit));
        }
        if cards[i].1 == suit {
            r.push(cards[i]);
        }
        i += 1;
    }
    assert(cards@.take(cards@.len() as int) =~= cards@);
    r
}

/// Every card of `a` is among `b`.
pub fn subset_of(a: &[Card], b: &[Card]) -> (r: bool)
    ensures
        r == forall|c: Card| a@.contains(c) ==> b@.contains(c),
{
    let mut i: usize = 0;
    while i < a.len()
        invariant
            i <= a@.len(),
            forall|k: int| 0 <= k < i ==> b@.contains(a@[k]),
        decreases a@.len() - i,
    {
        if !contains_card(b, a[i]) {
            assert(a@.contains(a@[i as int]));
            return false;
        }
        i += 1;
    }
    true
}

/// The card is in the slice.
pub fn contains_card(cards: &[Card], card: Card) -> (r: bool)
    ensures
        r == cards@.contains(card),
{
    let mut i: usize = 0;
    while i < cards.len()
        invariant
            i <= cards@.len(),
            forall|k: int| 0 <= k < i ==> cards@[k] != card,
        decreases cards@.len() - i,
    {
        if cards[i] == card {
            return true;
        }
        i += 1;
    }
    false
}

/// No card of the slice occurs twice.
pub fn all_unique(cards: &[Card]) -> (r: bool)
    ensures
        r == cards@.no_duplicates(),
{
    let n = cards.len();
    let mut i: usize = 0;
    while i < n
        invariant
            n == cards@.len(),
            i <= n,
            forall|a: int, b: int| 0 <= a < b < i ==> cards@[a] != cards@[b],
        decreases n - i,
    {
        let mut j: usize = 0;
        while j < i
            invariant
                n == cards@.len(),
                i < n,
                j <= i,
                forall|a: int| 0 <= a < j ==> cards@[a] != cards@[i as int],
            decreases i - j,
        {
            if cards[j] == cards[i] {
                return false;
            }
            j += 1;
        }
        i += 1;
    }
    true
}

} // verus!
