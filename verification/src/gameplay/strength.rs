//! The order of hand values: the category first, then the ranks that
//! break ties, the most important first.

use super::card::Value;
use super::hand::{HandValue, SortedHandValue};
use super::rank::lemma_same_kickers;
use std::cmp::Ordering;
use vstd::prelude::*;
use vstd::std_specs::cmp::PartialOrdSpecImpl;

verus! {

/// At the first place where the two sequences differ, `a` has the lower
/// rank.
pub open spec fn lex_less(a: Seq<Value>, b: Seq<Value>) -> bool {
    exists|k: int|
        0 <= k < a.len() && k < b.len() && (#[trigger] a[k]).ordinal() < b[k].ordinal() && a.take(k)
            == b.take(k)
}

impl SortedHandValue {
    /// `self` loses to `other`: its category is lower, or the categories
    /// agree and its ranks are lower at the first place where they differ.
    pub open spec fn weaker_than(self, other: SortedHandValue) -> bool {
        self.category() < other.category() || (self.category() == other.category() && lex_less(
            self.kickers(),
            other.kickers(),
        ))
    }

    /// `self` is at most as strong as `other`.
    pub open spec fn at_most(self, other: SortedHandValue) -> bool {
        self == other || self.weaker_than(other)
    }

    /// -1, 0 or 1 as `self` is weaker than, equal to or stronger than
    /// `other`.
    pub open spec fn sign(self, other: SortedHandValue) -> int {
        if self.weaker_than(other) {
            -1
        } else if other.weaker_than(self) {
            1
        } else {
            0
        }
    }

    /// The place of the category among the ten.
    pub fn category_index(&self) -> (r: u8)
        ensures
            r == self.category(),
    {
        match self {
            SortedHandValue::HighCard(_) => 0,
            SortedHandValue::OnePair(_) => 1,
            SortedHandValue::TwoPair(_) => 2,
            SortedHandValue::Trips(_) => 3,
            SortedHandValue::Straight(_) => 4,
            SortedHandValue::Flush(_) => 5,
            SortedHandValue::FullHouse(_) => 6,
            SortedHandValue::Quads(_) => 7,
            SortedHandValue::StraightFlush(_) => 8,
            SortedHandValue::RoyalFlush => 9,
        }
    }

    /// Compares two values: -1, 0 or 1 as `self` is weaker than, equal to
    /// or stronger than `other`.
    pub fn compare(&self, other: &SortedHandValue) -> (r: i8)
        ensures
            r == self.sign(*other),
            r == 0 <==> *self == *other,
    {
        let r = match (self, other) {
            (SortedHandValue::RoyalFlush, SortedHandValue::RoyalFlush) => 0,
            (SortedHandValue::StraightFlush(a), SortedHandValue::StraightFlush(b)) => {
                let x = [*a];
                let y = [*b];
                assert(x@ =~= self.kickers() && y@ =~= other.kickers());
                compare_ranks(x.as_slice(), y.as_slice())
            },
            (SortedHandValue::Quads(a), SortedHandValue::Quads(b)) => compare_ranks(
                a.as_slice(),
                b.as_slice(),
            ),
            (SortedHandValue::FullHouse(a), SortedHandValue::FullHouse(b)) => compare_ranks(
                a.as_slice(),
                b.as_slice(),
            ),
            (SortedHandValue::Flush(a), SortedHandValue::Flush(b)) => compare_ranks(
                a.as_slice(),
                b.as_slice(),
            ),
            (SortedHandValue::Straight(a), SortedHandValue::Straight(b)) => {
                let x = [*a];
                let y = [*b];
                assert(x@ =~= self.kickers() && y@ =~= other.kickers());
                compare_ranks(x.as_slice(), y.as_slice())
            },
            (SortedHandValue::Trips(a), SortedHandValue::Trips(b)) => compare_ranks(
                a.as_slice(),
                b.as_slice(),
            ),
            (SortedHandValue::TwoPair(a), SortedHandValue::TwoPair(b)) => compare_ranks(
                a.as_slice(),
                b.as_slice(),
            ),
            (SortedHandValue::OnePair(a), SortedHandValue::OnePair(b)) => compare_ranks(
                a.as_slice(),
                b.as_slice(),
            ),
            (SortedHandValue::HighCard(a), SortedHandValue::HighCard(b)) => compare_ranks(
                a.as_slice(),
                b.as_slice(),
            ),
            _ => {
                let x = self.category_index();
                let y = other.category_index();
                if x < y {
                    -1
                } else {
                    1
                }
            },
        };
        proof {
            lemma_order_trichotomy(*self, *other);
        }
        r
    }
}

/// Compares two rank sequences of one length place by place: -1, 0 or 1
/// as the first difference has `a` lower, there is none, or has `a` higher.
pub fn compare_ranks(a: &[Value], b: &[Value]) -> (r: i8)
    requires
        a@.len() == b@.len(),
    ensures
        r == -1 <==> lex_less(a@, b@),
        r == 1 <==> lex_less(b@, a@),
        r == 0 <==> a@ =~= b@,
        -1 <= r <= 1,
{
    let mut i: usize = 0;
    while i < a.len()
        invariant
            i <= a@.len(),
            a@.len() == b@.len(),
            a@.take(i as int) =~= b@.take(i as int),
        decreases a@.len() - i,
    {
        let x = a[i].as_u8();
        let y = b[i].as_u8();
        if x != y {
            proof {
                lemma_first_difference(a@, b@, i as int);
            }
            if x < y {
                return -1;
            } else {
                return 1;
            }
        }
        assert(a@[i as int] == b@[i as int]);
        assert(a@.take(i + 1) =~= a@.take(i as int).push(a@[i as int]));
        assert(b@.take(i + 1) =~= b@.take(i as int).push(b@[i as int]));
        i += 1;
    }
    proof {
        assert(a@.take(a@.len() as int) =~= a@);
        assert(b@.take(b@.len() as int) =~= b@);
        lemma_lex_irreflexive(a@);
    }
    0
}

/// No sequence is lower than itself.
pub proof fn lemma_lex_irreflexive(a: Seq<Value>)
    ensures
        !lex_less(a, a),
{
}

/// Where two sequences agree before `k` and differ at `k`, that place
/// alone decides between them.
pub proof fn lemma_first_difference(a: Seq<Value>, b: Seq<Value>, k: int)
    requires
        0 <= k < a.len(),
        k < b.len(),
        a.take(k) =~= b.take(k),
        a[k] != b[k],
    ensures
        lex_less(a, b) <==> a[k].ordinal() < b[k].ordinal(),
        lex_less(b, a) <==> b[k].ordinal() < a[k].ordinal(),
        !(a =~= b),
{
    assert(a[k].ordinal() != b[k].ordinal());
    assert forall|j: int| 0 <= j < a.len() && j < b.len() && a.take(j) == b.take(j) && a[j] != b[j] implies j == k by {
        if j < k {
            assert(a.take(k)[j] == b.take(k)[j]);
        }
        if k < j {
            assert(a.take(j)[k] == b.take(j)[k]);
        }
    }
    if a[k].ordinal() < b[k].ordinal() {
        assert(lex_less(a, b));
    }
    if b[k].ordinal() < a[k].ordinal() {
        assert(b.take(k) == a.take(k));
        assert(lex_less(b, a));
    }
}

/// Of two hand values exactly one holds: the first is weaker, they are
/// the same, or the second is weaker.
pub proof fn lemma_order_trichotomy(a: SortedHandValue, b: SortedHandValue)
    ensures
        a.weaker_than(b) || a == b || b.weaker_than(a),
        !(a.weaker_than(b) && b.weaker_than(a)),
        !(a.weaker_than(b) && a == b),
        !(b.weaker_than(a) && a == b),
{
    lemma_lex_irreflexive(a.kickers());
    if a.category() == b.category() {
        let x = a.kickers();
        let y = b.kickers();
        assert(x.len() == y.len());
        if x =~= y {
            lemma_same_kickers(a, b);
        } else {
            let k = first_difference(x, y, 0);
            lemma_first_difference(x, y, k);
        }
    }
}

/// The first place from `from` on where two different sequences of one
/// length differ.
pub proof fn first_difference(a: Seq<Value>, b: Seq<Value>, from: int) -> (k: int)
    requires
        a.len() == b.len(),
        0 <= from <= a.len(),
        a.take(from) =~= b.take(from),
        !(a =~= b),
    ensures
        from <= k < a.len(),
        a.take(k) =~= b.take(k),
        a[k] != b[k],
    decreases a.len() - from,
{
    if from == a.len() {
        assert(a.take(from) =~= a);
        assert(b.take(from) =~= b);
        from
    } else if a[from] != b[from] {
        from
    } else {
        assert(a.take(from + 1) =~= a.take(from).push(a[from]));
        assert(b.take(from + 1) =~= b.take(from).push(b[from]));
        first_difference(a, b, from + 1)
    }
}

/// The category decides first: a value of a lower category is weaker,
/// whatever the ranks.
pub proof fn lemma_category_decides(a: SortedHandValue, b: SortedHandValue)
    requires
        a.category() < b.category(),
    ensures
        a.weaker_than(b),
        !b.weaker_than(a),
{
}

/// Weaker than weaker is weaker.
pub proof fn lemma_order_transitive(a: SortedHandValue, b: SortedHandValue, c: SortedHandValue)
    requires
        a.weaker_than(b),
        b.weaker_than(c),
    ensures
        a.weaker_than(c),
{
    if a.category() == b.category() && b.category() == c.category() {
        let x = a.kickers();
        let y = b.kickers();
        let z = c.kickers();
        let i = choose|k: int|
            0 <= k < x.len() && k < y.len() && (#[trigger] x[k]).ordinal() < y[k].ordinal()
                && x.take(k) == y.take(k);
        let j = choose|k: int|
            0 <= k < y.len() && k < z.len() && (#[trigger] y[k]).ordinal() < z[k].ordinal()
                && y.take(k) == z.take(k);
        let m = if i <= j { i } else { j };
        assert(x.take(m) =~= z.take(m)) by {
            assert forall|p: int| 0 <= p < m implies x[p] == z[p] by {
                assert(x.take(i)[p] == y.take(i)[p]);
                assert(y.take(j)[p] == z.take(j)[p]);
            }
        }
        if i < j {
            assert(y.take(j)[i] == z.take(j)[i]);
        }
        if j < i {
            assert(x.take(i)[j] == y.take(i)[j]);
        }
        assert(x[m].ordinal() < z[m].ordinal());
    }
}

impl PartialOrd for SortedHandValue {
    fn partial_cmp(&self, other: &Self) -> (r: Option<Ordering>) {
        let c = self.compare(other);
        if c < 0 {
            Some(Ordering::Less)
        } else if c > 0 {
            Some(Ordering::Greater)
        } else {
            Some(Ordering::Equal)
        }
    }
}

impl PartialOrdSpecImpl for SortedHandValue {
    open spec fn obeys_partial_cmp_spec() -> bool {
        true
    }

    open spec fn partial_cmp_spec(&self, other: &Self) -> Option<Ordering> {
        if self.weaker_than(*other) {
            Some(Ordering::Less)
        } else if other.weaker_than(*self) {
            Some(Ordering::Greater)
        } else {
            Some(Ordering::Equal)
        }
    }
}

impl PartialOrd for HandValue {
    fn partial_cmp(&self, other: &Self) -> (r: Option<Ordering>) {
        let c = self.0.compare(&other.0);
        if c < 0 {
            Some(Ordering::Less)
        } else if c > 0 {
            Some(Ordering::Greater)
        } else {
            Some(Ordering::Equal)
        }
    }
}

impl PartialOrdSpecImpl for HandValue {
    open spec fn obeys_partial_cmp_spec() -> bool {
        true
    }

    open spec fn partial_cmp_spec(&self, other: &Self) -> Option<Ordering> {
        if self@.weaker_than(other@) {
            Some(Ordering::Less)
        } else if other@.weaker_than(self@) {
            Some(Ordering::Greater)
        } else {
            Some(Ordering::Equal)
        }
    }
}

} // verus!
