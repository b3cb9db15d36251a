//! The community cards, street by street.

use super::card::Card;
use super::cards::{all_unique, Flop, FullBoard};
use std::ops::Deref;
use vstd::prelude::*;

verus! {

/// The community cards at each street.
#[derive(Debug, PartialEq, Eq, Clone, Copy, Hash)]
pub enum BoardCards {
    Preflop,
    Flop(Flop),
    Turn { flop: Flop, turn: Card },
    River { flop: Flop, turn: Card, river: Card },
}

impl Default for BoardCards {
    fn default() -> (r: Self)
        ensures
            r == BoardCards::Preflop,
    {
        BoardCards::Preflop
    }
}

impl View for BoardCards {
    type V = Seq<Card>;

    /// The cards in the order in which they came: flop, turn, river.
    open spec fn view(&self) -> Seq<Card> {
        match *self {
            BoardCards::Preflop => Seq::empty(),
            BoardCards::Flop(flop) => flop@,
            BoardCards::Turn { flop, turn } => flop@.push(turn),
            BoardCards::River { flop, turn, river } => flop@.push(turn).push(river),
        }
    }
}

/// A board on which no card occurs twice. It grows only forward: flop,
/// then turn, then river.
#[derive(Debug, PartialEq, Eq, Clone, Copy, Hash)]
pub struct Board(BoardCards);

impl Default for Board {
    fn default() -> (r: Self)
        ensures
            r@ == Seq::<Card>::empty(),
    {
        Board(BoardCards::Preflop)
    }
}

impl View for Board {
    type V = Seq<Card>;

    closed spec fn view(&self) -> Seq<Card> {
        self.0@
    }
}

impl Deref for Board {
    type Target = BoardCards;

    fn deref(&self) -> (r: &BoardCards)
        ensures
            r@ == self@,
    {
        &self.0
    }
}

impl Board {
    #[verifier::type_invariant]
    closed spec fn distinct(self) -> bool {
        self.0@.no_duplicates()
    }

    /// A board shows no card, or three, four or five.
    pub proof fn lemma_len(self)
        ensures
            self@.len() == 0 || 3 <= self@.len() <= 5,
    {
        match self.0 {
            BoardCards::Preflop => {},
            BoardCards::Flop(flop) => {
                flop.lemma_len();
            },
            BoardCards::Turn { flop, turn } => {
                flop.lemma_len();
            },
            BoardCards::River { flop, turn, river } => {
                flop.lemma_len();
            },
        }
    }

    /// The board of the given cards: none, or flop, turn and river in this
    /// order. Any other number of cards, and any card given twice, is
    /// refused.
    pub fn from_slice(cards: &[Card]) -> (r: Option<Self>)
        ensures
            r is Some <==> (cards@.len() == 0 || 3 <= cards@.len() <= 5) && cards@.no_duplicates(),
            r is Some ==> r->0@ == cards@,
    {
        let n = cards.len();
        if n == 0 {
            assert(cards@ =~= Seq::<Card>::empty());
            return Some(Board(BoardCards::Preflop));
        }
        if n < 3 || n > 5 {
            return None;
        }
        if !all_unique(cards) {
            return None;
        }
        let first = [cards[0], cards[1], cards[2]];
        assert(first@ =~= cards@.take(3));
        let flop = Flop::unchecked(first);
        if n == 3 {
            assert(cards@.take(3) =~= cards@);
            Some(Board(BoardCards::Flop(flop)))
        } else if n == 4 {
            assert(cards@.take(3).push(cards@[3]) =~= cards@);
            Some(Board(BoardCards::Turn { flop, turn: cards[3] }))
        } else {
            assert(cards@.take(3).push(cards@[3]).push(cards@[4]) =~= cards@);
            Some(Board(BoardCards::River { flop, turn: cards[3], river: cards[4] }))
        }
    }

    /// The cards in the order in which they came.
    pub fn to_vec(&self) -> (r: Vec<Card>)
        ensures
            r@ == self@,
            r@.no_duplicates(),
            r@.len() == 0 || 3 <= r@.len() <= 5,
    {
        proof {
            use_type_invariant(self);
            self.lemma_len();
        }
        let mut cards: Vec<Card> = Vec::new();
        match self.0 {
            BoardCards::Preflop => {},
            BoardCards::Flop(flop) => {
                push_flop(&mut cards, flop);
            },
            BoardCards::Turn { flop, turn } => {
                push_flop(&mut cards, flop);
                cards.push(turn);
            },
            BoardCards::River { flop, turn, river } => {
                push_flop(&mut cards, flop);
                cards.push(turn);
                cards.push(river);
            },
        }
        cards
    }

    /// The board after the flop.
    pub fn flop(flop: Flop) -> (r: Self)
        ensures
            r@ == flop@,
    {
        let held = flop.cards();
        Board(BoardCards::Flop(flop))
    }

    /// The board after the turn card: only from a flop, and only with a
    /// card that the flop does not hold.
    pub fn turn(&self, turn: Card) -> (r: Option<Self>)
        ensures
            r is Some <==> self@.len() == 3 && !self@.contains(turn),
            r is Some ==> r->0@ == self@.push(turn),
    {
        proof {
            use_type_invariant(self);
            self.lemma_len();
        }
        if let BoardCards::Flop(flop) = self.0 {
            if flop.contains_card(turn) {
                None
            } else {
                proof {
                    flop.lemma_len();
                }
                Some(Board(BoardCards::Turn { flop, turn }))
            }
        } else {
            proof {
                match self.0 {
                    BoardCards::Turn { flop, turn } => {
                        flop.lemma_len();
                    },
                    BoardCards::River { flop, turn, river } => {
                        flop.lemma_len();
                    },
                    _ => {},
                }
            }
            None
        }
    }

    /// The board after the river card: only from a turn, and only with a
    /// card that the board does not hold.
    pub fn river(&self, river: Card) -> (r: Option<Self>)
        ensures
            r is Some <==> self@.len() == 4 && !self@.contains(river),
            r is Some ==> r->0@ == self@.push(river),
    {
        proof {
            use_type_invariant(self);
            self.lemma_len();
        }
        if let BoardCards::Turn { flop, turn } = self.0 {
            proof {
                flop.lemma_len();
                assert(self@[3] == turn);
            }
            if flop.contains_card(river) || turn == river {
                proof {
                    if turn != river {
                        let k = choose|k: int| 0 <= k < flop@.len() && flop@[k] == river;
                        assert(self@[k] == river);
                    }
                }
                None
            } else {
                Some(Board(BoardCards::River { flop, turn, river }))
            }
        } else {
            proof {
                match self.0 {
                    BoardCards::Flop(flop) => {
                        flop.lemma_len();
                    },
                    BoardCards::River { flop, turn, river } => {
                        flop.lemma_len();
                    },
                    _ => {},
                }
            }
            None
        }
    }

    /// The five cards of a board at the river.
    pub fn as_full_board(&self) -> (r: Option<FullBoard>)
        ensures
            r is Some <==> self@.len() == 5,
            r is Some ==> r->0@ == self@,
    {
        proof {
            use_type_invariant(self);
            self.lemma_len();
        }
        if let BoardCards::River { flop, turn, river } = self.0 {
            let f = flop.cards();
            let cards = [f[0], f[1], f[2], turn, river];
            assert(cards@ =~= self@);
            Some(FullBoard::unchecked(cards))
        } else {
            proof {
                match self.0 {
                    BoardCards::Flop(flop) => {
                        flop.lemma_len();
                    },
                    BoardCards::Turn { flop, turn } => {
                        flop.lemma_len();
                    },
                    _ => {},
                }
            }
            None
        }
    }

    /// No card has come yet.
    pub fn is_preflop(&self) -> (r: bool)
        ensures
            r == (self@.len() == 0),
    {
        proof {
            self.lemma_stage();
        }
        matches!(self.0, BoardCards::Preflop)
    }

    /// The flop has come, the turn has not.
    pub fn is_flop(&self) -> (r: bool)
        ensures
            r == (self@.len() == 3),
    {
        proof {
            self.lemma_stage();
        }
        matches!(self.0, BoardCards::Flop(_))
    }

    /// The turn has come, the river has not.
    pub fn is_turn(&self) -> (r: bool)
        ensures
            r == (self@.len() == 4),
    {
        proof {
            self.lemma_stage();
        }
        matches!(self.0, BoardCards::Turn { .. })
    }

    /// The river has come.
    pub fn is_river(&self) -> (r: bool)
        ensures
            r == (self@.len() == 5),
    {
        proof {
            self.lemma_stage();
        }
        matches!(self.0, BoardCards::River { .. })
    }

    /// The number of cards tells the street.
    proof fn lemma_stage(self)
        ensures
            self.0 is Preflop <==> self@.len() == 0,
            self.0 is Flop <==> self@.len() == 3,
            self.0 is Turn <==> self@.len() == 4,
            self.0 is River <==> self@.len() == 5,
    {
        match self.0 {
            BoardCards::Preflop => {},
            BoardCards::Flop(flop) => {
                flop.lemma_len();
            },
            BoardCards::Turn { flop, turn } => {
                flop.lemma_len();
            },
            BoardCards::River { flop, turn, river } => {
                flop.lemma_len();
            },
        }
    }
}

/// Appends the three cards of the flop.
fn push_flop(cards: &mut Vec<Card>, flop: Flop)
    ensures
        final(cards)@ == old(cards)@ + flop@,
        flop@.len() == 3,
{
    let f = flop.cards();
    cards.push(f[0]);
    cards.push(f[1]);
    cards.push(f[2]);
    assert(cards@ =~= old(cards)@ + flop@);
}

} // verus!
