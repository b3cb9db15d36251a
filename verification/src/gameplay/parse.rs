//! The text form of card sets and boards: two-character card tokens, with
//! or without white space between them.

use super::board::Board;
use super::card::{Card, Suit, Value};
use super::cards::{all_unique, CardsCombined};
use std::str::FromStr;
use vstd::prelude::*;
use vstd::string::{is_ascii_spec_bytes, StringSliceAdditionalSpecFns};
use vstd::utf8::is_ascii_chars;

verus! {

/// White space as far as ASCII has it: space, tab, line feed, vertical
/// tab, form feed, carriage return.
pub open spec fn is_space(c: char) -> bool {
    c == ' ' || ('\t' <= c && c <= '\r')
}

/// The first place from `from` on that holds no white space; the length of
/// the text where there is none.
pub open spec fn skip_spaces(t: Seq<char>, from: int) -> int
    decreases t.len() - from,
{
    if from < 0 || from >= t.len() {
        t.len() as int
    } else if is_space(t[from]) {
        skip_spaces(t, from + 1)
    } else {
        from
    }
}

/// The cards that the text names from `from` on, token by token up to its
/// end; nothing where something other than a card token stands in it.
pub open spec fn tokens(t: Seq<char>, from: int) -> Option<Seq<Card>>
    decreases t.len() - from,
    via tokens_decreases
{
    let at = skip_spaces(t, from);
    if from < 0 {
        None
    } else if at >= t.len() {
        Some(Seq::empty())
    } else if at + 2 > t.len() {
        None
    } else {
        match Card::of_text(t.subrange(at, at + 2)) {
            Ok(card) => match tokens(t, at + 2) {
                Some(rest) => Some(seq![card] + rest),
                None => None,
            },
            Err(_) => None,
        }
    }
}

#[via_fn]
proof fn tokens_decreases(t: Seq<char>, from: int) {
    lemma_skip_spaces_bounds(t, from);
}

/// Skipping white space moves forward, and not past the end.
pub proof fn lemma_skip_spaces_bounds(t: Seq<char>, from: int)
    ensures
        from <= t.len() ==> from <= skip_spaces(t, from) <= t.len(),
        0 <= from ==> skip_spaces(t, from) >= from || skip_spaces(t, from) == t.len(),
    decreases t.len() - from,
{
    if 0 <= from < t.len() && is_space(t[from]) {
        lemma_skip_spaces_bounds(t, from + 1);
    }
}

/// The text is the mark of an empty board: an `x`, with nothing but white
/// space around it.
pub open spec fn is_empty_mark(t: Seq<char>) -> bool {
    let at = skip_spaces(t, 0);
    at < t.len() && t[at] == 'x' && skip_spaces(t, at + 1) == t.len()
}

/// The set of `n` cards that a text names: ASCII only, exactly `n` card
/// tokens, no card twice.
pub open spec fn cards_of_text(t: Seq<char>, n: nat) -> Result<Seq<Card>, ()> {
    if !is_ascii_chars(t) {
        Err(())
    } else if n == 0 {
        if t.len() == 0 {
            Ok(Seq::empty())
        } else {
            Err(())
        }
    } else {
        match tokens(t, 0) {
            Some(cards) => if cards.len() == n && cards.no_duplicates() {
                Ok(cards)
            } else {
                Err(())
            },
            None => Err(()),
        }
    }
}

/// The board that a text names: ASCII only; the mark `x` for the empty
/// board, or three, four or five card tokens, no card twice.
pub open spec fn board_of_text(t: Seq<char>) -> Result<Seq<Card>, ()> {
    if !is_ascii_chars(t) {
        Err(())
    } else if is_empty_mark(t) {
        Ok(Seq::empty())
    } else {
        match tokens(t, 0) {
            Some(cards) => if 3 <= cards.len() <= 5 && cards.no_duplicates() {
                Ok(cards)
            } else {
                Err(())
            },
            None => Err(()),
        }
    }
}

/// The bytes are the characters of the text, one for one.
pub open spec fn spells(b: Seq<u8>, t: Seq<char>) -> bool {
    &&& b.len() == t.len()
    &&& forall|i: int| 0 <= i < b.len() ==> #[trigger] b[i] as char == t[i]
}

fn is_space_byte(x: u8) -> (r: bool)
    ensures
        r == is_space(x as char),
{
    x == 32 || (9 <= x && x <= 13)
}

/// Steps over white space.
fn skip(b: &[u8], from: usize, Ghost(t): Ghost<Seq<char>>) -> (at: usize)
    requires
        spells(b@, t),
        from <= b@.len(),
    ensures
        at == skip_spaces(t, from as int),
        from <= at <= b@.len(),
{
    let mut at = from;
    while at < b.len() && is_space_byte(b[at])
        invariant
            spells(b@, t),
            from <= at <= b@.len(),
            skip_spaces(t, at as int) == skip_spaces(t, from as int),
        decreases b@.len() - at,
    {
        at += 1;
    }
    at
}

/// Reads card tokens up to the end of the text.
fn read_tokens(b: &[u8], Ghost(t): Ghost<Seq<char>>) -> (r: Option<Vec<Card>>)
    requires
        spells(b@, t),
    ensures
        match r {
            Some(cards) => tokens(t, 0) == Some(cards@),
            None => tokens(t, 0) is None,
        },
{
    let mut cards: Vec<Card> = Vec::new();
    let mut from: usize = 0;
    loop
        invariant
            spells(b@, t),
            from <= b@.len(),
            match tokens(t, from as int) {
                Some(rest) => tokens(t, 0) == Some(cards@ + rest),
                None => tokens(t, 0) is None,
            },
        decreases b@.len() - from,
    {
        let at = skip(b, from, Ghost(t));
        if at >= b.len() {
            assert(cards@ + Seq::<Card>::empty() =~= cards@);
            return Some(cards);
        }
        if b.len() - at < 2 {
            return None;
        }
        let ghost token = t.subrange(at as int, at + 2);
        assert(token[0] == b@[at as int] as char && token[1] == b@[at + 1] as char);
        match (Value::from_char(b[at] as char), Suit::from_char(b[at + 1] as char)) {
            (Some(v), Some(u)) => {
                let ghost before = cards@;
                cards.push(Card(v, u));
                proof {
                    let rest = tokens(t, at + 2);
                    if rest is Some {
                        assert(before + (seq![Card(v, u)] + rest->0) =~= cards@ + rest->0);
                    }
                }
                from = at + 2;
            },
            _ => {
                return None;
            },
        }
    }
}

/// Tells whether the text is the mark of an empty board.
fn reads_empty_mark(b: &[u8], Ghost(t): Ghost<Seq<char>>) -> (r: bool)
    requires
        spells(b@, t),
    ensures
        r == is_empty_mark(t),
{
    let at = skip(b, 0, Ghost(t));
    if at < b.len() && b[at] == 120 {
        skip(b, at + 1, Ghost(t)) == b.len()
    } else {
        false
    }
}

/// The bytes of an ASCII text are its characters.
proof fn lemma_ascii_spells(s: &str)
    requires
        s.is_ascii(),
    ensures
        spells(s.spec_bytes(), s@),
{
    is_ascii_spec_bytes(s);
}

impl<const N: usize> CardsCombined<N> {
    /// Reads a set of `N` cards from its text: the card tokens one after
    /// the other, with or without white space between and around them.
    /// Text that is not ASCII, a token that names no card, another number
    /// of cards than `N` and a card named twice are refused.
    pub fn parse(s: &str) -> (r: Result<Self, ()>)
        ensures
            match r {
                Ok(cards) => cards_of_text(s@, N as nat) == Ok::<Seq<Card>, ()>(cards@),
                Err(_) => cards_of_text(s@, N as nat) is Err,
            },
    {
        if !s.is_ascii() {
            return Err(());
        }
        let b = s.as_bytes();
        proof {
            lemma_ascii_spells(s);
        }
        if N == 0 {
            if b.len() != 0 {
                return Err(());
            }
            let none: Vec<Card> = Vec::new();
            return Ok(CardsCombined::from_slice(none.as_slice()));
        }
        match read_tokens(b, Ghost(s@)) {
            Some(cards) => {
                if cards.len() == N && all_unique(cards.as_slice()) {
                    Ok(CardsCombined::from_slice(cards.as_slice()))
                } else {
                    Err(())
                }
            },
            None => Err(()),
        }
    }
}

impl<const N: usize> FromStr for CardsCombined<N> {
    type Err = ();

    fn from_str(s: &str) -> (r: Result<Self, Self::Err>)
        ensures
            match r {
                Ok(cards) => cards_of_text(s@, N as nat) == Ok::<Seq<Card>, ()>(cards@),
                Err(_) => cards_of_text(s@, N as nat) is Err,
            },
    {
        CardsCombined::parse(s)
    }
}

impl Board {
    /// Reads a board from its text: `x` for the empty board, or the card
    /// tokens of flop, turn and river, with or without white space between
    /// and around them.
    pub fn parse(s: &str) -> (r: Result<Self, ()>)
        ensures
            match r {
                Ok(board) => board_of_text(s@) == Ok::<Seq<Card>, ()>(board@),
                Err(_) => board_of_text(s@) is Err,
            },
    {
        if !s.is_ascii() {
            return Err(());
        }
        let b = s.as_bytes();
        proof {
            lemma_ascii_spells(s);
        }
        if reads_empty_mark(b, Ghost(s@)) {
            return Ok(Board::default());
        }
        match read_tokens(b, Ghost(s@)) {
            Some(cards) => {
                if cards.len() == 0 {
                    return Err(());
                }
                match Board::from_slice(cards.as_slice()) {
                    Some(board) => Ok(board),
                    None => Err(()),
                }
            },
            None => Err(()),
        }
    }
}

impl FromStr for Board {
    type Err = ();

    fn from_str(s: &str) -> (r: Result<Self, Self::Err>)
        ensures
            match r {
                Ok(board) => board_of_text(s@) == Ok::<Seq<Card>, ()>(board@),
                Err(_) => board_of_text(s@) is Err,
            },
    {
        Board::parse(s)
    }
}

} // verus!
