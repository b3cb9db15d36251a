//! Ranks, suits and single cards, with their text tokens.

use std::str::FromStr;
use vstd::prelude::*;
use vstd::string::StrSliceExecFns;

verus! {

/// The thirteen ranks, lowest first.
#[derive(Debug, PartialEq, Eq, PartialOrd, Ord, Clone, Copy, Hash, Structural)]
pub enum Value {
    Deuce,
    Trey,
    Four,
    Five,
    Six,
    Seven,
    Eight,
    Nine,
    Ten,
    Jack,
    Queen,
    King,
    Ace,
}

/// The straight ordinal at which an Ace counts high.
pub const ACE_HIGH: u8 = 13;

impl Value {
    /// Position of the rank in the order Deuce < Trey < ... < Ace, from 0.
    pub open spec fn ordinal(self) -> int {
        match self {
            Value::Deuce => 0,
            Value::Trey => 1,
            Value::Four => 2,
            Value::Five => 3,
            Value::Six => 4,
            Value::Seven => 5,
            Value::Eight => 6,
            Value::Nine => 7,
            Value::Ten => 8,
            Value::Jack => 9,
            Value::Queen => 10,
            Value::King => 11,
            Value::Ace => 12,
        }
    }

    /// Position of the rank on the straight scale, where Deuce is 1 and
    /// Ace is 13 (an Ace may also stand at 0, below the Deuce).
    pub open spec fn straight_ordinal(self) -> int {
        self.ordinal() + 1
    }

    /// The rank that stands at `o` on the straight scale; 0 and 13 are both
    /// the Ace.
    pub open spec fn of_straight_ordinal(o: int) -> Value {
        if o == 1 {
            Value::Deuce
        } else if o == 2 {
            Value::Trey
        } else if o == 3 {
            Value::Four
        } else if o == 4 {
            Value::Five
        } else if o == 5 {
            Value::Six
        } else if o == 6 {
            Value::Seven
        } else if o == 7 {
            Value::Eight
        } else if o == 8 {
            Value::Nine
        } else if o == 9 {
            Value::Ten
        } else if o == 10 {
            Value::Jack
        } else if o == 11 {
            Value::Queen
        } else if o == 12 {
            Value::King
        } else {
            Value::Ace
        }
    }

    /// The rank character of the text form.
    pub open spec fn symbol(self) -> char {
        match self {
            Value::Deuce => '2',
            Value::Trey => '3',
            Value::Four => '4',
            Value::Five => '5',
            Value::Six => '6',
            Value::Seven => '7',
            Value::Eight => '8',
            Value::Nine => '9',
            Value::Ten => 'T',
            Value::Jack => 'J',
            Value::Queen => 'Q',
            Value::King => 'K',
            Value::Ace => 'A',
        }
    }

    /// The rank that a character names, if any.
    pub open spec fn of_symbol(c: char) -> Option<Value> {
        if c == '2' {
            Some(Value::Deuce)
        } else if c == '3' {
            Some(Value::Trey)
        } else if c == '4' {
            Some(Value::Four)
        } else if c == '5' {
            Some(Value::Five)
        } else if c == '6' {
            Some(Value::Six)
        } else if c == '7' {
            Some(Value::Seven)
        } else if c == '8' {
            Some(Value::Eight)
        } else if c == '9' {
            Some(Value::Nine)
        } else if c == 'T' {
            Some(Value::Ten)
        } else if c == 'J' {
            Some(Value::Jack)
        } else if c == 'Q' {
            Some(Value::Queen)
        } else if c == 'K' {
            Some(Value::King)
        } else if c == 'A' {
            Some(Value::Ace)
        } else {
            None
        }
    }

    /// The rank that a one-character text names.
    pub open spec fn of_text(t: Seq<char>) -> Result<Value, ()> {
        if t.len() == 1 {
            match Value::of_symbol(t[0]) {
                Some(v) => Ok(v),
                None => Err(()),
            }
        } else {
            Err(())
        }
    }

    pub fn as_u8(self) -> (r: u8)
        ensures
            r == self.ordinal(),
    {
        match self {
            Value::Deuce => 0,
            Value::Trey => 1,
            Value::Four => 2,
            Value::Five => 3,
            Value::Six => 4,
            Value::Seven => 5,
            Value::Eight => 6,
            Value::Nine => 7,
            Value::Ten => 8,
            Value::Jack => 9,
            Value::Queen => 10,
            Value::King => 11,
            Value::Ace => 12,
        }
    }

    pub fn as_u8_straight(self) -> (r: u8)
        ensures
            r == self.straight_ordinal(),
            1 <= r <= 13,
    {
        self.as_u8() + 1
    }

    pub fn from_u8_straight(value: u8) -> (r: Value)
        requires
            value <= 13,
        ensures
            r == Value::of_straight_ordinal(value as int),
    {
        match value {
            1 => Value::Deuce,
            2 => Value::Trey,
            3 => Value::Four,
            4 => Value::Five,
            5 => Value::Six,
            6 => Value::Seven,
            7 => Value::Eight,
            8 => Value::Nine,
            9 => Value::Ten,
            10 => Value::Jack,
            11 => Value::Queen,
            12 => Value::King,
            _ => Value::Ace,
        }
    }

    /// The rank character, as `symbol` gives it.
    pub fn to_char(self) -> (c: char)
        ensures
            c == self.symbol(),
    {
        match self {
            Value::Deuce => '2',
            Value::Trey => '3',
            Value::Four => '4',
            Value::Five => '5',
            Value::Six => '6',
            Value::Seven => '7',
            Value::Eight => '8',
            Value::Nine => '9',
            Value::Ten => 'T',
            Value::Jack => 'J',
            Value::Queen => 'Q',
            Value::King => 'K',
            Value::Ace => 'A',
        }
    }

    /// Reads a rank character.
    pub fn from_char(c: char) -> (r: Option<Value>)
        ensures
            r == Value::of_symbol(c),
    {
        match c {
            '2' => Some(Value::Deuce),
            '3' => Some(Value::Trey),
            '4' => Some(Value::Four),
            '5' => Some(Value::Five),
            '6' => Some(Value::Six),
            '7' => Some(Value::Seven),
            '8' => Some(Value::Eight),
            '9' => Some(Value::Nine),
            'T' => Some(Value::Ten),
            'J' => Some(Value::Jack),
            'Q' => Some(Value::Queen),
            'K' => Some(Value::King),
            'A' => Some(Value::Ace),
            _ => None,
        }
    }

    /// Reads a rank from a text of exactly one rank character.
    pub fn parse(s: &str) -> (r: Result<Value, ()>)
        ensures
            r == Value::of_text(s@),
    {
        if s.unicode_len() != 1 {
            return Err(());
        }
        match Value::from_char(s.get_char(0)) {
            Some(v) => Ok(v),
            None => Err(()),
        }
    }
}

impl FromStr for Value {
    type Err = ();

    fn from_str(s: &str) -> (r: Result<Self, Self::Err>)
        ensures
            r == Value::of_text(s@),
    {
        Value::parse(s)
    }
}

/// How a card is drawn as text.
#[derive(Debug, PartialEq, Eq, Clone, Copy, Hash, Structural)]
pub enum DisplayMode {
    Ascii,
    Unicode,
    ColoredUnicode,
    ColoredEmoji,
}

impl DisplayMode {
    pub open spec fn spec_is_unicode(self) -> bool {
        self == DisplayMode::Unicode || self == DisplayMode::ColoredUnicode
    }

    #[verifier::when_used_as_spec(spec_is_unicode)]
    pub fn is_unicode(self) -> (r: bool)
        ensures
            r == self.spec_is_unicode(),
    {
        matches!(self, DisplayMode::Unicode | DisplayMode::ColoredUnicode)
    }
}

/// The four suits.
#[derive(Debug, PartialEq, Eq, Clone, Copy, Hash, Structural)]
pub enum Suit {
    Spades,
    Hearts,
    Diamonds,
    Clubs,
}

impl Suit {
    /// Position of the suit in the order Spades, Hearts, Diamonds, Clubs.
    pub open spec fn ordinal(self) -> int {
        match self {
            Suit::Spades => 0,
            Suit::Hearts => 1,
            Suit::Diamonds => 2,
            Suit::Clubs => 3,
        }
    }

    /// The suit character of the text form.
    pub open spec fn symbol(self) -> char {
        match self {
            Suit::Spades => 's',
            Suit::Hearts => 'h',
            Suit::Diamonds => 'd',
            Suit::Clubs => 'c',
        }
    }

    /// The suit that a character names, if any.
    pub open spec fn of_symbol(c: char) -> Option<Suit> {
        if c == 's' {
            Some(Suit::Spades)
        } else if c == 'h' {
            Some(Suit::Hearts)
        } else if c == 'd' {
            Some(Suit::Diamonds)
        } else if c == 'c' {
            Some(Suit::Clubs)
        } else {
            None
        }
    }

    /// The suit that a one-character text names.
    pub open spec fn of_text(t: Seq<char>) -> Result<Suit, ()> {
        if t.len() == 1 {
            match Suit::of_symbol(t[0]) {
                Some(v) => Ok(v),
                None => Err(()),
            }
        } else {
            Err(())
        }
    }

    pub fn as_u8(self) -> (r: u8)
        ensures
            r == self.ordinal(),
    {
        match self {
            Suit::Spades => 0,
            Suit::Hearts => 1,
            Suit::Diamonds => 2,
            Suit::Clubs => 3,
        }
    }

    /// The suit character, as `symbol` gives it.
    pub fn to_char(self) -> (c: char)
        ensures
            c == self.symbol(),
    {
        match self {
            Suit::Spades => 's',
            Suit::Hearts => 'h',
            Suit::Diamonds => 'd',
            Suit::Clubs => 'c',
        }
    }

    /// Reads a suit character.
    pub fn from_char(c: char) -> (r: Option<Suit>)
        ensures
            r == Suit::of_symbol(c),
    {
        match c {
            's' => Some(Suit::Spades),
            'h' => Some(Suit::Hearts),
            'd' => Some(Suit::Diamonds),
            'c' => Some(Suit::Clubs),
            _ => None,
        }
    }

    /// Reads a suit from a text of exactly one suit character.
    pub fn parse(s: &str) -> (r: Result<Suit, ()>)
        ensures
            r == Suit::of_text(s@),
    {
        if s.unicode_len() != 1 {
            return Err(());
        }
        match Suit::from_char(s.get_char(0)) {
            Some(v) => Ok(v),
            None => Err(()),
        }
    }
}

impl FromStr for Suit {
    type Err = ();

    fn from_str(s: &str) -> (r: Result<Self, Self::Err>)
        ensures
            r == Suit::of_text(s@),
    {
        Suit::parse(s)
    }
}

/// One playing card: a rank and a suit.
#[derive(Debug, PartialEq, Eq, Clone, Copy, Hash, Structural)]
pub struct Card(pub Value, pub Suit);

impl Default for Card {
    fn default() -> (r: Self)
        ensures
            r == Card(Value::Ace, Suit::Spades),
    {
        Card(Value::Ace, Suit::Spades)
    }
}

impl Card {
    /// The key by which cards are put in canonical order: the rank ordinal
    /// times four, plus the suit ordinal.
    pub open spec fn key(self) -> int {
        self.0.ordinal() * 4 + self.1.ordinal()
    }

    /// The card that a text names: exactly a rank character followed by a
    /// suit character.
    pub open spec fn of_text(t: Seq<char>) -> Result<Card, ()> {
        if t.len() == 2 {
            match (Value::of_symbol(t[0]), Suit::of_symbol(t[1])) {
                (Some(v), Some(s)) => Ok(Card(v, s)),
                _ => Err(()),
            }
        } else {
            Err(())
        }
    }

    pub open spec fn spec_is_red(self) -> bool {
        self.1 == Suit::Hearts || self.1 == Suit::Diamonds
    }

    pub fn new(value: Value, suit: Suit) -> (r: Self)
        ensures
            r == Card(value, suit),
    {
        Card(value, suit)
    }

    pub fn value(&self) -> (r: Value)
        ensures
            r == self.0,
    {
        self.0
    }

    pub fn suit(&self) -> (r: Suit)
        ensures
            r == self.1,
    {
        self.1
    }

    pub fn as_u8(self) -> (r: u8)
        ensures
            r == self.key(),
            r < 52,
    {
        self.value().as_u8() * 4 + self.suit().as_u8()
    }

    #[verifier::when_used_as_spec(spec_is_red)]
    pub fn is_red(self) -> (r: bool)
        ensures
            r == self.spec_is_red(),
    {
        matches!(self.suit(), Suit::Hearts | Suit::Diamonds)
    }

    /// Reads a card from its two-character text form. Anything else,
    /// longer, shorter or not ASCII, is refused.
    pub fn parse(s: &str) -> (r: Result<Card, ()>)
        ensures
            r == Card::of_text(s@),
    {
        if s.unicode_len() != 2 {
            return Err(());
        }
        match (Value::from_char(s.get_char(0)), Suit::from_char(s.get_char(1))) {
            (Some(v), Some(u)) => Ok(Card(v, u)),
            _ => Err(()),
        }
    }
}

impl FromStr for Card {
    type Err = ();

    fn from_str(s: &str) -> (r: Result<Self, Self::Err>)
        ensures
            r == Card::of_text(s@),
    {
        Card::parse(s)
    }
}

/// The canonical key tells cards apart.
pub proof fn lemma_key_injective(a: Card, b: Card)
    ensures
        a.key() == b.key() <==> a == b,
        0 <= a.key() < 52,
{
}

} // verus!
