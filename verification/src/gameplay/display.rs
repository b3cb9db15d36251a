//! Cards, card sets and boards as text, in four display modes.

use super::board::Board;
use super::card::{Card, DisplayMode, Suit, Value};
use super::cards::CardsCombined;
use super::headsup::Deck;
use vstd::prelude::*;
use vstd::slice::slice_subrange;
use vstd::string::StringExecFns;

verus! {

/// A suit, to be drawn in a display mode.
#[derive(Debug, PartialEq, Eq, Clone, Copy, Hash)]
pub struct SuitDisplay {
    pub suit: Suit,
    pub mode: DisplayMode,
}

/// A card, to be drawn in a display mode.
#[derive(Debug, PartialEq, Eq, Clone, Copy, Hash)]
pub struct CardDisplay {
    pub card: Card,
    pub mode: DisplayMode,
}

/// A set of cards, to be drawn in a display mode.
#[derive(Debug, PartialEq, Eq, Clone, Copy, Hash)]
pub struct CardsDisplay<const N: usize> {
    pub cards: CardsCombined<N>,
    pub mode: DisplayMode,
}

/// A board, to be drawn in a display mode.
#[derive(Debug, PartialEq, Eq, Clone, Copy, Hash)]
pub struct BoardDisplay {
    pub board: Board,
    pub mode: DisplayMode,
}

/// The pip of a suit: black spade, heart, diamond and club suit.
pub open spec fn pip(suit: Suit) -> char {
    match suit {
        Suit::Spades => '\u{2660}',
        Suit::Hearts => '\u{2665}',
        Suit::Diamonds => '\u{2666}',
        Suit::Clubs => '\u{2663}',
    }
}

/// The suit as text: its letter in ASCII, its pip in the Unicode modes, its
/// pip with the emoji selector behind it in the emoji mode.
pub open spec fn suit_text(suit: Suit, mode: DisplayMode) -> Seq<char> {
    match mode {
        DisplayMode::Ascii => seq![suit.symbol()],
        DisplayMode::Unicode | DisplayMode::ColoredUnicode => seq![pip(suit)],
        DisplayMode::ColoredEmoji => seq![pip(suit), '\u{fe0f}'],
    }
}

/// The card is drawn in red: a heart or a diamond in the coloured Unicode
/// mode.
pub open spec fn in_red(card: Card, mode: DisplayMode) -> bool {
    mode == DisplayMode::ColoredUnicode && card.spec_is_red()
}

/// The escape sequence that turns the colour to bright red.
pub open spec fn red_on() -> Seq<char> {
    seq!['\u{1b}', '[', '9', '1', 'm']
}

/// The escape sequence that turns the colour back.
pub open spec fn red_off() -> Seq<char> {
    seq!['\u{1b}', '[', '0', 'm']
}

/// The card as text: the rank character, a space in the Unicode modes,
/// then the suit; between the two colour sequences where it is drawn in
/// red.
pub open spec fn card_text(card: Card, mode: DisplayMode) -> Seq<char> {
    let plain = seq![card.0.symbol()] + (if mode.spec_is_unicode() {
        seq![' ']
    } else {
        Seq::empty()
    }) + suit_text(card.1, mode);
    if in_red(card, mode) {
        red_on() + plain + red_off()
    } else {
        plain
    }
}

/// A card drawn in ASCII reads back as the card.
pub proof fn lemma_text_reads_back(card: Card)
    ensures
        Card::of_text(card_text(card, DisplayMode::Ascii)) == Ok::<Card, ()>(card),
{
    let t = card_text(card, DisplayMode::Ascii);
    assert(t =~= seq![card.0.symbol(), card.1.symbol()]);
}

/// A text that reads as a card is what the card is drawn as in ASCII.
pub proof fn lemma_read_draws_back(text: Seq<char>, card: Card)
    requires
        Card::of_text(text) == Ok::<Card, ()>(card),
    ensures
        card_text(card, DisplayMode::Ascii) == text,
{
    assert(card_text(card, DisplayMode::Ascii) =~= text);
}

/// What stands between two cards of a set: one space in ASCII, else two.
pub open spec fn card_gap(mode: DisplayMode) -> Seq<char> {
    if mode == DisplayMode::Ascii {
        seq![' ']
    } else {
        seq![' ', ' ']
    }
}

/// The cards as text, one after the other with the gap between them.
pub open spec fn cards_text(cards: Seq<Card>, mode: DisplayMode) -> Seq<char>
    decreases cards.len(),
{
    if cards.len() == 0 {
        Seq::empty()
    } else if cards.len() == 1 {
        card_text(cards[0], mode)
    } else {
        cards_text(cards.drop_last(), mode) + card_gap(mode) + card_text(cards.last(), mode)
    }
}

/// What stands between the streets of a board: two spaces in ASCII, three
/// in the Unicode modes, four in the emoji mode.
pub open spec fn street_gap(mode: DisplayMode) -> Seq<char> {
    match mode {
        DisplayMode::Ascii => seq![' ', ' '],
        DisplayMode::Unicode | DisplayMode::ColoredUnicode => seq![' ', ' ', ' '],
        DisplayMode::ColoredEmoji => seq![' ', ' ', ' ', ' '],
    }
}

/// The board as text: `x` before the flop; else the flop as a set of
/// cards, then the turn and the river card, each behind a street gap.
pub open spec fn board_text(board: Seq<Card>, mode: DisplayMode) -> Seq<char> {
    if board.len() < 3 {
        seq!['x']
    } else {
        let flop = cards_text(board.take(3), mode);
        if board.len() == 3 {
            flop
        } else if board.len() == 4 {
            flop + street_gap(mode) + card_text(board[3], mode)
        } else {
            flop + street_gap(mode) + card_text(board[3], mode) + street_gap(mode) + card_text(
                board[4],
                mode,
            )
        }
    }
}

/// A deck, to be drawn in a display mode.
#[derive(Debug, PartialEq, Eq, Clone, Copy, Hash)]
pub struct DeckDisplay {
    pub deck: Deck,
    pub mode: DisplayMode,
}

/// How many cards of a deck stand in one row.
pub const CARDS_PER_ROW: usize = 13;

/// The cards in rows of thirteen, each row as a set of cards, with a line
/// feed between two rows.
pub open spec fn rows_text(cards: Seq<Card>, mode: DisplayMode) -> Seq<char>
    decreases cards.len(),
{
    if cards.len() <= CARDS_PER_ROW {
        cards_text(cards, mode)
    } else {
        cards_text(cards.take(CARDS_PER_ROW as int), mode) + seq!['\n'] + rows_text(
            cards.skip(CARDS_PER_ROW as int),
            mode,
        )
    }
}

/// The rank character as a text of its own.
fn value_str(value: Value) -> (s: &'static str)
    ensures
        s@ == seq![value.symbol()],
{
    proof {
        reveal_strlit("2");
        reveal_strlit("3");
        reveal_strlit("4");
        reveal_strlit("5");
        reveal_strlit("6");
        reveal_strlit("7");
        reveal_strlit("8");
        reveal_strlit("9");
        reveal_strlit("T");
        reveal_strlit("J");
        reveal_strlit("Q");
        reveal_strlit("K");
        reveal_strlit("A");
    }
    let s = match value {
        Value::Deuce => "2",
        Value::Trey => "3",
        Value::Four => "4",
        Value::Five => "5",
        Value::Six => "6",
        Value::Seven => "7",
        Value::Eight => "8",
        Value::Nine => "9",
        Value::Ten => "T",
        Value::Jack => "J",
        Value::Queen => "Q",
        Value::King => "K",
        Value::Ace => "A",
    };
    assert(s@ =~= seq![value.symbol()]);
    s
}

/// The suit as text.
fn suit_str(suit: Suit, mode: DisplayMode) -> (s: &'static str)
    ensures
        s@ == suit_text(suit, mode),
{
    proof {
        reveal_strlit("s");
        reveal_strlit("h");
        reveal_strlit("d");
        reveal_strlit("c");
        reveal_strlit("\u{2660}");
        reveal_strlit("\u{2665}");
        reveal_strlit("\u{2666}");
        reveal_strlit("\u{2663}");
        reveal_strlit("\u{2660}\u{fe0f}");
        reveal_strlit("\u{2665}\u{fe0f}");
        reveal_strlit("\u{2666}\u{fe0f}");
        reveal_strlit("\u{2663}\u{fe0f}");
    }
    let s = match suit {
        Suit::Spades => match mode {
            DisplayMode::Ascii => "s",
            DisplayMode::Unicode | DisplayMode::ColoredUnicode => "\u{2660}",
            DisplayMode::ColoredEmoji => "\u{2660}\u{fe0f}",
        },
        Suit::Hearts => match mode {
            DisplayMode::Ascii => "h",
            DisplayMode::Unicode | DisplayMode::ColoredUnicode => "\u{2665}",
            DisplayMode::ColoredEmoji => "\u{2665}\u{fe0f}",
        },
        Suit::Diamonds => match mode {
            DisplayMode::Ascii => "d",
            DisplayMode::Unicode | DisplayMode::ColoredUnicode => "\u{2666}",
            DisplayMode::ColoredEmoji => "\u{2666}\u{fe0f}",
        },
        Suit::Clubs => match mode {
            DisplayMode::Ascii => "c",
            DisplayMode::Unicode | DisplayMode::ColoredUnicode => "\u{2663}",
            DisplayMode::ColoredEmoji => "\u{2663}\u{fe0f}",
        },
    };
    assert(s@ =~= suit_text(suit, mode));
    s
}

/// What stands between two cards of a set.
fn card_gap_str(mode: DisplayMode) -> (s: &'static str)
    ensures
        s@ == card_gap(mode),
{
    proof {
        reveal_strlit(" ");
        reveal_strlit("  ");
    }
    let s = if mode == DisplayMode::Ascii {
        " "
    } else {
        "  "
    };
    assert(s@ =~= card_gap(mode));
    s
}

/// What stands between the streets of a board.
fn street_gap_str(mode: DisplayMode) -> (s: &'static str)
    ensures
        s@ == street_gap(mode),
{
    proof {
        reveal_strlit("  ");
        reveal_strlit("   ");
        reveal_strlit("    ");
    }
    let s = match mode {
        DisplayMode::Ascii => "  ",
        DisplayMode::Unicode | DisplayMode::ColoredUnicode => "   ",
        DisplayMode::ColoredEmoji => "    ",
    };
    assert(s@ =~= street_gap(mode));
    s
}

/// Appends the text of a card.
fn push_card(out: &mut String, card: Card, mode: DisplayMode)
    ensures
        final(out)@ == old(out)@ + card_text(card, mode),
{
    proof {
        reveal_strlit("\u{1b}[91m");
        reveal_strlit("\u{1b}[0m");
        reveal_strlit(" ");
    }
    let red = mode == DisplayMode::ColoredUnicode && card.is_red();
    if red {
        out.append("\u{1b}[91m");
    }
    out.append(value_str(card.0));
    if mode.is_unicode() {
        out.append(" ");
    }
    out.append(suit_str(card.1, mode));
    if red {
        out.append("\u{1b}[0m");
    }
    assert(out@ =~= old(out)@ + card_text(card, mode));
}

/// Appends the text of some cards.
fn push_cards(out: &mut String, cards: &[Card], mode: DisplayMode)
    ensures
        final(out)@ == old(out)@ + cards_text(cards@, mode),
{
    let mut i: usize = 0;
    assert(cards@.take(0) =~= Seq::<Card>::empty());
    assert(out@ =~= old(out)@ + cards_text(cards@.take(0), mode));
    while i < cards.len()
        invariant
            i <= cards@.len(),
            out@ == old(out)@ + cards_text(cards@.take(i as int), mode),
        decreases cards@.len() - i,
    {
        let ghost before = out@;
        if i > 0 {
            out.append(card_gap_str(mode));
        }
        let ghost mid = out@;
        push_card(out, cards[i], mode);
        proof {
            let next = cards@.take(i + 1);
            let step = card_text(cards@[i as int], mode);
            let done = cards_text(cards@.take(i as int), mode);
            assert(next.drop_last() =~= cards@.take(i as int));
            assert(next.last() == cards@[i as int]);
            assert(out@ == mid + step);
            if i == 0 {
                assert(next[0] == cards@[0]);
                assert(done =~= Seq::<char>::empty());
                assert(cards_text(next, mode) == step);
                assert(mid =~= old(out)@);
            } else {
                assert(mid =~= before + card_gap(mode));
                assert(cards_text(next, mode) == done + card_gap(mode) + step);
                assert(out@ =~= old(out)@ + (done + card_gap(mode) + step));
            }
        }
        i += 1;
    }
    assert(cards@.take(cards@.len() as int) =~= cards@);
}

impl Suit {
    pub fn display(self, mode: DisplayMode) -> (r: SuitDisplay)
        ensures
            r == (SuitDisplay { suit: self, mode }),
    {
        SuitDisplay { suit: self, mode }
    }
}

impl SuitDisplay {
    /// The suit as text in its display mode.
    pub fn to_string(&self) -> (r: String)
        ensures
            r@ == suit_text(self.suit, self.mode),
    {
        let mut out = String::new();
        out.append(suit_str(self.suit, self.mode));
        assert(out@ =~= suit_text(self.suit, self.mode));
        out
    }
}

impl Card {
    pub fn display(self, mode: DisplayMode) -> (r: CardDisplay)
        ensures
            r == (CardDisplay { card: self, mode }),
    {
        CardDisplay { card: self, mode }
    }
}

impl CardDisplay {
    /// The card as text in its display mode.
    pub fn to_string(&self) -> (r: String)
        ensures
            r@ == card_text(self.card, self.mode),
    {
        let mut out = String::new();
        push_card(&mut out, self.card, self.mode);
        assert(out@ =~= card_text(self.card, self.mode));
        out
    }
}

impl<const N: usize> CardsCombined<N> {
    pub fn display(self, mode: DisplayMode) -> (r: CardsDisplay<N>)
        ensures
            r == (CardsDisplay { cards: self, mode }),
    {
        CardsDisplay { cards: self, mode }
    }
}

impl<const N: usize> CardsDisplay<N> {
    /// The cards as text in their display mode.
    pub fn to_string(&self) -> (r: String)
        ensures
            r@ == cards_text(self.cards@, self.mode),
    {
        let mut out = String::new();
        let held = self.cards.cards();
        push_cards(&mut out, held.as_slice(), self.mode);
        assert(out@ =~= cards_text(self.cards@, self.mode));
        out
    }
}

impl Deck {
    pub fn display(self, mode: DisplayMode) -> (r: DeckDisplay)
        ensures
            r == (DeckDisplay { deck: self, mode }),
    {
        DeckDisplay { deck: self, mode }
    }
}

impl DeckDisplay {
    /// The deck as text in its display mode.
    pub fn to_string(&self) -> (r: String)
        ensures
            r@ == rows_text(self.deck@, self.mode),
    {
        let cards = self.deck.cards();
        let mut out = String::new();
        let mut from: usize = 0;
        proof {
            assert(cards@.skip(0) =~= cards@);
            assert(out@ + rows_text(cards@, self.mode) =~= rows_text(cards@, self.mode));
        }
        while 52 - from > CARDS_PER_ROW
            invariant
                from <= 52,
                cards@ == self.deck@,
                out@ + rows_text(cards@.skip(from as int), self.mode) == rows_text(
                    cards@,
                    self.mode,
                ),
            decreases 52 - from,
        {
            proof {
                reveal_strlit("\n");
            }
            let ghost rest = cards@.skip(from as int);
            let ghost before = out@;
            let row = slice_subrange(cards.as_slice(), from, from + CARDS_PER_ROW);
            assert(row@ =~= rest.take(CARDS_PER_ROW as int));
            push_cards(&mut out, row, self.mode);
            out.append("\n");
            from += CARDS_PER_ROW;
            proof {
                assert(rest.skip(CARDS_PER_ROW as int) =~= cards@.skip(from as int));
                assert(out@ + rows_text(cards@.skip(from as int), self.mode) =~= before
                    + rows_text(rest, self.mode));
            }
        }
        let ghost before = out@;
        let row = slice_subrange(cards.as_slice(), from, 52);
        assert(row@ =~= cards@.skip(from as int));
        push_cards(&mut out, row, self.mode);
        out
    }
}

impl Board {
    pub fn display(self, mode: DisplayMode) -> (r: BoardDisplay)
        ensures
            r == (BoardDisplay { board: self, mode }),
    {
        BoardDisplay { board: self, mode }
    }
}

impl BoardDisplay {
    /// The board as text in its display mode.
    pub fn to_string(&self) -> (r: String)
        ensures
            r@ == board_text(self.board@, self.mode),
    {
        proof {
            reveal_strlit("x");
        }
        let cards = self.board.to_vec();
        let mode = self.mode;
        let mut out = String::new();
        if cards.len() < 3 {
            out.append("x");
            assert(out@ =~= seq!['x']);
            return out;
        }
        let flop = [cards[0], cards[1], cards[2]];
        assert(flop@ =~= cards@.take(3));
        push_cards(&mut out, flop.as_slice(), mode);
        let mut i: usize = 3;
        while i < cards.len()
            invariant
                3 <= i <= cards@.len() <= 5,
                cards@ == self.board@,
                i == 3 ==> out@ == cards_text(cards@.take(3), mode),
                i == 4 ==> out@ == cards_text(cards@.take(3), mode) + street_gap(mode) + card_text(
                    cards@[3],
                    mode,
                ),
                i == 5 ==> out@ == cards_text(cards@.take(3), mode) + street_gap(mode) + card_text(
                    cards@[3],
                    mode,
                ) + street_gap(mode) + card_text(cards@[4], mode),
            decreases cards@.len() - i,
        {
            out.append(street_gap_str(mode));
            push_card(&mut out, cards[i], mode);
            i += 1;
        }
        out
    }
}

} // verus!
