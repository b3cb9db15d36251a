use pokerbot::gameplay::{Board, Card, DisplayMode, Hole, Suit};

fn dcard(text: &str) -> Card {
    text.parse().unwrap()
}

#[test]
fn a_card_is_drawn_in_each_mode() {
    assert_eq!(dcard("As").display(DisplayMode::Ascii).to_string(), "As");
    assert_eq!(dcard("Th").display(DisplayMode::Ascii).to_string(), "Th");
    assert_eq!(dcard("As").display(DisplayMode::Unicode).to_string(), "A \u{2660}");
    assert_eq!(dcard("Th").display(DisplayMode::Unicode).to_string(), "T \u{2665}");
    assert_eq!(dcard("As").display(DisplayMode::ColoredUnicode).to_string(), "A \u{2660}");
    assert_eq!(dcard("Th").display(DisplayMode::ColoredUnicode).to_string(), "\u{1b}[91mT \u{2665}\u{1b}[0m");
    assert_eq!(dcard("2d").display(DisplayMode::ColoredUnicode).to_string(), "\u{1b}[91m2 \u{2666}\u{1b}[0m");
    assert_eq!(dcard("2c").display(DisplayMode::ColoredEmoji).to_string(), "2\u{2663}\u{fe0f}");
    assert_eq!(dcard("2d").display(DisplayMode::ColoredEmoji).to_string(), "2\u{2666}\u{fe0f}");
}

#[test]
fn a_suit_is_drawn_in_each_mode() {
    assert_eq!(Suit::Spades.display(DisplayMode::Ascii).to_string(), "s");
    assert_eq!(Suit::Hearts.display(DisplayMode::Ascii).to_string(), "h");
    assert_eq!(Suit::Diamonds.display(DisplayMode::Unicode).to_string(), "\u{2666}");
    assert_eq!(Suit::Clubs.display(DisplayMode::ColoredUnicode).to_string(), "\u{2663}");
    assert_eq!(Suit::Spades.display(DisplayMode::ColoredEmoji).to_string(), "\u{2660}\u{fe0f}");
    assert!(DisplayMode::Unicode.is_unicode());
    assert!(DisplayMode::ColoredUnicode.is_unicode());
    assert!(!DisplayMode::Ascii.is_unicode());
    assert!(!DisplayMode::ColoredEmoji.is_unicode());
}

#[test]
fn reading_and_drawing_a_card_undo_each_other() {
    for rank in "23456789TJQKA".chars() {
        for suit in "shdc".chars() {
            let text = format!("{}{}", rank, suit);
            let card: Card = text.parse().unwrap();
            assert_eq!(card.display(DisplayMode::Ascii).to_string(), text);
            assert_eq!(card.display(DisplayMode::Ascii).to_string().parse::<Card>(), Ok(card));
        }
    }
}

#[test]
fn a_set_is_drawn_with_gaps() {
    let hole: Hole = "As Kh".parse().unwrap();
    assert_eq!(hole.display(DisplayMode::Ascii).to_string(), "As Kh");
    assert_eq!(hole.display(DisplayMode::Unicode).to_string(), "A \u{2660}  K \u{2665}");
    assert_eq!(hole.display(DisplayMode::ColoredEmoji).to_string(), "A\u{2660}\u{fe0f}  K\u{2665}\u{fe0f}");
    assert_eq!(hole.display(DisplayMode::Ascii).to_string().parse::<Hole>(), Ok(hole));
}

#[test]
fn a_board_is_drawn_street_by_street() {
    assert_eq!(Board::default().display(DisplayMode::Ascii).to_string(), "x");
    assert_eq!(Board::default().display(DisplayMode::ColoredEmoji).to_string(), "x");
    let flop: Board = "As Kh 2c".parse().unwrap();
    let turn = flop.turn(dcard("7d")).unwrap();
    let river = turn.river(dcard("9s")).unwrap();
    assert_eq!(flop.display(DisplayMode::Ascii).to_string(), "As Kh 2c");
    assert_eq!(turn.display(DisplayMode::Ascii).to_string(), "As Kh 2c  7d");
    assert_eq!(river.display(DisplayMode::Ascii).to_string(), "As Kh 2c  7d  9s");
    assert_eq!(
        river.display(DisplayMode::Unicode).to_string(),
        "A \u{2660}  K \u{2665}  2 \u{2663}   7 \u{2666}   9 \u{2660}"
    );
    assert_eq!(
        turn.display(DisplayMode::ColoredEmoji).to_string(),
        "A\u{2660}\u{fe0f}  K\u{2665}\u{fe0f}  2\u{2663}\u{fe0f}    7\u{2666}\u{fe0f}"
    );
    assert_eq!(river.display(DisplayMode::Ascii).to_string().parse::<Board>(), Ok(river));
    assert_eq!(Board::default().display(DisplayMode::Ascii).to_string().parse::<Board>(), Ok(Board::default()));
}
