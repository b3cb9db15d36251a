use pokerbot::gameplay::{headsup::Deck, DisplayMode};

#[test]
fn test_deck_display() {
    let deck = Deck::default();

    // Test Ascii display
    let display = deck.display(DisplayMode::Ascii);
    let output = display.to_string();

    // Verify that the output contains all 52 cards
    assert!(output.contains("As"));
    assert!(output.contains("Kh"));
    assert!(output.contains("Qd"));
    assert!(output.contains("Jc"));
    assert!(output.contains("2s"));

    // Verify that the output has multiple lines (due to cards_per_row)
    assert!(output.contains('\n'));

    // Test Unicode display
    let display = deck.display(DisplayMode::Unicode);
    let output = display.to_string();

    // Verify that the output contains Unicode symbols
    assert!(output.contains("♠"));
    assert!(output.contains("♥"));
    assert!(output.contains("♦"));
    assert!(output.contains("♣"));
}

#[test]
fn a_deck_is_drawn_in_rows_of_thirteen() {
    let text = Deck::default().display(DisplayMode::Ascii).to_string();
    let rows: Vec<&str> = text.split('\n').collect();
    assert_eq!(rows.len(), 4);
    assert_eq!(rows[0], "2s 2h 2d 2c 3s 3h 3d 3c 4s 4h 4d 4c 5s");
    assert_eq!(rows[3], "Jc Qs Qh Qd Qc Ks Kh Kd Kc As Ah Ad Ac");
    for row in rows {
        assert_eq!(row.split(' ').count(), 13);
    }
}
