use pokerbot::gameplay::{Card, CardsCombined, FullBoard, HandValue, Hole, SortedHandValue, Value};

fn full(text: &str) -> FullBoard {
    text.parse().unwrap()
}

fn hole(text: &str) -> Hole {
    text.parse().unwrap()
}

#[test]
fn seven_cards_keep_holding_first_then_board() {
    let seven = full("2c 7d 9h Js Ks").to_seven(hole("As Ad"));
    let want: [Card; 7] = [
        "As".parse().unwrap(),
        "Ad".parse().unwrap(),
        "2c".parse().unwrap(),
        "7d".parse().unwrap(),
        "9h".parse().unwrap(),
        "Js".parse().unwrap(),
        "Ks".parse().unwrap(),
    ];
    assert_eq!(seven.cards(), want);
}

#[test]
fn best_hand_is_the_strongest_of_the_twenty_one() {
    let seven: CardsCombined<7> = "As Kd 9h 9c 4s 4d 2c".parse().unwrap();
    let best = seven.hand_value();
    assert_eq!(best.0, SortedHandValue::TwoPair([Value::Nine, Value::Four, Value::Ace]));
    let cards = seven.cards();
    let mut count = 0;
    let mut reached = false;
    for a in 0..7 {
        for b in (a + 1)..7 {
            let mut five = Vec::new();
            for (i, c) in cards.iter().enumerate() {
                if i != a && i != b {
                    five.push(*c);
                }
            }
            let hand = FullBoard::new([five[0], five[1], five[2], five[3], five[4]]).unwrap();
            let value = HandValue::from(hand);
            assert!(value <= best);
            if value == best {
                reached = true;
            }
            count += 1;
        }
    }
    assert_eq!(count, 21);
    assert!(reached);
}

#[test]
fn best_hand_finds_what_five_cards_hide() {
    assert_eq!(
        "2h 3h 4h 5h 6h 7h 8h".parse::<CardsCombined<7>>().unwrap().hand_value().0,
        SortedHandValue::StraightFlush(Value::Eight)
    );
    assert_eq!(
        "As Ah Ad Kc Ks Kd 2c".parse::<CardsCombined<7>>().unwrap().hand_value().0,
        SortedHandValue::FullHouse([Value::Ace, Value::King])
    );
    assert_eq!(
        "As 2h 3d 4c 5s 9d Kc".parse::<CardsCombined<7>>().unwrap().hand_value().0,
        SortedHandValue::Straight(Value::Five)
    );
    assert_eq!(
        full("2c 7d 9h Js Ks").hand_value(hole("As Ad")).0,
        SortedHandValue::OnePair([Value::Ace, Value::King, Value::Jack, Value::Nine])
    );
}

#[test]
fn showdown_names_the_winner() {
    let board = full("2c 7d 9h Js Ks");
    let (value, first) = board.who_wins(hole("As Ad"), hole("Kd Kc"));
    assert_eq!(first, Some(false));
    assert_eq!(value.0, SortedHandValue::Trips([Value::King, Value::Jack, Value::Nine]));
    let (value, first) = board.who_wins(hole("Kd Kc"), hole("As Ad"));
    assert_eq!(first, Some(true));
    assert_eq!(value.0, SortedHandValue::Trips([Value::King, Value::Jack, Value::Nine]));
    let (value, first) = board.who_wins(hole("Qd Td"), hole("Qc Tc"));
    assert_eq!(first, None);
    assert_eq!(value.0, SortedHandValue::Straight(Value::King));
}

#[test]
fn showdown_on_the_board_is_a_tie() {
    let board = full("Ts Js Qs Ks As");
    let (value, first) = board.who_wins(hole("2c 2d"), hole("Ah Ad"));
    assert_eq!(first, None);
    assert_eq!(value.0, SortedHandValue::RoyalFlush);
}

#[test]
fn board_alone_can_be_the_nuts() {
    assert!(full("Ts Js Qs Ks As").is_nuts());
    assert!(full("As Ah Ad Ac Ks").is_nuts());
    assert!(full("Ks Kh Kd Kc As").is_nuts());
    assert!(full("2s 2h 2d 2c As").is_nuts());
    assert!(!full("As Ah Ad Ac Qs").is_nuts());
    assert!(!full("Ks Kh Kd Kc Qs").is_nuts());
    assert!(full("Ts Jh Qd Kc As").is_nuts());
    assert!(full("Ts Js Qd Kc Ah").is_nuts());
    assert!(!full("Ts Js Qs Kc Ah").is_nuts());
    assert!(!full("9s Th Jd Qc Ks").is_nuts());
    assert!(!full("9s Ts Js Qs Ks").is_nuts());
    assert!(!full("As Ah Ad Kc Ks").is_nuts());
    assert!(!full("2s 9s Js Ks As").is_nuts());
}
