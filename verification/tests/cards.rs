use pokerbot::gameplay::{Card, CardsCombined, Flop, FullBoard, Hole, Suit, Value};
use std::collections::hash_map::DefaultHasher;
use std::hash::{Hash, Hasher};

fn card(text: &str) -> Card {
    text.parse().unwrap()
}

#[test]
fn card_parses_from_its_text() {
    assert_eq!("As".parse::<Card>(), Ok(Card::new(Value::Ace, Suit::Spades)));
    assert_eq!("Td".parse::<Card>(), Ok(Card::new(Value::Ten, Suit::Diamonds)));
    assert_eq!("2c".parse::<Card>(), Ok(Card::new(Value::Deuce, Suit::Clubs)));
    assert_eq!("9h".parse::<Card>(), Ok(Card::new(Value::Nine, Suit::Hearts)));
}

#[test]
fn every_rank_and_suit_character_is_read() {
    let ranks = "23456789TJQKA";
    let values = [
        Value::Deuce,
        Value::Trey,
        Value::Four,
        Value::Five,
        Value::Six,
        Value::Seven,
        Value::Eight,
        Value::Nine,
        Value::Ten,
        Value::Jack,
        Value::Queen,
        Value::King,
        Value::Ace,
    ];
    for (i, c) in ranks.chars().enumerate() {
        assert_eq!(c.to_string().parse::<Value>(), Ok(values[i]));
        assert_eq!(Value::from_char(c), Some(values[i]));
        assert_eq!(values[i].to_char(), c);
    }
    let suits = [Suit::Spades, Suit::Hearts, Suit::Diamonds, Suit::Clubs];
    for (i, c) in "shdc".chars().enumerate() {
        assert_eq!(c.to_string().parse::<Suit>(), Ok(suits[i]));
        assert_eq!(suits[i].to_char(), c);
    }
}

#[test]
fn malformed_tokens_are_refused() {
    assert_eq!("".parse::<Card>(), Err(()));
    assert_eq!("A".parse::<Card>(), Err(()));
    assert_eq!("Asx".parse::<Card>(), Err(()));
    assert_eq!("as".parse::<Card>(), Err(()));
    assert_eq!("AS".parse::<Card>(), Err(()));
    assert_eq!("1s".parse::<Card>(), Err(()));
    assert_eq!("sA".parse::<Card>(), Err(()));
    assert_eq!("A\u{2660}".parse::<Card>(), Err(()));
    assert_eq!("t".parse::<Value>(), Err(()));
    assert_eq!("10".parse::<Value>(), Err(()));
    assert_eq!("S".parse::<Suit>(), Err(()));
    assert_eq!("".parse::<Suit>(), Err(()));
}

#[test]
fn ordinals_follow_the_rank_order() {
    assert_eq!(Value::Deuce.as_u8(), 0);
    assert_eq!(Value::Ace.as_u8(), 12);
    assert_eq!(Value::Deuce.as_u8_straight(), 1);
    assert_eq!(Value::Ace.as_u8_straight(), 13);
    assert_eq!(Value::from_u8_straight(0), Value::Ace);
    assert_eq!(Value::from_u8_straight(13), Value::Ace);
    assert_eq!(Value::from_u8_straight(4), Value::Five);
    assert!(Value::Deuce < Value::Trey);
    assert!(Value::King < Value::Ace);
    assert_eq!(card("As").as_u8(), 48);
    assert_eq!(card("2c").as_u8(), 3);
    assert_eq!(card("Kh").as_u8(), 45);
}

#[test]
fn default_card_is_the_ace_of_spades() {
    assert_eq!(Card::default(), Card::new(Value::Ace, Suit::Spades));
    assert_eq!(card("7d").value(), Value::Seven);
    assert_eq!(card("7d").suit(), Suit::Diamonds);
    assert!(card("7d").is_red());
    assert!(card("7h").is_red());
    assert!(!card("7s").is_red());
    assert!(!card("7c").is_red());
}

#[test]
fn a_set_refuses_a_card_given_twice() {
    assert!(Hole::new([card("As"), card("As")]).is_none());
    assert!(Flop::new([card("As"), card("Kd"), card("As")]).is_none());
    assert!(Hole::new([card("As"), card("Ad")]).is_some());
    assert!(FullBoard::new([card("2c"), card("3c"), card("4c"), card("5c"), card("6c")]).is_some());
}

#[test]
fn a_set_of_text_needs_the_right_count_and_no_repeat() {
    assert!("As Kd".parse::<Hole>().is_ok());
    assert!("AsKd".parse::<Hole>().is_ok());
    assert!("  As\tKd \n".parse::<Hole>().is_ok());
    assert_eq!("As".parse::<Hole>(), Err(()));
    assert_eq!("As Kd Qc".parse::<Hole>(), Err(()));
    assert_eq!("As As".parse::<Hole>(), Err(()));
    assert_eq!("As K".parse::<Hole>(), Err(()));
    assert_eq!("As Kx".parse::<Hole>(), Err(()));
    assert_eq!("A sKd".parse::<Hole>(), Err(()));
    assert_eq!("As Kd\u{a0}".parse::<Hole>(), Err(()));
    assert_eq!("".parse::<Hole>(), Err(()));
    let hole: Hole = "Qh Jc".parse().unwrap();
    assert_eq!(hole.cards(), [card("Qh"), card("Jc")]);
}

#[test]
fn equality_does_not_depend_on_the_order() {
    let a = Flop::new([card("As"), card("Kd"), card("2c")]).unwrap();
    let b = Flop::new([card("2c"), card("As"), card("Kd")]).unwrap();
    let c = Flop::new([card("Kd"), card("2c"), card("As")]).unwrap();
    let d = Flop::new([card("Kd"), card("2c"), card("Ah")]).unwrap();
    assert_eq!(a, b);
    assert_eq!(b, c);
    assert_eq!(a, c);
    assert_ne!(a, d);
    assert_eq!("7h 7c".parse::<Hole>().unwrap(), "7c 7h".parse::<Hole>().unwrap());
}

fn hash_of(cards: &Flop) -> u64 {
    let mut state = DefaultHasher::new();
    cards.hash(&mut state);
    state.finish()
}

#[test]
fn equal_sets_hash_alike() {
    let a = Flop::new([card("As"), card("Kd"), card("2c")]).unwrap();
    let b = Flop::new([card("2c"), card("As"), card("Kd")]).unwrap();
    let d = Flop::new([card("Kd"), card("2c"), card("Ah")]).unwrap();
    assert_eq!(hash_of(&a), hash_of(&b));
    assert_ne!(hash_of(&a), hash_of(&d));
    assert_eq!(a.sorted(), [card("2c"), card("Kd"), card("As")]);
    assert_eq!(b.sorted(), a.sorted());
    assert_eq!(Flop::new([card("2c"), card("2s"), card("2h")]).unwrap().sorted(), [card("2s"), card("2h"), card("2c")]);
}

#[test]
fn membership_tests_look_at_every_card() {
    let cards: CardsCombined<3> = "As Kd 2c".parse().unwrap();
    assert!(cards.contains_value(Value::King));
    assert!(!cards.contains_value(Value::Queen));
    assert!(cards.contains_suit(Suit::Clubs));
    assert!(!cards.contains_suit(Suit::Hearts));
    assert!(cards.contains_card(card("2c")));
    assert!(!cards.contains_card(card("2d")));
    assert_eq!(cards[1], card("Kd"));
}

#[test]
fn holdings_know_pairs_and_suits() {
    let pair: Hole = "7h 7c".parse().unwrap();
    let suited: Hole = "Ah Kh".parse().unwrap();
    assert!(pair.is_pocket_pair());
    assert!(pair.is_pocket(Value::Seven));
    assert!(!pair.is_pocket(Value::Eight));
    assert!(!pair.is_suited());
    assert!(!suited.is_pocket_pair());
    assert!(suited.is_suited());
    assert!(suited.is_of_values([Value::King, Value::Ace]));
    assert!(!suited.is_of_values([Value::King, Value::Queen]));
    assert_eq!(Hole::from_values_suited([Value::Jack, Value::Ten], Suit::Spades), "Ts Js".parse::<Hole>().unwrap());
}

#[test]
fn straights_count_the_ace_high_or_low() {
    let broadway: FullBoard = "Ts Jd Qc Kh As".parse().unwrap();
    let wheel: FullBoard = "As 2d 3c 4h 5s".parse().unwrap();
    let middle: FullBoard = "9s 7d 8c 6h 5s".parse().unwrap();
    let around: FullBoard = "Qs Kd Ac 2h 3s".parse().unwrap();
    let paired: FullBoard = "9s 9d 8c 7h 6s".parse().unwrap();
    assert_eq!(broadway.is_straight(), Some(Value::Ace));
    assert_eq!(wheel.is_straight(), Some(Value::Five));
    assert_eq!(middle.is_straight(), Some(Value::Nine));
    assert_eq!(around.is_straight(), None);
    assert_eq!(paired.is_straight(), None);
    assert!(!broadway.is_flush());
    assert!("2s 9s Js Ks As".parse::<FullBoard>().unwrap().is_flush());
    assert_eq!(
        "2s 9d Js Kc 5s".parse::<FullBoard>().unwrap().to_sorted_values(),
        [Value::King, Value::Jack, Value::Nine, Value::Five, Value::Deuce]
    );
}
