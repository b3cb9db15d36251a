use pokerbot::gameplay::{Board, BoardCards, Card, Flop};

fn bcard(text: &str) -> Card {
    text.parse().unwrap()
}

fn cards_of(text: &str) -> Vec<Card> {
    text.split_whitespace().map(bcard).collect()
}

#[test]
fn a_board_takes_no_three_four_or_five_cards() {
    assert!(Board::from_slice(&[]).unwrap().is_preflop());
    assert!(Board::from_slice(&cards_of("As")).is_none());
    assert!(Board::from_slice(&cards_of("As Kd")).is_none());
    assert!(Board::from_slice(&cards_of("As Kd Qc")).unwrap().is_flop());
    assert!(Board::from_slice(&cards_of("As Kd Qc Jh")).unwrap().is_turn());
    assert!(Board::from_slice(&cards_of("As Kd Qc Jh Ts")).unwrap().is_river());
    assert!(Board::from_slice(&cards_of("As Kd Qc Jh Ts 9s")).is_none());
    assert!(Board::from_slice(&cards_of("As Kd As")).is_none());
    assert!(Board::from_slice(&cards_of("As Kd Qc Kd")).is_none());
    assert!(Board::from_slice(&cards_of("As Kd Qc Jh Qc")).is_none());
}

#[test]
fn a_board_lists_its_cards_in_the_order_of_the_streets() {
    let cards = cards_of("As Kd Qc Jh Ts");
    for n in [0, 3, 4, 5] {
        let board = Board::from_slice(&cards[..n]).unwrap();
        assert_eq!(board.to_vec(), cards[..n].to_vec());
    }
}

#[test]
fn streets_come_one_after_the_other() {
    let flop = Board::flop(Flop::new([bcard("As"), bcard("Kd"), bcard("Qc")]).unwrap());
    assert!(flop.is_flop());
    assert!(!flop.is_preflop() && !flop.is_turn() && !flop.is_river());
    assert!(flop.river(bcard("2c")).is_none());
    assert!(flop.as_full_board().is_none());
    let turn = flop.turn(bcard("Jh")).unwrap();
    assert!(turn.is_turn());
    assert!(turn.turn(bcard("2c")).is_none());
    assert!(turn.as_full_board().is_none());
    let river = turn.river(bcard("Ts")).unwrap();
    assert!(river.is_river());
    assert!(river.turn(bcard("2c")).is_none());
    assert!(river.river(bcard("2c")).is_none());
    assert_eq!(river.to_vec(), cards_of("As Kd Qc Jh Ts"));
    assert_eq!(river.as_full_board().unwrap().cards(), [bcard("As"), bcard("Kd"), bcard("Qc"), bcard("Jh"), bcard("Ts")]);
    let empty = Board::default();
    assert!(empty.is_preflop());
    assert!(empty.turn(bcard("2c")).is_none());
    assert!(empty.river(bcard("2c")).is_none());
    assert!(empty.to_vec().is_empty());
    assert!(matches!(*empty, BoardCards::Preflop));
    assert!(matches!(*river, BoardCards::River { .. }));
}

#[test]
fn a_street_refuses_a_card_of_the_board() {
    let flop: Board = "As Kd Qc".parse().unwrap();
    assert!(flop.turn(bcard("As")).is_none());
    assert!(flop.turn(bcard("Kd")).is_none());
    assert!(flop.turn(bcard("Qc")).is_none());
    let turn = flop.turn(bcard("Jh")).unwrap();
    assert!(turn.river(bcard("As")).is_none());
    assert!(turn.river(bcard("Qc")).is_none());
    assert!(turn.river(bcard("Jh")).is_none());
    assert!(turn.river(bcard("Js")).is_some());
}

#[test]
fn a_board_is_read_from_text() {
    assert!("x".parse::<Board>().unwrap().is_preflop());
    assert!("  x \n".parse::<Board>().unwrap().is_preflop());
    assert_eq!("As Kd Qc".parse::<Board>().unwrap().to_vec(), cards_of("As Kd Qc"));
    assert_eq!("AsKdQc  Jh".parse::<Board>().unwrap().to_vec(), cards_of("As Kd Qc Jh"));
    assert_eq!("As Kd Qc   Jh   Ts ".parse::<Board>().unwrap().to_vec(), cards_of("As Kd Qc Jh Ts"));
    assert_eq!("".parse::<Board>(), Err(()));
    assert_eq!("   ".parse::<Board>(), Err(()));
    assert_eq!("xx".parse::<Board>(), Err(()));
    assert_eq!("x As".parse::<Board>(), Err(()));
    assert_eq!("X".parse::<Board>(), Err(()));
    assert_eq!("As Kd".parse::<Board>(), Err(()));
    assert_eq!("As Kd Q".parse::<Board>(), Err(()));
    assert_eq!("As Kd Qc J".parse::<Board>(), Err(()));
    assert_eq!("As Kd Qc Jh T".parse::<Board>(), Err(()));
    assert_eq!("As Kd Qc Jh Ts 9".parse::<Board>(), Err(()));
    assert_eq!("As Kd Qc Jh Ts 9s".parse::<Board>(), Err(()));
    assert_eq!("As Kd Qc As".parse::<Board>(), Err(()));
    assert_eq!("As Kd Qc Jh Jh".parse::<Board>(), Err(()));
    assert_eq!("As Kd As".parse::<Board>(), Err(()));
    assert_eq!("As Kd Qc\u{2003}".parse::<Board>(), Err(()));
}
