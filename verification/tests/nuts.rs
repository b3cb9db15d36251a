use pokerbot::gameplay::scan::{straight_scan, StraightSolve};
use pokerbot::gameplay::{Board, Card, FindNuts, FullBoard, HandValue, Hole, Suit, Value};

fn ncard(text: &str) -> Card {
    text.parse().unwrap()
}

fn nhole(text: &str) -> Hole {
    text.parse().unwrap()
}

fn nboard(text: &str) -> Board {
    text.parse().unwrap()
}

fn deck_without(board: &[Card]) -> Vec<Card> {
    let values = [
        Value::Deuce,
        Value::Trey,
        Value::Four,
        Value::Five,
        Value::Six,
        Value::Seven,
        Value::Eight,
        Value::Nine,
        Value::Ten,
        Value::Jack,
        Value::Queen,
        Value::King,
        Value::Ace,
    ];
    let suits = [Suit::Spades, Suit::Hearts, Suit::Diamonds, Suit::Clubs];
    let mut rest = Vec::new();
    for v in values {
        for s in suits {
            let c = Card::new(v, s);
            if !board.contains(&c) {
                rest.push(c);
            }
        }
    }
    rest
}

/// On a flop: the holdings that no other holding, made of cards that are
/// neither on the board nor in the holding, beats.
fn unbeaten_on_flop(board: &Board) -> Vec<(Hole, bool)> {
    let shown = board.to_vec();
    let rest = deck_without(&shown);
    let mut valued = Vec::new();
    for a in 0..rest.len() {
        for b in (a + 1)..rest.len() {
            let five = FullBoard::new([rest[a], rest[b], shown[0], shown[1], shown[2]]).unwrap();
            valued.push((rest[a], rest[b], HandValue::from(five)));
        }
    }
    let mut out = Vec::new();
    for (a, b, mine) in valued.iter() {
        let beaten = valued
            .iter()
            .any(|(c, d, theirs)| c != a && c != b && d != a && d != b && theirs > mine);
        out.push((Hole::new([*a, *b]).unwrap(), !beaten));
    }
    out
}

/// The best value that five of the cards make.
fn best_of(cards: &[Card]) -> HandValue {
    let n = cards.len();
    let mut best: Option<HandValue> = None;
    for skip_a in 0..n {
        for skip_b in skip_a..n {
            let five: Vec<Card> = (0..n).filter(|i| *i != skip_a && *i != skip_b).map(|i| cards[i]).collect();
            if five.len() != 5 {
                continue;
            }
            let value = HandValue::from(FullBoard::new([five[0], five[1], five[2], five[3], five[4]]).unwrap());
            best = match best {
                Some(b) if b >= value => Some(b),
                _ => Some(value),
            };
        }
    }
    best.unwrap()
}

/// On a turn or river board: the holdings that no other holding, made of
/// cards that are neither on the board nor in the holding, beats.
fn unbeaten_on_board(board: &Board) -> Vec<(Hole, bool)> {
    let shown = board.to_vec();
    let rest = deck_without(&shown);
    let mut valued = Vec::new();
    for a in 0..rest.len() {
        for b in (a + 1)..rest.len() {
            let mut cards = vec![rest[a], rest[b]];
            cards.extend_from_slice(&shown);
            valued.push((rest[a], rest[b], best_of(&cards)));
        }
    }
    let mut out = Vec::new();
    for (a, b, mine) in valued.iter() {
        let beaten = valued
            .iter()
            .any(|(c, d, theirs)| c != a && c != b && d != a && d != b && theirs > mine);
        out.push((Hole::new([*a, *b]).unwrap(), !beaten));
    }
    out
}

fn board_agrees_with_search(text: &str) {
    let board = nboard(text);
    for (hole, unbeaten) in unbeaten_on_board(&board) {
        assert_eq!(board.is_nuts(hole), unbeaten, "{:?} on {}", hole, text);
    }
}

fn agrees_with_search(text: &str) {
    let board = nboard(text);
    let nuts = board.find_nuts();
    let mut some = false;
    for (hole, unbeaten) in unbeaten_on_flop(&board) {
        assert_eq!(board.is_nuts(hole), unbeaten, "{:?} on {}", hole, text);
        assert_eq!(nuts == hole, unbeaten);
        some = some || unbeaten;
    }
    assert!(some);
}

#[test]
fn dry_flop_nuts_is_the_top_set() {
    let board = nboard("2c 7d 9h");
    assert_eq!(board.find_nuts(), FindNuts::PocketPair(Value::Nine));
    assert!(board.is_nuts(nhole("9s 9d")));
    assert!(board.is_nuts(nhole("9c 9s")));
    assert!(!board.is_nuts(nhole("7s 7h")));
    assert!(!board.is_nuts(nhole("9s As")));
    assert!(!board.is_nuts(nhole("As Ad")));
}

#[test]
fn royal_draw_flop_nuts_holds_the_jack_of_the_suit() {
    let board = nboard("As Ks Qs");
    assert!(board.is_nuts(nhole("Js Ts")));
    assert!(board.is_nuts(nhole("Ts Js")));
    assert_eq!(board.find_nuts(), FindNuts::CardPlusAnySuited(ncard("Js")));
    assert!(board.is_nuts(nhole("Js 2s")));
    assert!(!board.is_nuts(nhole("Js Th")));
    assert!(!board.is_nuts(nhole("Ts 9s")));
    assert!(!board.is_nuts(nhole("Ah Ad")));
}

#[test]
fn trips_on_board_nuts_is_the_fourth_card() {
    let board = nboard("2h 2d 2c");
    assert_eq!(board.find_nuts(), FindNuts::OneValue(Value::Deuce));
    assert!(board.is_nuts(nhole("2s As")));
    assert!(board.is_nuts(nhole("3c 2s")));
    assert!(!board.is_nuts(nhole("As Ad")));
    assert!(!board.is_nuts(nhole("Ks Kd")));
}

#[test]
fn four_to_a_straight_flush_nuts_is_one_card() {
    let board = nboard("5h 6h 7h 8h");
    assert_eq!(board.find_nuts(), FindNuts::CardPlusAny(ncard("9h")));
    assert!(board.is_nuts(nhole("9h Th")));
    assert!(board.is_nuts(nhole("9h 2c")));
    assert!(board.is_nuts(nhole("4h 9h")));
    assert!(!board.is_nuts(nhole("4h Th")));
    assert!(!board.is_nuts(nhole("Ah Kh")));
}

#[test]
fn flops_agree_with_the_search() {
    agrees_with_search("2c 7d 9h");
    agrees_with_search("As Ks Qs");
    agrees_with_search("2h 2d 2c");
    agrees_with_search("Ks Qs Js");
}

#[test]
fn more_flops_agree_with_the_search() {
    agrees_with_search("2s 3s 5s");
    agrees_with_search("Kd Kc 5h");
    agrees_with_search("Ah 2d 2c");
    agrees_with_search("7s 8d 9c");
}

#[test]
fn yet_more_flops_agree_with_the_search() {
    agrees_with_search("Ts 9s 2s");
    agrees_with_search("Ah 5d 4c");
    agrees_with_search("6c 7c 8c");
    agrees_with_search("Ad Ac Ah");
}

#[test]
fn turn_boards_agree_with_the_search() {
    board_agrees_with_search("5h 6h 7h 8h");
    board_agrees_with_search("As Ks 2s 2d");
    board_agrees_with_search("Kd Kc 5h 2s");
    board_agrees_with_search("2c 7d 9h Ks");
    board_agrees_with_search("9c Td Jh Qs");
}

#[test]
fn a_one_card_third_window_gives_a_third_holding() {
    let board = nboard("2s 4s 5s 6s");
    assert_eq!(
        board.find_nuts(),
        FindNuts::ThreeHoles([nhole("8s 7s"), nhole("7s 3s"), nhole("3s 8s")])
    );
    assert!(board.is_nuts(nhole("3s 8s")));
    assert!(!board.is_nuts(nhole("3s 9s")));
    board_agrees_with_search("2s 4s 5s 6s");
    board_agrees_with_search("3s 4s 5s As");
    board_agrees_with_search("3s 5s 6s 7s");
}

#[test]
fn river_boards_agree_with_the_search() {
    board_agrees_with_search("Ts Js Qs Ks As");
    board_agrees_with_search("Ah Ad Ac As Kd");
    board_agrees_with_search("2c 7d 9h Ks 4s");
    board_agrees_with_search("Kh Kd 5c 5s 9d");
}

#[test]
fn the_scan_lists_windows_from_the_top() {
    let cards: Vec<Card> = ["5h", "6h", "7h", "8h"].iter().map(|t| ncard(t)).collect();
    let (high, found) = straight_scan(&cards, false);
    assert_eq!(high, Value::Ace);
    assert_eq!(
        found,
        vec![
            StraightSolve::Two([Value::Ten, Value::Nine]),
            StraightSolve::One(Value::Nine),
            StraightSolve::One(Value::Four),
            StraightSolve::Two([Value::Four, Value::Trey]),
        ]
    );
    let (_, first) = straight_scan(&cards, true);
    assert_eq!(first, vec![StraightSolve::Two([Value::Ten, Value::Nine])]);
    assert_eq!(found[0].last(), Some(Value::Nine));
    assert_eq!(found[1].last(), Some(Value::Nine));
    assert_eq!(StraightSolve::Complete.last(), None);
}

#[test]
fn the_scan_lists_a_solve_once() {
    let cards: Vec<Card> = ["2s", "4s", "6s", "7s"].iter().map(|t| ncard(t)).collect();
    let (high, found) = straight_scan(&cards, false);
    assert_eq!(high, Value::Ace);
    assert_eq!(
        found,
        vec![
            StraightSolve::Two([Value::Eight, Value::Five]),
            StraightSolve::Two([Value::Five, Value::Trey]),
        ]
    );
    let with_ace: Vec<Card> = ["As", "Ks", "Qs"].iter().map(|t| ncard(t)).collect();
    let (high, found) = straight_scan(&with_ace, false);
    assert_eq!(high, Value::Jack);
    assert_eq!(found, vec![StraightSolve::Two([Value::Jack, Value::Ten])]);
    let made: Vec<Card> = ["Ts", "Js", "Qs", "Ks", "As"].iter().map(|t| ncard(t)).collect();
    assert_eq!(straight_scan(&made, false).1, vec![StraightSolve::Complete]);
    let wheel: Vec<Card> = ["2d", "3s", "5c"].iter().map(|t| ncard(t)).collect();
    assert_eq!(
        straight_scan(&wheel, false).1,
        vec![StraightSolve::Two([Value::Six, Value::Four]), StraightSolve::Two([Value::Four, Value::Ace])]
    );
}

#[test]
fn paired_boards_follow_the_table() {
    assert_eq!(nboard("Kd Kc 5h 2s").find_nuts(), FindNuts::PocketOrTwo(Value::King, [Value::King, Value::Five]));
    assert_eq!(nboard("Ah 2d 2c Ks").find_nuts(), FindNuts::PocketPair(Value::Deuce));
    assert_eq!(nboard("Ah Ad Ac As").find_nuts(), FindNuts::OneValue(Value::King));
    assert_eq!(nboard("Kh Kd Kc Ks").find_nuts(), FindNuts::OneValue(Value::Ace));
    assert_eq!(nboard("Ah Ad Ac As Kd").find_nuts(), FindNuts::AnyTwo);
    assert_eq!(nboard("Ah Ad Ac As Qd").find_nuts(), FindNuts::OneValue(Value::King));
    assert_eq!(nboard("Kh Kd Kc Ks Ad").find_nuts(), FindNuts::AnyTwo);
    assert_eq!(nboard("Kh Kd Kc Ks Qd").find_nuts(), FindNuts::OneValue(Value::Ace));
    assert_eq!(nboard("Kh Kd 5c 5s").find_nuts(), FindNuts::PocketOrTwo(Value::King, [Value::King, Value::Five]));
    assert_eq!(nboard("Kh Kd 5c 5s 2d").find_nuts(), FindNuts::PocketOrTwo(Value::King, [Value::King, Value::Five]));
    assert_eq!(nboard("Kh Kd 5c 5s 9d").find_nuts(), FindNuts::PocketPair(Value::King));
    assert_eq!(nboard("5h 5d 5c Ks Kd").find_nuts(), FindNuts::PocketOrTwo(Value::King, [Value::King, Value::Five]));
    assert_eq!(nboard("Kh Kd Kc 5s 5d").find_nuts(), FindNuts::OneValue(Value::King));
    assert_eq!(nboard("Kh Kd Kc 5s 9d").find_nuts(), FindNuts::OneValue(Value::King));
}

#[test]
fn a_paired_board_with_three_of_a_suit_follows_the_table_too() {
    assert_eq!(nboard("As Ks 2s 2d").find_nuts(), FindNuts::PocketPair(Value::Deuce));
    assert_eq!(nboard("6d Kc 6c 4c").find_nuts(), FindNuts::PocketPair(Value::Six));
    assert_eq!(nboard("Ts 3d 3s 2s").find_nuts(), FindNuts::PocketPair(Value::Trey));
    assert_eq!(nboard("Ks Kd 5s 2s").find_nuts(), FindNuts::PocketOrTwo(Value::King, [Value::King, Value::Five]));
}

/// Every flop whose lowest card, in the order of a fresh deck, stands at a
/// place that leaves `lane` when divided by eight.
fn every_flop_agrees(lane: usize) {
    let all = deck_without(&[]);
    let mut boards = 0;
    for a in (lane..52).step_by(8) {
        for b in (a + 1)..52 {
            for c in (b + 1)..52 {
                let board = Board::from_slice(&[all[a], all[b], all[c]]).unwrap();
                for (hole, unbeaten) in unbeaten_on_flop(&board) {
                    assert_eq!(board.is_nuts(hole), unbeaten, "{:?} on {:?}", hole, board);
                }
                boards += 1;
            }
        }
    }
    assert!(boards > 2000);
}

#[test]
fn every_flop_agrees_with_the_search_lane_0() {
    every_flop_agrees(0);
}

#[test]
fn every_flop_agrees_with_the_search_lane_1() {
    every_flop_agrees(1);
}

#[test]
fn every_flop_agrees_with_the_search_lane_2() {
    every_flop_agrees(2);
}

#[test]
fn every_flop_agrees_with_the_search_lane_3() {
    every_flop_agrees(3);
}

#[test]
fn every_flop_agrees_with_the_search_lane_4() {
    every_flop_agrees(4);
}

#[test]
fn every_flop_agrees_with_the_search_lane_5() {
    every_flop_agrees(5);
}

#[test]
fn every_flop_agrees_with_the_search_lane_6() {
    every_flop_agrees(6);
}

#[test]
fn every_flop_agrees_with_the_search_lane_7() {
    every_flop_agrees(7);
}

/// Every turn board of four spades whose ranks, counted from the Deuce as
/// zero, add up to a number that leaves `lane` when divided by four.
fn every_spade_turn_agrees(lane: usize) {
    let all = deck_without(&[]);
    let mut boards = 0;
    for a in 0..13 {
        for b in (a + 1)..13 {
            for c in (b + 1)..13 {
                for d in (c + 1)..13 {
                    if (a + b + c + d) % 4 != lane {
                        continue;
                    }
                    let cards = [all[4 * a], all[4 * b], all[4 * c], all[4 * d]];
                    assert!(cards.iter().all(|card| card.suit() == Suit::Spades));
                    let board = Board::from_slice(&cards).unwrap();
                    for (hole, unbeaten) in unbeaten_on_board(&board) {
                        assert_eq!(board.is_nuts(hole), unbeaten, "{:?} on {:?}", hole, board);
                    }
                    boards += 1;
                }
            }
        }
    }
    assert!(boards > 150);
}

#[test]
fn every_turn_of_one_suit_agrees_with_the_search_lane_0() {
    every_spade_turn_agrees(0);
}

#[test]
fn every_turn_of_one_suit_agrees_with_the_search_lane_1() {
    every_spade_turn_agrees(1);
}

#[test]
fn every_turn_of_one_suit_agrees_with_the_search_lane_2() {
    every_spade_turn_agrees(2);
}

#[test]
fn every_turn_of_one_suit_agrees_with_the_search_lane_3() {
    every_spade_turn_agrees(3);
}
