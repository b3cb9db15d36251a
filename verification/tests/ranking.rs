use pokerbot::gameplay::{FullBoard, HandValue, SortedHandValue, Value};

fn rank(text: &str) -> SortedHandValue {
    let cards: FullBoard = text.parse().unwrap();
    HandValue::from(cards).0
}

#[test]
fn each_category_is_found_with_its_ranks() {
    assert_eq!(rank("Ts Js Qs Ks As"), SortedHandValue::RoyalFlush);
    assert_eq!(rank("9h Th Jh Qh Kh"), SortedHandValue::StraightFlush(Value::King));
    assert_eq!(rank("7s 7h 7d 7c 2s"), SortedHandValue::Quads([Value::Seven, Value::Deuce]));
    assert_eq!(rank("Ks 7h Kd 7c Kc"), SortedHandValue::FullHouse([Value::King, Value::Seven]));
    assert_eq!(
        rank("2d 9d Jd 4d Ad"),
        SortedHandValue::Flush([Value::Ace, Value::Jack, Value::Nine, Value::Four, Value::Deuce])
    );
    assert_eq!(rank("5s 6h 7d 8c 9s"), SortedHandValue::Straight(Value::Nine));
    assert_eq!(rank("5s 5h 5d 8c 9s"), SortedHandValue::Trips([Value::Five, Value::Nine, Value::Eight]));
    assert_eq!(rank("5s 5h 8d 8c As"), SortedHandValue::TwoPair([Value::Eight, Value::Five, Value::Ace]));
    assert_eq!(
        rank("5s Qh 8d Qc As"),
        SortedHandValue::OnePair([Value::Queen, Value::Ace, Value::Eight, Value::Five])
    );
    assert_eq!(
        rank("5s Qh 8d 2c As"),
        SortedHandValue::HighCard([Value::Ace, Value::Queen, Value::Eight, Value::Five, Value::Deuce])
    );
}

#[test]
fn the_wheel_tops_at_the_five() {
    assert_eq!(rank("As 2d 3c 4h 5s"), SortedHandValue::Straight(Value::Five));
    assert_eq!(rank("5c 4c Ad 3h 2s"), SortedHandValue::Straight(Value::Five));
    assert_eq!(rank("Ah 2h 3h 4h 5h"), SortedHandValue::StraightFlush(Value::Five));
    assert_eq!(rank("Ts Jd Qc Kh As"), SortedHandValue::Straight(Value::Ace));
    assert_eq!(rank("Ad Kd Qc Jh Ts"), SortedHandValue::Straight(Value::Ace));
}

#[test]
fn the_categories_stand_in_the_standard_order() {
    let ladder = [
        rank("7s 5h 4d 3c 2s"),
        rank("As Kh Qd Jc 9s"),
        rank("2s 2h 3d 4c 5s"),
        rank("As Ah Kd Qc Js"),
        rank("2s 2h 3d 3c 4s"),
        rank("As Ah Kd Kc Qs"),
        rank("2s 2h 2d 3c 4s"),
        rank("As Ah Ad Kc Qs"),
        rank("As 2h 3d 4c 5s"),
        rank("Ts Jh Qd Kc As"),
        rank("2s 3s 4s 5s 7s"),
        rank("9s Js Qs Ks As"),
        rank("2s 2h 2d 3c 3s"),
        rank("As Ah Ad Kc Ks"),
        rank("2s 2h 2d 2c 3s"),
        rank("As Ah Ad Ac Ks"),
        rank("As 2s 3s 4s 5s"),
        rank("9s Ts Js Qs Ks"),
        rank("Ts Js Qs Ks As"),
    ];
    for i in 0..ladder.len() {
        for j in 0..ladder.len() {
            assert_eq!(ladder[i] < ladder[j], i < j, "{:?} against {:?}", ladder[i], ladder[j]);
            assert_eq!(ladder[i] > ladder[j], i > j);
            assert_eq!(ladder[i] == ladder[j], i == j);
            assert_eq!(ladder[i].compare(&ladder[j]), if i < j { -1 } else if i > j { 1 } else { 0 });
            assert_eq!(HandValue(ladder[i]) <= HandValue(ladder[j]), i <= j);
        }
        assert!(ladder[i].category_index() <= 9);
    }
}

#[test]
fn ranks_break_ties_in_their_order() {
    assert!(rank("As Ah Kd 3c 2s") < rank("As Ah Kd 4c 2s"));
    assert!(rank("As Ah Kd 4c 2s") < rank("As Ah Kd 4c 3s"));
    assert!(rank("Ks Kh 2d 2c As") < rank("As Ah 2d 2c 3s"));
    assert!(rank("As Ah 2d 2c Ks") < rank("As Ah 3d 3c 4s"));
    assert!(rank("2s 2h 2d Ac As") < rank("3s 3h 3d 2c 2s"));
    assert!(rank("2s 2h 2d 2c As") < rank("3s 3h 3d 3c 2s"));
    assert!(rank("As Ks Qs Js 8s") < rank("Ah Kh Qh Jh 9h"));
    assert_eq!(rank("As Kd Qs Js 9s"), rank("Ah Kh Qc Jh 9h"));
    assert!(rank("As 2s 3d 4s 5s") < rank("2s 3s 4d 5s 6s"));
}

#[test]
fn default_value_is_the_royal_flush() {
    assert_eq!(HandValue::default().0, SortedHandValue::RoyalFlush);
    assert_eq!(SortedHandValue::default(), SortedHandValue::RoyalFlush);
    let value = HandValue::rank("Ts Js Qs Ks As".parse().unwrap());
    assert_eq!(*value, SortedHandValue::RoyalFlush);
}
