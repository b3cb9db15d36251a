use pokerbot::gameplay::headsup::{
    Action, ActionValue, BetBound, CashBuyin, Deck, GameOver, GameType, HeadsUp, ObservableEvent, PlayerEvent,
    SNGSpeed,
};
use pokerbot::gameplay::{Card, Hole, Suit, Value};

fn bet(amount: u32) -> Action {
    Action::bet_or_raise(amount).unwrap()
}

#[test]
fn a_bet_is_a_positive_multiple_of_twenty_five() {
    assert!(Action::bet_or_raise(0).is_none());
    assert!(Action::bet_or_raise(1).is_none());
    assert!(Action::bet_or_raise(24).is_none());
    assert!(Action::bet_or_raise(26).is_none());
    assert_eq!(Action::bet_or_raise(25).unwrap().value(), ActionValue::BetOrRaise(25));
    assert_eq!(Action::bet_or_raise(4_294_967_275).unwrap().value(), ActionValue::BetOrRaise(4_294_967_275));
    assert!(Action::bet_or_raise(u32::MAX).is_none());
    assert_eq!(Action::exit().value(), ActionValue::Exit);
    assert_eq!(Action::fold().value(), ActionValue::Fold);
    assert_eq!(Action::check_or_call().value(), ActionValue::CheckOrCall);
    assert_eq!(Action::all_in().value(), ActionValue::AllIn);
}

#[test]
fn an_action_is_read_from_text() {
    assert_eq!("e".parse::<Action>(), Ok(Action::exit()));
    assert_eq!("x".parse::<Action>(), Ok(Action::exit()));
    assert_eq!(" X ".parse::<Action>(), Ok(Action::exit()));
    assert_eq!("f".parse::<Action>(), Ok(Action::fold()));
    assert_eq!("F\n".parse::<Action>(), Ok(Action::fold()));
    assert_eq!("c".parse::<Action>(), Ok(Action::check_or_call()));
    assert_eq!("\u{2003}C\u{a0}".parse::<Action>(), Ok(Action::check_or_call()));
    assert_eq!("a".parse::<Action>(), Ok(Action::all_in()));
    assert_eq!("A".parse::<Action>(), Ok(Action::all_in()));
    assert_eq!("25".parse::<Action>(), Ok(bet(25)));
    assert_eq!(" 1000 ".parse::<Action>(), Ok(bet(1000)));
    assert_eq!("+75".parse::<Action>(), Ok(bet(75)));
    assert_eq!("00050".parse::<Action>(), Ok(bet(50)));
    assert_eq!("4294967275".parse::<Action>(), Ok(bet(4_294_967_275)));
}

#[test]
fn text_that_names_no_action_is_refused() {
    for text in [
        "", " ", "b", "ee", "fold", "0", "24", "26", "-25", "+", "+-25", "2 5", "25x", "4294967300", "99999999999999999999", "2５", "é",
    ] {
        assert_eq!(text.parse::<Action>(), Err(()), "{:?}", text);
    }
}

#[test]
fn leaving_and_folding_are_always_open() {
    let bounds = [
        BetBound::FoldCheckAllin,
        BetBound::FoldCheckBetAllin(100..=1000),
        BetBound::FoldAllin,
        BetBound::FoldCall,
        BetBound::FoldCallAllin,
        BetBound::FoldCallRaiseAllin(100..=1000),
        BetBound::FoldBetAllin(100..=1000),
        BetBound::FoldRaiseAllin(100..=1000),
    ];
    for bound in bounds.iter() {
        assert!(bound.validate_action(Action::exit()));
        assert!(bound.validate_action(Action::fold()));
        assert_eq!(bound.alter_eq(Action::exit()), Some(Action::exit()));
        assert_eq!(bound.alter_eq(Action::fold()), Some(Action::fold()));
    }
}

#[test]
fn a_bound_lets_through_what_its_name_says() {
    let check = Action::check_or_call();
    let all_in = Action::all_in();
    let table = [
        (BetBound::FoldCheckAllin, true, true, false),
        (BetBound::FoldCheckBetAllin(100..=1000), true, true, true),
        (BetBound::FoldAllin, false, true, false),
        (BetBound::FoldCall, true, false, false),
        (BetBound::FoldCallAllin, true, true, false),
        (BetBound::FoldCallRaiseAllin(100..=1000), true, true, true),
        (BetBound::FoldBetAllin(100..=1000), false, true, true),
        (BetBound::FoldRaiseAllin(100..=1000), false, true, true),
    ];
    for (bound, checks, shoves, bets) in table.iter() {
        assert_eq!(bound.validate_action(check), *checks, "{:?}", bound);
        assert_eq!(bound.validate_action(all_in), *shoves, "{:?}", bound);
        assert_eq!(bound.validate_action(bet(100)), *bets, "{:?}", bound);
        assert_eq!(bound.validate_action(bet(500)), *bets, "{:?}", bound);
        assert_eq!(bound.validate_action(bet(1000)), *bets, "{:?}", bound);
        assert!(!bound.validate_action(bet(75)));
        assert!(!bound.validate_action(bet(1025)));
        assert_eq!(bound.alter_eq(bet(75)), None);
        assert_eq!(bound.alter_eq(check), if *checks { Some(check) } else { None });
        assert_eq!(bound.alter_eq(bet(500)), if *bets { Some(bet(500)) } else { None });
        assert_eq!(bound.alter_eq(bet(1000)), if *bets { Some(all_in) } else { None });
    }
}

#[test]
fn a_bound_is_copied_with_its_range() {
    let bound = BetBound::FoldCallRaiseAllin(100..=1000);
    let copy = bound.clone();
    assert_eq!(copy, bound);
    assert_eq!(copy.alter_eq(bet(1000)), Some(Action::all_in()));
    let event = PlayerEvent::HeroTurn(bound);
    assert_eq!(event.clone(), event);
}

#[test]
fn game_kinds_have_their_stacks_and_blinds() {
    assert_eq!(GameType::default(), GameType::SNG(SNGSpeed::Slow));
    assert_eq!(GameType::cash_default(), GameType::Cash { buyin: CashBuyin::BB100, hands: 0 });
    assert_eq!(CashBuyin::default(), CashBuyin::BB100);
    assert_eq!(SNGSpeed::default(), SNGSpeed::Slow);
    assert!(GameType::default().is_sng());
    assert!(!GameType::cash_default().is_sng());
    assert_eq!(GameType::cash_default().hands_limit(), None);
    assert_eq!(GameType::Cash { buyin: CashBuyin::BB15, hands: 40 }.hands_limit(), Some(40));
    assert_eq!(GameType::default().hands_limit(), None);
    let stacks = [
        (CashBuyin::BB15, 7500),
        (CashBuyin::BB30, 15000),
        (CashBuyin::BB50, 25000),
        (CashBuyin::BB75, 37500),
        (CashBuyin::BB100, 50000),
        (CashBuyin::BB150, 75000),
        (CashBuyin::BB200, 100000),
        (CashBuyin::BB250, 125000),
        (CashBuyin::BB300, 150000),
    ];
    for (buyin, stack) in stacks {
        let game = GameType::Cash { buyin, hands: 0 };
        assert_eq!(game.init_stack(), stack);
        assert_eq!(game.blind_levels(), vec![500]);
    }
    assert_eq!(GameType::SNG(SNGSpeed::Turbo).init_stack(), 3000);
    assert_eq!(GameType::SNG(SNGSpeed::Medium).init_stack(), 7500);
    assert_eq!(GameType::SNG(SNGSpeed::Slow).init_stack(), 15000);
    assert_eq!(GameType::SNG(SNGSpeed::Turbo).blind_levels(), vec![50, 100, 150, 200]);
    assert_eq!(GameType::SNG(SNGSpeed::Medium).blind_levels(), vec![50, 100, 150, 200, 300, 400, 500]);
    assert_eq!(
        GameType::SNG(SNGSpeed::Slow).blind_levels(),
        vec![50, 100, 150, 200, 300, 400, 500, 600, 800, 1000]
    );
}

#[test]
fn a_fresh_deck_runs_by_rank_then_suit() {
    let fresh = Deck::default().cards();
    assert_eq!(fresh[0], Card::new(Value::Deuce, Suit::Spades));
    assert_eq!(fresh[1], Card::new(Value::Deuce, Suit::Hearts));
    assert_eq!(fresh[2], Card::new(Value::Deuce, Suit::Diamonds));
    assert_eq!(fresh[3], Card::new(Value::Deuce, Suit::Clubs));
    assert_eq!(fresh[4], Card::new(Value::Trey, Suit::Spades));
    assert_eq!(fresh[35], Card::new(Value::Ten, Suit::Clubs));
    assert_eq!(fresh[51], Card::new(Value::Ace, Suit::Clubs));
    for (k, c) in fresh.iter().enumerate() {
        assert_eq!(c.as_u8() as usize, k);
    }
}

#[test]
fn a_shuffled_deck_holds_every_card_once() {
    let mut deck = Deck::default();
    let before = deck;
    let mut dealer = deck.clone().shuffle_and_deal();
    assert_eq!(dealer.remaining(), 52);
    let mut seen = Vec::new();
    while dealer.remaining() > 0 {
        let c = dealer.deal_card();
        assert!(!seen.contains(&c));
        seen.push(c);
    }
    assert_eq!(seen.len(), 52);
    assert_eq!(deck, before);
    let dealt = deck.shuffle_and_deal();
    assert_eq!(dealt.remaining(), 52);
    let values = [Value::Deuce, Value::Trey, Value::Ace];
    let suits = [Suit::Spades, Suit::Hearts, Suit::Diamonds, Suit::Clubs];
    for v in values {
        for s in suits {
            assert!(seen.contains(&Card::new(v, s)));
        }
    }
}

#[test]
fn shuffling_moves_the_cards() {
    let fresh = Deck::default();
    let mut moved = false;
    for _ in 0..8 {
        let mut deck = Deck::default();
        let _ = deck.shuffle_and_deal();
        moved = moved || deck != fresh;
    }
    assert!(moved);
}

#[test]
fn a_dealer_deals_from_the_top() {
    let mut deck = Deck::default();
    let mut dealer = deck.shuffle_and_deal();
    let mut copy = dealer.clone();
    assert_eq!(deck.cards()[0], copy.clone().deal_card());
    let hole = dealer.deal_hole();
    let flop = dealer.deal_flop();
    let card = dealer.deal_card();
    assert_eq!(dealer.remaining(), 46);
    let first = [copy.deal_card(), copy.deal_card()];
    let next = [copy.deal_card(), copy.deal_card(), copy.deal_card()];
    assert_eq!(hole.cards(), first);
    assert_eq!(flop.cards(), next);
    assert_eq!(card, copy.deal_card());
}

fn two_holes() -> [Hole; 2] {
    ["As Kd".parse().unwrap(), "7h 7c".parse().unwrap()]
}

#[test]
fn a_game_starts_with_full_stacks() {
    let game = HeadsUp::new(GameType::cash_default(), true);
    assert!(!game.is_over());
    assert_eq!(game.game_over(), None);
    assert!(!game.is_sng);
    assert_eq!(game.cur_blind, 500);
    assert_eq!(game.big_blind(), 500);
    assert!(game.blind_levels.is_empty());
    assert_eq!(game.stacks, [50000, 50000]);
    assert_eq!(game.behinds, [50000, 50000]);
    assert_eq!(game.effective_behind(), 50000);
    assert_eq!(game.cur_round, [0, 0]);
    assert_eq!(game.pot, 0);
    assert!(game.cur_turn && game.button && game.last_aggressor && !game.opened);
    assert_eq!(game.abort(), GameOver::AbortCheckout([50000, 50000]));
    assert_eq!(game.force_exit(false), GameOver::ExitCheckout(false, [50000, 50000]));
    let sng = HeadsUp::new(GameType::SNG(SNGSpeed::Turbo), false);
    assert!(sng.is_sng);
    assert_eq!(sng.cur_blind, 50);
    assert_eq!(sng.blind_levels, vec![100, 150, 200]);
    assert_eq!(sng.stacks, [3000, 3000]);
    assert_eq!(sng.abort(), GameOver::GameAbort);
    assert_eq!(sng.force_exit(true), GameOver::ExitAbandon(true));
    assert_eq!(game.bet_bound(), BetBound::FoldCheckBetAllin(500..=50000));
}

#[test]
fn the_blinds_go_in_with_the_holdings() {
    let mut game = HeadsUp::new(GameType::cash_default(), true);
    let turn = game.deal_holes(two_holes());
    assert_eq!(turn, Some((true, BetBound::FoldCallRaiseAllin(1000..=50000))));
    assert_eq!(game.cur_round, [250, 500]);
    assert_eq!(game.behinds, [50000, 50000]);
    assert_eq!(game.pot, 0);
    assert_eq!(game.holes, [Some(two_holes()[0]), Some(two_holes()[1])]);
    let mut other = HeadsUp::new(GameType::SNG(SNGSpeed::Slow), false);
    let turn = other.deal_holes(two_holes());
    assert_eq!(turn, Some((false, BetBound::FoldCallRaiseAllin(100..=15000))));
    assert_eq!(other.cur_round, [50, 25]);
}

#[test]
fn short_stacks_shape_the_bounds() {
    let mut game = HeadsUp::new(GameType::cash_default(), true);
    game.behinds = [50000, 400];
    assert_eq!(game.deal_holes(two_holes()), Some((true, BetBound::FoldCall)));
    assert_eq!(game.cur_round, [250, 400]);
    let mut game = HeadsUp::new(GameType::cash_default(), false);
    game.behinds = [50000, 50000];
    assert_eq!(game.deal_holes(two_holes()), Some((false, BetBound::FoldCallRaiseAllin(1000..=50000))));
    assert_eq!(game.cur_round, [500, 250]);
    game.cur_turn = true;
    game.last_bet = 250;
    game.cur_round = [250, 1250];
    assert_eq!(game.bet_bound(), BetBound::FoldCallRaiseAllin(2250..=50000));
    let mut game = HeadsUp::new(GameType::cash_default(), true);
    game.behinds = [300, 50000];
    assert_eq!(game.deal_holes(two_holes()), Some((true, BetBound::FoldAllin)));
    let mut game = HeadsUp::new(GameType::cash_default(), true);
    game.behinds = [800, 50000];
    assert_eq!(game.deal_holes(two_holes()), Some((true, BetBound::FoldCallAllin)));
    let mut game = HeadsUp::new(GameType::cash_default(), true);
    game.behinds = [400, 50000];
    assert_eq!(game.bet_bound(), BetBound::FoldCheckAllin);
}

#[test]
fn a_stack_below_the_small_blind_is_all_in_at_once() {
    let mut game = HeadsUp::new(GameType::cash_default(), true);
    game.behinds = [50000, 250];
    assert_eq!(game.deal_holes(two_holes()), None);
    assert_eq!(game.pot, 500);
    assert_eq!(game.behinds, [49750, 0]);
    assert_eq!(game.cur_round, [0, 0]);
    let mut game = HeadsUp::new(GameType::cash_default(), false);
    game.behinds = [100, 50000];
    assert_eq!(game.deal_holes_int(), None);
    assert_eq!(game.pot, 200);
    assert_eq!(game.behinds, [0, 49900]);
}

#[test]
fn events_are_noted_in_order() {
    let mut game = HeadsUp::new(GameType::cash_default(), true);
    let dealt = ObservableEvent::DealHoles([Some(two_holes()[0]), None]);
    game.event(dealt);
    assert_eq!(game.holes, [Some(two_holes()[0]), None]);
    assert_eq!(game.cur_round, [250, 500]);
    let acted = ObservableEvent::PlayerAction(Action::fold());
    game.event(acted);
    let shown = ObservableEvent::ShowdownAll(two_holes());
    game.event(shown);
    assert_eq!(game.holes, [Some(two_holes()[0]), Some(two_holes()[1])]);
    assert!(!game.is_over());
    let over = ObservableEvent::GameOver(GameOver::Defeated(true));
    game.event(over);
    assert!(game.is_over());
    assert_eq!(game.game_over(), Some(GameOver::Defeated(true)));
    assert_eq!(game.events, vec![dealt, acted, shown, over]);
    assert_eq!(PlayerEvent::Observable(over).unwrap_observable(), over);
    game.set_game_over(GameOver::GameAbort);
    assert_eq!(game.game_over(), Some(GameOver::GameAbort));
}
