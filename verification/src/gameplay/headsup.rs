//! Heads-up play: actions and their bounds, the kinds of game, the deck,
//! and what a hand keeps track of.

use super::board::Board;
use super::card::{Card, Suit, Value};
use super::cards::{lemma_order_is_immaterial, Flop, Hole};
use rand::seq::SliceRandom;
use std::ops::RangeInclusive;
use std::str::FromStr;
use vstd::prelude::*;

verus! {

/// What a player can do at a turn.
#[derive(Debug, PartialEq, Eq, Clone, Copy, Hash, Structural)]
pub enum ActionValue {
    Exit,
    Fold,
    CheckOrCall,
    BetOrRaise(u32),
    AllIn,
}

/// A bet or raise is a positive multiple of `CHIP`.
pub const CHIP: u32 = 25;

/// The amount can be bet: it is positive and a multiple of 25.
pub open spec fn is_bet_size(amount: u32) -> bool {
    amount != 0 && amount % CHIP == 0
}

/// An action; where it is a bet or raise, of an amount that can be bet.
#[derive(Debug, PartialEq, Eq, Clone, Copy, Hash, Structural)]
pub struct Action(ActionValue);

impl View for Action {
    type V = ActionValue;

    closed spec fn view(&self) -> ActionValue {
        self.0
    }
}

impl Action {
    #[verifier::type_invariant]
    closed spec fn sized(self) -> bool {
        self.0 matches ActionValue::BetOrRaise(amount) ==> is_bet_size(amount)
    }

    pub fn exit() -> (r: Self)
        ensures
            r@ == ActionValue::Exit,
    {
        Action(ActionValue::Exit)
    }

    pub fn fold() -> (r: Self)
        ensures
            r@ == ActionValue::Fold,
    {
        Action(ActionValue::Fold)
    }

    pub fn check_or_call() -> (r: Self)
        ensures
            r@ == ActionValue::CheckOrCall,
    {
        Action(ActionValue::CheckOrCall)
    }

    /// A bet or raise of `amount`, where the amount can be bet.
    pub fn bet_or_raise(amount: u32) -> (r: Option<Self>)
        ensures
            r is Some <==> is_bet_size(amount),
            r is Some ==> r->0@ == ActionValue::BetOrRaise(amount),
    {
        if amount == 0 || amount % CHIP != 0 {
            None
        } else {
            Some(Action(ActionValue::BetOrRaise(amount)))
        }
    }

    pub fn all_in() -> (r: Self)
        ensures
            r@ == ActionValue::AllIn,
    {
        Action(ActionValue::AllIn)
    }

    pub fn value(&self) -> (r: ActionValue)
        ensures
            r == self@,
            r matches ActionValue::BetOrRaise(amount) ==> is_bet_size(amount),
    {
        proof {
            use_type_invariant(self);
        }
        self.0
    }

    pub fn is_exit(&self) -> (r: bool)
        ensures
            r == (self@ is Exit),
    {
        matches!(self.0, ActionValue::Exit)
    }

    pub fn is_fold(&self) -> (r: bool)
        ensures
            r == (self@ is Fold),
    {
        matches!(self.0, ActionValue::Fold)
    }

    pub fn is_check_or_call(&self) -> (r: bool)
        ensures
            r == (self@ is CheckOrCall),
    {
        matches!(self.0, ActionValue::CheckOrCall)
    }

    pub fn is_all_in(&self) -> (r: bool)
        ensures
            r == (self@ is AllIn),
    {
        matches!(self.0, ActionValue::AllIn)
    }
}

/// White space as `char::is_whitespace` has it: the code points with the
/// Unicode property `White_Space`.
pub open spec fn is_white_space(c: char) -> bool {
    let n = c as u32;
    (9 <= n <= 13) || n == 0x20 || n == 0x85 || n == 0xA0 || n == 0x1680 || (0x2000 <= n
        <= 0x200A) || n == 0x2028 || n == 0x2029 || n == 0x202F || n == 0x205F || n == 0x3000
}

/// The first place from `from` on that holds no white space; the length of
/// the text where there is none.
pub open spec fn first_mark(t: Seq<char>, from: int) -> int
    decreases t.len() - from,
{
    if from < 0 || from >= t.len() {
        t.len() as int
    } else if is_white_space(t[from]) {
        first_mark(t, from + 1)
    } else {
        from
    }
}

/// The place behind the last character before `to` that is no white
/// space; 0 where there is none.
pub open spec fn last_mark(t: Seq<char>, to: int) -> int
    decreases to,
{
    if to <= 0 || to > t.len() {
        0
    } else if is_white_space(t[to - 1]) {
        last_mark(t, to - 1)
    } else {
        to
    }
}

/// The text without the white space at its two ends.
pub open spec fn trimmed(t: Seq<char>) -> Seq<char> {
    let from = first_mark(t, 0);
    let to = last_mark(t, t.len() as int);
    if from < to {
        t.subrange(from, to)
    } else {
        Seq::empty()
    }
}

/// The letter in lower case, where the character is an ASCII capital.
pub open spec fn lower(c: char) -> char {
    if 'A' <= c && c <= 'Z' {
        ((c as u8) + 32) as char
    } else {
        c
    }
}

/// The value of a decimal digit.
pub open spec fn digit(c: char) -> Option<nat> {
    if '0' <= c && c <= '9' {
        Some(((c as u8) - 48) as nat)
    } else {
        None
    }
}

/// The number that one or more decimal digits write.
pub open spec fn digits_value(t: Seq<char>) -> Option<nat>
    decreases t.len(),
{
    if t.len() == 0 {
        None
    } else {
        match digit(t.last()) {
            None => None,
            Some(d) => if t.len() == 1 {
                Some(d)
            } else {
                match digits_value(t.drop_last()) {
                    Some(v) => Some(10 * v + d),
                    None => None,
                }
            },
        }
    }
}

/// The number that a text writes: decimal digits, with or without a plus
/// sign before them.
pub open spec fn number(t: Seq<char>) -> Option<nat> {
    if t.len() > 0 && t[0] == '+' {
        digits_value(t.skip(1))
    } else {
        digits_value(t)
    }
}

/// The action that a text names, white space at its ends aside: one of
/// the letters `e` or `x` (leave), `f` (fold), `c` (check or call), `a`
/// (all in), in either case; or the amount of a bet or raise.
pub open spec fn action_of_text(t: Seq<char>) -> Result<ActionValue, ()> {
    let w = trimmed(t);
    let letter = lower(w[0]);
    if w.len() == 1 && (letter == 'e' || letter == 'x') {
        Ok(ActionValue::Exit)
    } else if w.len() == 1 && letter == 'f' {
        Ok(ActionValue::Fold)
    } else if w.len() == 1 && letter == 'c' {
        Ok(ActionValue::CheckOrCall)
    } else if w.len() == 1 && letter == 'a' {
        Ok(ActionValue::AllIn)
    } else {
        match number(w) {
            Some(n) => if n <= u32::MAX && is_bet_size(n as u32) {
                Ok(ActionValue::BetOrRaise(n as u32))
            } else {
                Err(())
            },
            None => Err(()),
        }
    }
}

/// More digits write no smaller number.
pub proof fn lemma_digits_grow(t: Seq<char>, k: int)
    requires
        1 <= k <= t.len(),
        digits_value(t) is Some,
    ensures
        digits_value(t.take(k)) is Some,
        digits_value(t.take(k))->0 <= digits_value(t)->0,
    decreases t.len(),
{
    if k == t.len() {
        assert(t.take(k) =~= t);
    } else {
        assert(t.drop_last().take(k) =~= t.take(k));
        lemma_digits_grow(t.drop_last(), k);
    }
}

/// The characters of a text.
fn chars_of(s: &str) -> (v: Vec<char>)
    ensures
        v@ == s@,
{
    let mut v: Vec<char> = Vec::new();
    for c in it: s.chars()
        invariant
            v@ == it.seq().take(it.index() as int),
            it.seq() == s@,
    {
        v.push(c);
    }
    v
}

fn white_space(c: char) -> (r: bool)
    ensures
        r == is_white_space(c),
{
    let n = c as u32;
    (9 <= n && n <= 13) || n == 0x20 || n == 0x85 || n == 0xA0 || n == 0x1680 || (0x2000 <= n && n
        <= 0x200A) || n == 0x2028 || n == 0x2029 || n == 0x202F || n == 0x205F || n == 0x3000
}

/// Reads the number that the characters from `from` up to `to` write,
/// where it fits 32 bits.
fn read_number(chars: &Vec<char>, from: usize, to: usize) -> (r: Option<u32>)
    requires
        from <= to <= chars@.len(),
    ensures
        r == match number(chars@.subrange(from as int, to as int)) {
            Some(n) => if n <= u32::MAX {
                Some(n as u32)
            } else {
                None
            },
            None => None,
        },
{
    let ghost w = chars@.subrange(from as int, to as int);
    let start = if from < to && chars[from] == '+' {
        from + 1
    } else {
        from
    };
    let ghost d = chars@.subrange(start as int, to as int);
    proof {
        if start > from {
            assert(w[0] == '+');
            assert(w.skip(1) =~= d);
        } else {
            assert(w =~= d);
        }
        assert(number(w) == digits_value(d));
    }
    if start == to {
        return None;
    }
    let mut value: u64 = 0;
    let mut i: usize = start;
    while i < to
        invariant
            start <= i <= to <= chars@.len(),
            from <= start,
            d == chars@.subrange(start as int, to as int),
            number(chars@.subrange(from as int, to as int)) == digits_value(d),
            value <= u32::MAX,
            i == start ==> value == 0,
            i > start ==> digits_value(d.take(i - start)) == Some(value as nat),
        decreases to - i,
    {
        let c = chars[i];
        let ghost k = i - start;
        let ghost head = d.take(k + 1);
        proof {
            assert(d.len() == to - start);
            assert(head.len() == k + 1);
            assert(head.last() == c);
            assert(head.drop_last() =~= d.take(k));
        }
        if !('0' <= c && c <= '9') {
            proof {
                assert(digit(c) is None);
                assert(digits_value(head) is None);
                if digits_value(d) is Some {
                    lemma_digits_grow(d, k + 1);
                }
            }
            return None;
        }
        let next = value * 10 + ((c as u8) - 48) as u64;
        proof {
            assert(digit(c) == Some(((c as u8) - 48) as nat));
            if k == 0 {
                assert(head.len() == 1);
            }
            assert(digits_value(head) == Some(next as nat));
        }
        if next > u32::MAX as u64 {
            proof {
                if digits_value(d) is Some {
                    lemma_digits_grow(d, k + 1);
                }
            }
            return None;
        }
        value = next;
        i += 1;
    }
    assert(d.take(to - start) =~= d);
    Some(value as u32)
}

impl Action {
    /// Reads an action from its text.
    pub fn parse(s: &str) -> (r: Result<Action, ()>)
        ensures
            match r {
                Ok(action) => action_of_text(s@) == Ok::<ActionValue, ()>(action@),
                Err(_) => action_of_text(s@) is Err,
            },
    {
        let chars = chars_of(s);
        let mut from: usize = 0;
        while from < chars.len() && white_space(chars[from])
            invariant
                from <= chars@.len(),
                first_mark(chars@, from as int) == first_mark(chars@, 0),
            decreases chars@.len() - from,
        {
            from += 1;
        }
        let mut to: usize = chars.len();
        while to > 0 && white_space(chars[to - 1])
            invariant
                to <= chars@.len(),
                last_mark(chars@, to as int) == last_mark(chars@, chars@.len() as int),
            decreases to,
        {
            to -= 1;
        }
        if from >= to {
            assert(trimmed(chars@).len() == 0);
            return Err(());
        }
        assert(trimmed(chars@) == chars@.subrange(from as int, to as int));
        if to - from == 1 {
            let c = chars[from];
            let letter = if 'A' <= c && c <= 'Z' {
                ((c as u8) + 32) as char
            } else {
                c
            };
            if letter == 'e' || letter == 'x' {
                return Ok(Action::exit());
            } else if letter == 'f' {
                return Ok(Action::fold());
            } else if letter == 'c' {
                return Ok(Action::check_or_call());
            } else if letter == 'a' {
                return Ok(Action::all_in());
            }
        }
        match read_number(&chars, from, to) {
            Some(amount) => match Action::bet_or_raise(amount) {
                Some(action) => Ok(action),
                None => Err(()),
            },
            None => Err(()),
        }
    }
}

impl FromStr for Action {
    type Err = ();

    fn from_str(s: &str) -> (r: Result<Self, Self::Err>)
        ensures
            match r {
                Ok(action) => action_of_text(s@) == Ok::<ActionValue, ()>(action@),
                Err(_) => action_of_text(s@) is Err,
            },
    {
        Action::parse(s)
    }
}

/// How a game ended.
#[derive(Debug, PartialEq, Eq, Clone, Copy, Hash)]
pub enum GameOver {
    Defeated(bool),
    ExitAbandon(bool),
    ExitCheckout(bool, [u32; 2]),
    AbortCheckout([u32; 2]),
    HandsReached([u32; 2]),
    GameAbort,
}

/// Why an action could not be sent.
#[derive(Debug, PartialEq, Eq, Clone, Copy, Hash)]
pub enum ActionSendError {
    NotHeroTurn,
    InvalidAction,
    GameAbort(GameOver),
}

/// The buy-in of a cash game, in big blinds.
#[derive(Debug, PartialEq, Eq, Clone, Copy, Hash, Structural)]
pub enum CashBuyin {
    BB15,
    BB30,
    BB50,
    BB75,
    BB100,
    BB150,
    BB200,
    BB250,
    BB300,
}

impl Default for CashBuyin {
    fn default() -> (r: Self)
        ensures
            r == CashBuyin::BB100,
    {
        CashBuyin::BB100
    }
}

/// How fast the blinds of a sit-and-go rise.
#[derive(Debug, PartialEq, Eq, Clone, Copy, Hash, Structural)]
pub enum SNGSpeed {
    Turbo,
    Medium,
    Slow,
}

impl Default for SNGSpeed {
    fn default() -> (r: Self)
        ensures
            r == SNGSpeed::Slow,
    {
        SNGSpeed::Slow
    }
}

/// The kind of game: a cash game with a buy-in and a number of hands (0:
/// no limit), or a sit-and-go.
#[derive(Debug, PartialEq, Eq, Clone, Copy, Hash, Structural)]
pub enum GameType {
    Cash { buyin: CashBuyin, hands: u16 },
    SNG(SNGSpeed),
}

impl Default for GameType {
    fn default() -> (r: Self)
        ensures
            r == GameType::SNG(SNGSpeed::Slow),
    {
        GameType::SNG(SNGSpeed::Slow)
    }
}

/// The big blind of a cash game.
pub const CASH_BLIND: u16 = 500;

impl GameType {
    /// The stack that each player starts with: the buy-in at a big blind
    /// of 500 in a cash game; 3000, 7500 or 15000 in a sit-and-go.
    pub open spec fn spec_init_stack(self) -> u32 {
        match self {
            GameType::Cash { buyin, .. } => match buyin {
                CashBuyin::BB15 => 7500,
                CashBuyin::BB30 => 15000,
                CashBuyin::BB50 => 25000,
                CashBuyin::BB75 => 37500,
                CashBuyin::BB100 => 50000,
                CashBuyin::BB150 => 75000,
                CashBuyin::BB200 => 100000,
                CashBuyin::BB250 => 125000,
                CashBuyin::BB300 => 150000,
            },
            GameType::SNG(speed) => match speed {
                SNGSpeed::Turbo => 3000,
                SNGSpeed::Medium => 7500,
                SNGSpeed::Slow => 15000,
            },
        }
    }

    /// The big blinds, level by level.
    pub open spec fn spec_blind_levels(self) -> Seq<u16> {
        match self {
            GameType::Cash { .. } => seq![500u16],
            GameType::SNG(speed) => match speed {
                SNGSpeed::Turbo => seq![50u16, 100, 150, 200],
                SNGSpeed::Medium => seq![50u16, 100, 150, 200, 300, 400, 500],
                SNGSpeed::Slow => seq![50u16, 100, 150, 200, 300, 400, 500, 600, 800, 1000],
            },
        }
    }

    pub fn cash_default() -> (r: Self)
        ensures
            r == (GameType::Cash { buyin: CashBuyin::BB100, hands: 0 }),
    {
        GameType::Cash { buyin: CashBuyin::BB100, hands: 0 }
    }

    pub fn is_sng(self) -> (r: bool)
        ensures
            r == (self is SNG),
    {
        matches!(self, GameType::SNG(_))
    }

    /// The number of hands after which a cash game ends, where it has one.
    pub fn hands_limit(self) -> (r: Option<u16>)
        ensures
            r == match self {
                GameType::Cash { hands, .. } => if hands == 0 {
                    None
                } else {
                    Some(hands)
                },
                GameType::SNG(_) => None,
            },
    {
        match self {
            GameType::Cash { hands, .. } => {
                if hands == 0 {
                    None
                } else {
                    Some(hands)
                }
            },
            GameType::SNG(_) => None,
        }
    }

    pub fn init_stack(self) -> (r: u32)
        ensures
            r == self.spec_init_stack(),
            3000 <= r <= 150000,
    {
        match self {
            GameType::Cash { buyin, .. } => match buyin {
                CashBuyin::BB15 => 7500,
                CashBuyin::BB30 => 15000,
                CashBuyin::BB50 => 25000,
                CashBuyin::BB75 => 37500,
                CashBuyin::BB100 => 50000,
                CashBuyin::BB150 => 75000,
                CashBuyin::BB200 => 100000,
                CashBuyin::BB250 => 125000,
                CashBuyin::BB300 => 150000,
            },
            GameType::SNG(speed) => match speed {
                SNGSpeed::Turbo => 3000,
                SNGSpeed::Medium => 7500,
                SNGSpeed::Slow => 15000,
            },
        }
    }

    pub fn blind_levels(self) -> (r: Vec<u16>)
        ensures
            r@ == self.spec_blind_levels(),
            r@.len() >= 1,
    {
        let r = match self {
            GameType::Cash { .. } => vec![500u16],
            GameType::SNG(speed) => match speed {
                SNGSpeed::Turbo => vec![50u16, 100, 150, 200],
                SNGSpeed::Medium => vec![50u16, 100, 150, 200, 300, 400, 500],
                SNGSpeed::Slow => vec![50u16, 100, 150, 200, 300, 400, 500, 600, 800, 1000],
            },
        };
        assert(r@ =~= self.spec_blind_levels());
        r
    }
}

/// Whose cards an onlooker may see: nobody's, one player's (`true` for
/// the first player), or everybody's.
#[derive(Debug, PartialEq, Eq, Clone, Copy, Hash, Structural)]
pub enum Visibility {
    Nobody,
    Player(bool),
    God,
}

/// What the game lets the players and onlookers see.
#[derive(Debug, PartialEq, Eq, Clone, Copy, Hash)]
pub enum ObservableEvent {
    DealHoles([Option<Hole>; 2]),
    ShowdownAll([Hole; 2]),
    ShowdownAuto([Hole; 2]),
    PlayerAction(Action),
    GameOver(GameOver),
}

/// What a player is told: something all may see, or that it is the
/// player's turn, with the bounds on what the player may do.
#[derive(Debug, PartialEq, Eq, Clone, Hash)]
pub enum PlayerEvent {
    Observable(ObservableEvent),
    HeroTurn(BetBound),
}

impl PlayerEvent {
    /// The event that all may see, which this one is.
    pub fn unwrap_observable(self) -> (r: ObservableEvent)
        requires
            self is Observable,
        ensures
            self == PlayerEvent::Observable(r),
    {
        match self {
            PlayerEvent::Observable(observable) => observable,
            PlayerEvent::HeroTurn(_) => ObservableEvent::GameOver(GameOver::GameAbort),
        }
    }
}

/// `RangeInclusive::end`: the upper bound of a range that has not been run
/// through to its end.
pub assume_specification<Idx>[ RangeInclusive::<Idx>::end ](r: &RangeInclusive<Idx>) -> (e: &Idx)
    ensures
        !r@.exhausted ==> *e == r@.end,
;

/// `Clone::clone` of a `RangeInclusive`: a range of clones of the bounds;
/// what a clone of a bound is, the bound's type decides.
pub assume_specification<Idx>[ <RangeInclusive<Idx> as Clone>::clone ](
    r: &RangeInclusive<Idx>,
) -> RangeInclusive<Idx> where Idx: Clone
;

/// The amount lies in the range.
pub open spec fn in_range(r: RangeInclusive<u32>, amount: u32) -> bool {
    r@.start <= amount && if r@.exhausted {
        amount < r@.end
    } else {
        amount <= r@.end
    }
}

/// What a player may do at a turn, besides leaving and folding, which are
/// always open. A range holds the amounts that may be bet or raised to.
#[derive(Debug, PartialEq, Eq, Clone, Hash)]
pub enum BetBound {
    FoldCheckAllin,
    FoldCheckBetAllin(RangeInclusive<u32>),
    FoldAllin,
    FoldCall,
    FoldCallAllin,
    FoldCallRaiseAllin(RangeInclusive<u32>),
    FoldBetAllin(RangeInclusive<u32>),
    FoldRaiseAllin(RangeInclusive<u32>),
}

impl BetBound {
    /// The range of amounts, where the bound has one.
    pub open spec fn range(self) -> Option<RangeInclusive<u32>> {
        match self {
            BetBound::FoldCheckBetAllin(r) | BetBound::FoldCallRaiseAllin(r) | BetBound::FoldBetAllin(
                r,
            ) | BetBound::FoldRaiseAllin(r) => Some(r),
            _ => None,
        }
    }

    /// The range, where there is one, has not been run through.
    pub open spec fn wf(self) -> bool {
        self.range() matches Some(r) ==> !r@.exhausted
    }

    /// The bound lets the action through.
    pub open spec fn allows(self, action: ActionValue) -> bool {
        match action {
            ActionValue::Exit | ActionValue::Fold => true,
            ActionValue::CheckOrCall => !(self is FoldAllin || self is FoldBetAllin
                || self is FoldRaiseAllin),
            ActionValue::AllIn => !(self is FoldCall),
            ActionValue::BetOrRaise(amount) => match self.range() {
                Some(r) => in_range(r, amount),
                None => false,
            },
        }
    }

    /// What the action comes to under the bound: a bet or raise of the
    /// whole range is an all-in.
    pub open spec fn settles(self, action: ActionValue) -> ActionValue {
        match (action, self.range()) {
            (ActionValue::BetOrRaise(amount), Some(r)) => if amount == r@.end {
                ActionValue::AllIn
            } else {
                action
            },
            _ => action,
        }
    }

    /// Tells whether the bound lets the action through.
    pub fn validate_action(&self, action: Action) -> (r: bool)
        ensures
            r == self.allows(action@),
    {
        if action.is_exit() || action.is_fold() {
            return true;
        }
        match self {
            BetBound::FoldCheckAllin | BetBound::FoldCallAllin => {
                action.is_check_or_call() || action.is_all_in()
            },
            BetBound::FoldCheckBetAllin(range) | BetBound::FoldCallRaiseAllin(range) => {
                if let ActionValue::BetOrRaise(amount) = action.value() {
                    range.contains(&amount)
                } else {
                    action.is_check_or_call() || action.is_all_in()
                }
            },
            BetBound::FoldAllin => action.is_all_in(),
            BetBound::FoldCall => action.is_check_or_call(),
            BetBound::FoldBetAllin(range) | BetBound::FoldRaiseAllin(range) => {
                if let ActionValue::BetOrRaise(amount) = action.value() {
                    range.contains(&amount)
                } else {
                    action.is_all_in()
                }
            },
        }
    }

    /// The action as it is played under the bound, where the bound lets it
    /// through.
    pub fn alter_eq(&self, action: Action) -> (r: Option<Action>)
        requires
            self.wf(),
        ensures
            r is Some <==> self.allows(action@),
            r is Some ==> r->0@ == self.settles(action@),
    {
        if !self.validate_action(action) {
            return None;
        }
        if let ActionValue::BetOrRaise(amount) = action.value() {
            match self {
                BetBound::FoldCheckBetAllin(range)
                | BetBound::FoldCallRaiseAllin(range)
                | BetBound::FoldBetAllin(range)
                | BetBound::FoldRaiseAllin(range) => {
                    if amount == *range.end() {
                        return Some(Action::all_in());
                    }
                },
                _ => {},
            }
        }
        Some(action)
    }
}

/// The 52 cards in their first order: by rank from the Deuce up, and in
/// each rank Spades, Hearts, Diamonds, Clubs.
pub open spec fn fresh_deck() -> Seq<Card> {
    Seq::new(52, |k: int| Card(Value::of_straight_ordinal(k / 4 + 1), suit_at(k % 4)))
}

/// The suit at a place in the order Spades, Hearts, Diamonds, Clubs.
pub open spec fn suit_at(k: int) -> Suit {
    if k == 0 {
        Suit::Spades
    } else if k == 1 {
        Suit::Hearts
    } else if k == 2 {
        Suit::Diamonds
    } else {
        Suit::Clubs
    }
}

/// The first order holds every card once.
pub proof fn lemma_fresh_deck_distinct()
    ensures
        fresh_deck().no_duplicates(),
        fresh_deck().len() == 52,
{
    assert forall|i: int, j: int| 0 <= i < 52 && 0 <= j < 52 && i != j implies fresh_deck()[i]
        != fresh_deck()[j] by {
        if i / 4 == j / 4 {
            assert(i % 4 != j % 4);
        }
    }
}

/// `rand::seq::SliceRandom::shuffle` with the generator of `rand::rng()`:
/// puts the cards in another order, in place. Which order is left to
/// chance; the cards are the same.
#[verifier::external_body]
fn shuffle_cards(cards: &mut [Card; 52])
    ensures
        final(cards)@.to_multiset() == old(cards)@.to_multiset(),
{
    cards.shuffle(&mut rand::rng());
}

/// The 52 cards, in some order.
#[derive(Debug, PartialEq, Eq, Clone, Copy, Hash)]
pub struct Deck([Card; 52]);

impl View for Deck {
    type V = Seq<Card>;

    closed spec fn view(&self) -> Seq<Card> {
        self.0@
    }
}

impl Default for Deck {
    fn default() -> (r: Self)
        ensures
            r@ == fresh_deck(),
    {
        let mut cards = [Card(Value::Ace, Suit::Spades); 52];
        let suits = [Suit::Spades, Suit::Hearts, Suit::Diamonds, Suit::Clubs];
        let mut k: usize = 0;
        while k < 52
            invariant
                k <= 52,
                suits@ == seq![Suit::Spades, Suit::Hearts, Suit::Diamonds, Suit::Clubs],
                forall|i: int| 0 <= i < k ==> cards@[i] == fresh_deck()[i],
            decreases 52 - k,
        {
            let rank = (k / 4) as u8;
            cards[k] = Card(Value::from_u8_straight(rank + 1), suits[k % 4]);
            k += 1;
        }
        proof {
            assert(cards@ =~= fresh_deck());
            lemma_fresh_deck_distinct();
        }
        Deck(cards)
    }
}

impl Deck {
    #[verifier::type_invariant]
    closed spec fn distinct(self) -> bool {
        self.0@.no_duplicates()
    }

    /// The cards from the top down.
    pub fn cards(&self) -> (r: [Card; 52])
        ensures
            r@ == self@,
            r@.no_duplicates(),
    {
        proof {
            use_type_invariant(self);
        }
        self.0
    }

    /// Shuffles the deck and hands it to a dealer, who deals from the top.
    pub fn shuffle_and_deal(&mut self) -> (r: Dealer)
        ensures
            final(self)@.to_multiset() == old(self)@.to_multiset(),
            r@ == final(self)@,
            r@.len() == 52,
    {
        proof {
            use_type_invariant(&*self);
        }
        let mut cards = self.0;
        shuffle_cards(&mut cards);
        proof {
            lemma_order_is_immaterial(cards@, self.0@);
        }
        self.0 = cards;
        let r = Dealer { cards, next: 0 };
        assert(r@ =~= cards@);
        r
    }
}

/// A shuffled deck of which the cards from the top have been dealt as far
/// as `next`.
#[derive(Debug)]
pub struct Dealer {
    cards: [Card; 52],
    next: usize,
}

impl Clone for Dealer {
    fn clone(&self) -> (r: Self)
        ensures
            r@ == self@,
    {
        proof {
            use_type_invariant(self);
        }
        Dealer { cards: self.cards, next: self.next }
    }
}

impl View for Dealer {
    type V = Seq<Card>;

    /// The cards that are left, the next to be dealt first.
    closed spec fn view(&self) -> Seq<Card> {
        self.cards@.skip(self.next as int)
    }
}

impl Dealer {
    #[verifier::type_invariant]
    closed spec fn distinct(self) -> bool {
        self.cards@.no_duplicates() && self.next <= 52
    }

    /// How many cards are left.
    pub fn remaining(&self) -> (n: usize)
        ensures
            n == self@.len(),
            self@.no_duplicates(),
    {
        proof {
            use_type_invariant(self);
        }
        52 - self.next
    }

    /// Deals the next card.
    pub fn deal_card(&mut self) -> (r: Card)
        requires
            old(self)@.len() >= 1,
        ensures
            r == old(self)@[0],
            final(self)@ == old(self)@.skip(1),
    {
        proof {
            use_type_invariant(&*self);
        }
        let card = self.cards[self.next];
        self.next = self.next + 1;
        assert(self@ =~= old(self)@.skip(1));
        card
    }

    /// Deals the next two cards as a holding.
    pub fn deal_hole(&mut self) -> (r: Hole)
        requires
            old(self)@.len() >= 2,
        ensures
            r@ == old(self)@.take(2),
            final(self)@ == old(self)@.skip(2),
    {
        proof {
            use_type_invariant(&*self);
        }
        let cards = [self.cards[self.next], self.cards[self.next + 1]];
        self.next = self.next + 2;
        assert(cards@ =~= old(self)@.take(2));
        assert(self@ =~= old(self)@.skip(2));
        Hole::unchecked(cards)
    }

    /// Deals the next three cards as a flop.
    pub fn deal_flop(&mut self) -> (r: Flop)
        requires
            old(self)@.len() >= 3,
        ensures
            r@ == old(self)@.take(3),
            final(self)@ == old(self)@.skip(3),
    {
        proof {
            use_type_invariant(&*self);
        }
        let cards = [self.cards[self.next], self.cards[self.next + 1], self.cards[self.next + 2]];
        self.next = self.next + 3;
        assert(cards@ =~= old(self)@.take(3));
        assert(self@ =~= old(self)@.skip(3));
        Flop::unchecked(cards)
    }
}

/// What a game of two keeps track of: the kind of game, the chips, and the
/// hand that is being played.
#[derive(Debug, Clone)]
pub struct HeadsUp {
    /// How the game ended, once it has.
    pub game_over: Option<GameOver>,
    pub is_sng: bool,
    pub hands_limit: Option<u16>,
    /// The big blinds of the levels still to come.
    pub blind_levels: Vec<u16>,
    /// The big blind of the level that is played.
    pub cur_blind: u16,
    /// Whose turn it is: `true` for the first player.
    pub cur_turn: bool,
    /// Who has the button, and with it the small blind.
    pub button: bool,
    /// The chips of each player at the start of the hand.
    pub stacks: [u32; 2],
    pub pot: u32,
    /// What each player has put in during the betting round.
    pub cur_round: [u32; 2],
    /// What each player has left, the chips of the betting round counted
    /// in.
    pub behinds: [u32; 2],
    /// The bet that stood before the last raise.
    pub last_bet: u32,
    pub last_aggressor: bool,
    pub opened: bool,
    pub holes: [Option<Hole>; 2],
    pub board: Board,
    /// All that has been seen, in order.
    pub events: Vec<ObservableEvent>,
}

impl HeadsUp {
    /// The chips in play can be counted in 32 bits.
    pub open spec fn wf(self) -> bool {
        self.pot + self.behinds[0] + self.behinds[1] <= u32::MAX
    }

    /// The smallest raise can be counted in 32 bits, where the player whose
    /// turn it is could make one: the bet that is faced is no smaller than
    /// the one before, and twice the one less the other fits.
    pub open spec fn raise_fits(self) -> bool {
        let hero = self.hero();
        let facing = self.cur_round[1 - hero];
        ||| self.cur_round[0] == 0 && self.cur_round[1] == 0
        ||| self.behinds[hero] <= facing
        ||| self.behinds[1 - hero] == facing
        ||| self.last_bet <= facing && 2 * facing - self.last_bet <= u32::MAX
    }

    /// The player whose turn it is, as a place: 0 for the first player.
    pub open spec fn hero(self) -> int {
        if self.cur_turn {
            0
        } else {
            1
        }
    }

    /// The small blind: half the big blind, rounded down.
    pub open spec fn small_blind(self) -> u32 {
        (self.cur_blind / 2) as u32
    }

    /// The game before its first hand: both players have the starting
    /// stack, the first blind level is played, and the player with the
    /// button acts first.
    pub fn new(game_type: GameType, button: bool) -> (r: Self)
        ensures
            r.wf(),
            r.cur_round@ == seq![0u32, 0u32],
            r.last_bet == 0,
            r.game_over is None,
            r.is_sng == (game_type is SNG),
            r.cur_blind == game_type.spec_blind_levels()[0],
            r.blind_levels@ == game_type.spec_blind_levels().skip(1),
            r.cur_turn == button,
            r.button == button,
            r.last_aggressor == button,
            !r.opened,
            r.pot == 0,
            r.stacks@ == seq![game_type.spec_init_stack(), game_type.spec_init_stack()],
            r.behinds == r.stacks,
            r.holes@ == seq![None::<Hole>, None::<Hole>],
            r.board@.len() == 0,
            r.events@.len() == 0,
    {
        let init_stack = game_type.init_stack();
        let stacks = [init_stack, init_stack];
        let mut blind_levels = game_type.blind_levels();
        let cur_blind = blind_levels.remove(0);
        assert(blind_levels@ =~= game_type.spec_blind_levels().skip(1));
        let holes: [Option<Hole>; 2] = [None, None];
        assert(holes@ =~= seq![None::<Hole>, None::<Hole>]);
        assert(stacks@ =~= seq![game_type.spec_init_stack(), game_type.spec_init_stack()]);
        let cur_round = [0u32, 0u32];
        assert(cur_round@ =~= seq![0u32, 0u32]);
        HeadsUp {
            game_over: None,
            is_sng: game_type.is_sng(),
            hands_limit: game_type.hands_limit(),
            blind_levels,
            cur_blind,
            cur_turn: button,
            button,
            stacks,
            pot: 0,
            cur_round,
            behinds: stacks,
            last_bet: 0,
            last_aggressor: button,
            opened: false,
            holes,
            board: Board::default(),
            events: Vec::new(),
        }
    }

    pub fn is_over(&self) -> (r: bool)
        ensures
            r == self.game_over is Some,
    {
        self.game_over.is_some()
    }

    pub fn game_over(&self) -> (r: Option<GameOver>)
        ensures
            r == self.game_over,
    {
        self.game_over
    }

    /// How the game ends when it breaks off: a sit-and-go is void, a cash
    /// game pays out the stacks.
    pub fn abort(&self) -> (r: GameOver)
        ensures
            r == if self.is_sng {
                GameOver::GameAbort
            } else {
                GameOver::AbortCheckout(self.stacks)
            },
    {
        if self.is_sng {
            GameOver::GameAbort
        } else {
            GameOver::AbortCheckout(self.stacks)
        }
    }

    /// How the game ends when `player` leaves: a sit-and-go is given up, a
    /// cash game pays out the stacks.
    pub fn force_exit(&self, player: bool) -> (r: GameOver)
        ensures
            r == if self.is_sng {
                GameOver::ExitAbandon(player)
            } else {
                GameOver::ExitCheckout(player, self.stacks)
            },
    {
        if self.is_sng {
            GameOver::ExitAbandon(player)
        } else {
            GameOver::ExitCheckout(player, self.stacks)
        }
    }

    pub fn set_game_over(&mut self, game_over: GameOver)
        ensures
            *final(self) == (HeadsUp { game_over: Some(game_over), ..*old(self) }),
    {
        self.game_over = Some(game_over);
    }

    pub fn set_holes(&mut self, holes: [Hole; 2])
        ensures
            *final(self) == (HeadsUp { holes: final(self).holes, ..*old(self) }),
            final(self).holes@ == seq![Some(holes@[0]), Some(holes@[1])],
    {
        self.holes = [Some(holes[0]), Some(holes[1])];
        assert(self.holes@ =~= seq![Some(holes@[0]), Some(holes@[1])]);
    }

    pub fn big_blind(&self) -> (r: u32)
        ensures
            r == self.cur_blind,
    {
        self.cur_blind as u32
    }

    /// The smaller of what the two players have left.
    pub fn effective_behind(&self) -> (r: u32)
        ensures
            r <= self.behinds[0],
            r <= self.behinds[1],
            r == self.behinds[0] || r == self.behinds[1],
    {
        if self.behinds[0] <= self.behinds[1] {
            self.behinds[0]
        } else {
            self.behinds[1]
        }
    }

    /// What the player whose turn it is may do, by what is left and what
    /// the other has bet.
    pub open spec fn spec_bet_bound(self) -> BetBound {
        let hero = self.hero();
        let behind = self.behinds[hero];
        let facing = self.cur_round[1 - hero];
        let min_raise = 2 * facing - self.last_bet;
        if self.cur_round[0] == 0 && self.cur_round[1] == 0 {
            if behind <= self.cur_blind {
                BetBound::FoldCheckAllin
            } else {
                BetBound::FoldCheckBetAllin(bounds(self.cur_blind as u32, behind))
            }
        } else if behind <= facing {
            BetBound::FoldAllin
        } else if self.behinds[1 - hero] == facing {
            BetBound::FoldCall
        } else if behind <= min_raise {
            BetBound::FoldCallAllin
        } else {
            BetBound::FoldCallRaiseAllin(bounds(min_raise as u32, behind))
        }
    }

    /// What the player whose turn it is may do.
    pub fn bet_bound(&self) -> (r: BetBound)
        requires
            self.raise_fits(),
        ensures
            r.wf(),
            r.matches_bound(self.spec_bet_bound()),
    {
        let hero: usize = if self.cur_turn {
            0
        } else {
            1
        };
        let behind = self.behinds[hero];
        if self.cur_round[0] == 0 && self.cur_round[1] == 0 {
            let big_blind = self.big_blind();
            return if behind <= big_blind {
                BetBound::FoldCheckAllin
            } else {
                BetBound::FoldCheckBetAllin(RangeInclusive::new(big_blind, behind))
            };
        }
        let villain = 1 - hero;
        let villian_bet = self.cur_round[villain];
        if behind <= villian_bet {
            return BetBound::FoldAllin;
        }
        if self.behinds[villain] == villian_bet {
            return BetBound::FoldCall;
        }
        let min_raise = villian_bet + (villian_bet - self.last_bet);
        if behind <= min_raise {
            return BetBound::FoldCallAllin;
        }
        BetBound::FoldCallRaiseAllin(RangeInclusive::new(min_raise, behind))
    }
}

impl HeadsUp {
    /// The smaller of what the two players have left.
    pub open spec fn low_stack(self) -> u32 {
        if self.behinds[0] <= self.behinds[1] {
            self.behinds[0]
        } else {
            self.behinds[1]
        }
    }

    /// What the player without the button posts: the big blind, or what is
    /// left of the stack.
    pub open spec fn big_blind_post(self) -> u32 {
        let bb = if self.button {
            1int
        } else {
            0int
        };
        if self.cur_blind <= self.behinds[bb] {
            self.cur_blind as u32
        } else {
            self.behinds[bb]
        }
    }

    /// The state once the blinds are in. Where the smaller stack does not
    /// exceed the small blind, both players are all in for it at once.
    /// Else the button posts the small blind and the other player the big
    /// blind.
    pub open spec fn after_blinds(self) -> HeadsUp {
        let low = self.low_stack();
        if low <= self.small_blind() {
            HeadsUp {
                pot: (self.pot + 2 * low) as u32,
                behinds: [(self.behinds[0] - low) as u32, (self.behinds[1] - low) as u32],
                ..self
            }
        } else if self.button {
            HeadsUp { cur_round: [self.small_blind(), self.big_blind_post()], ..self }
        } else {
            HeadsUp { cur_round: [self.big_blind_post(), self.small_blind()], ..self }
        }
    }

    /// The blinds go in. The answer is `None` where both players are all
    /// in for less than the blinds and nothing is left to bet.
    pub fn deal_holes_int(&mut self) -> (r: Option<()>)
        requires
            old(self).wf(),
        ensures
            final(self).wf(),
            *final(self) == old(self).after_blinds(),
            r is None <==> old(self).low_stack() <= old(self).small_blind(),
    {
        let effective_stack = self.effective_behind();
        let big_blind = self.big_blind();
        let small_blind = big_blind / 2;
        if effective_stack <= small_blind {
            self.pot += effective_stack * 2;
            self.behinds[0] -= effective_stack;
            self.behinds[1] -= effective_stack;
            assert(self.behinds =~= old(self).after_blinds().behinds);
            return None;
        }
        let sb: usize = if self.button {
            0
        } else {
            1
        };
        let bb = 1 - sb;
        self.cur_round[sb] = small_blind;
        self.cur_round[bb] = if big_blind <= self.behinds[bb] {
            big_blind
        } else {
            self.behinds[bb]
        };
        assert(self.cur_round =~= old(self).after_blinds().cur_round);
        Some(())
    }

    /// The holdings are dealt and the blinds go in. Where betting is left
    /// to do, the answer names who acts first and within which bounds.
    pub fn deal_holes(&mut self, holes: [Hole; 2]) -> (r: Option<(bool, BetBound)>)
        requires
            old(self).wf(),
            old(self).last_bet == 0,
        ensures
            final(self).wf(),
            *final(self) == (HeadsUp { holes: final(self).holes, ..*old(self) }).after_blinds(),
            final(self).holes@ == seq![Some(holes@[0]), Some(holes@[1])],
            r is None <==> old(self).low_stack() <= old(self).small_blind(),
            r matches Some((turn, bound)) ==> turn == old(self).cur_turn && bound.wf()
                && bound.matches_bound(final(self).spec_bet_bound()),
    {
        self.set_holes(holes);
        match self.deal_holes_int() {
            Some(_) => Some((self.cur_turn, self.bet_bound())),
            None => None,
        }
    }

    /// Takes note of what was seen: the end of the game, the holdings that
    /// were dealt (the blinds go in with them), or the holdings shown at
    /// the showdown.
    pub fn event(&mut self, event: ObservableEvent)
        requires
            old(self).wf(),
        ensures
            final(self).wf(),
            final(self).events@ == old(self).events@.push(event),
            match event {
                ObservableEvent::GameOver(game_over) => *final(self) == (HeadsUp {
                    game_over: Some(game_over),
                    events: final(self).events,
                    ..*old(self)
                }),
                ObservableEvent::DealHoles(holes) => *final(self) == (HeadsUp {
                    holes,
                    events: final(self).events,
                    ..*old(self)
                }).after_blinds(),
                ObservableEvent::ShowdownAll(holes) => *final(self) == (HeadsUp {
                    holes: final(self).holes,
                    events: final(self).events,
                    ..*old(self)
                }) && final(self).holes@ == seq![Some(holes@[0]), Some(holes@[1])],
                _ => *final(self) == (HeadsUp { events: final(self).events, ..*old(self) }),
            },
    {
        self.events.push(event);
        match event {
            ObservableEvent::GameOver(game_over) => {
                self.set_game_over(game_over);
            },
            ObservableEvent::DealHoles(holes) => {
                self.holes = holes;
                let _ = self.deal_holes_int();
            },
            ObservableEvent::ShowdownAll(holes) => {
                self.set_holes(holes);
            },
            _ => {},
        }
    }
}

/// Some range from `start` up to `end`, both counted in, of which nothing
/// has been run through.
pub open spec fn bounds(start: u32, end: u32) -> RangeInclusive<u32> {
    choose|r: RangeInclusive<u32>| r@.start == start && r@.end == end && !r@.exhausted
}

impl BetBound {
    /// The two bounds are of one kind, with ranges that have the same
    /// bounds.
    pub open spec fn matches_bound(self, other: BetBound) -> bool {
        match (self, other) {
            (BetBound::FoldCheckAllin, BetBound::FoldCheckAllin) => true,
            (BetBound::FoldAllin, BetBound::FoldAllin) => true,
            (BetBound::FoldCall, BetBound::FoldCall) => true,
            (BetBound::FoldCallAllin, BetBound::FoldCallAllin) => true,
            (BetBound::FoldCheckBetAllin(a), BetBound::FoldCheckBetAllin(b)) => a@ == b@,
            (BetBound::FoldCallRaiseAllin(a), BetBound::FoldCallRaiseAllin(b)) => a@ == b@,
            (BetBound::FoldBetAllin(a), BetBound::FoldBetAllin(b)) => a@ == b@,
            (BetBound::FoldRaiseAllin(a), BetBound::FoldRaiseAllin(b)) => a@ == b@,
            _ => false,
        }
    }
}

} // verus!
