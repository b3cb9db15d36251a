//! The card model and everything built on it.

pub mod board;
pub mod boards;
pub mod boards_open;
pub mod card;
pub mod cards;
pub mod display;
pub mod flops;
pub mod flops_paired;
pub mod flops_straight;
pub mod flops_suited;
pub mod flops_suited_nuts;
pub mod flops_windows;
pub mod hand;
pub mod headsup;
pub mod nuts;
pub mod parse;
pub mod rank;
pub mod scan;
pub mod showdown;
pub mod strength;
pub mod tie;
pub mod unbeaten;

pub use self::board::{Board, BoardCards};
pub use self::card::{Card, DisplayMode, Suit, Value};
pub use self::cards::{CardsCombined, Flop, FullBoard, Hole};
pub use self::hand::{HandValue, SortedHandValue};
pub use self::nuts::FindNuts;
