//! Playing cards and Texas Hold'em hand strength: card sets, five-card
//! ranking, seven-card showdown and the search for unbeatable holdings.

pub mod gameplay;
