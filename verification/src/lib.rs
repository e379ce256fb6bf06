//! A verified blackjack engine: the card model, hand scoring with the greedy
//! soft/hard ace rule, the deck lifecycle (build, shuffle, draw), per-player
//! turn state, and winner resolution across the dealer and any number of
//! players. Console interaction is left to the surrounding program; every
//! rule of the game lives here, with its contract.

pub mod card;
pub mod deck;
pub mod game;
pub mod hand;
pub mod player;
pub mod text;

pub use card::Card;
pub use card::CardRank;
pub use card::CardSuit;
pub use card::RankValue;
pub use deck::Deck;
pub use game::Game;
pub use hand::Hand;
pub use player::Decision;
pub use player::Player;
