pub mod game;
pub mod repr;

pub use game::{GameState, LegalCard, LegalCardIterator, LegalCardSet};
pub use repr::{Card, CardIterator, CardSet, Rank, Suit};
