pub mod trie;
pub mod fold;
pub mod text;
pub mod frequencies;
pub mod queries;
pub mod laws;
pub mod gamestate;
pub mod game;
pub mod render;

pub use frequencies::WordFrequencies;
pub use game::GameController;
pub use gamestate::{GameState, GameWord};
pub use trie::Trie;
