pub mod rect;
pub mod rng;
pub mod map;
pub mod components;
pub mod combat;
pub mod world;
pub mod turn;

pub use turn::{RunState, State};
pub mod spawner;
pub mod player;
pub mod text;
