//! Decision core for a turn-based multi-agent grid survival game: the board and
//! safety model, the one-turn simulator, path search and the search strategies
//! built on them.

pub mod alpha_beta;
pub mod analytics;
pub mod board;
pub mod game_tree;
pub mod path;
pub mod point;
pub mod profile;
pub mod sim;
pub mod simulator;

pub use point::{Dir, Move, Point, SafetyIndex};
pub use alpha_beta::AlphaBeta;
pub use analytics::Analytics;
pub use board::{Board, Game, Snake, State};
pub use game_tree::GameTree;
pub use profile::{
    string_to_profile, AStarBasic, Aggressive, Cautious, Controller, Follow, NotSuck, Profile,
    Straight,
};
pub use sim::Sim;
pub use simulator::{process_step, Future};
