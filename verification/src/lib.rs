//! Rules engine for quantum tic-tac-toe: the classical and quantum boards, the
//! entanglement graph with its cycle detection, and the game engine that
//! applies placements and collapses.

pub mod board;
pub mod cascade;
pub mod classical;
pub mod collapse;
pub mod decide;
pub mod descent;
pub mod forest;
pub mod graph;
pub mod input;
pub mod laws;
pub mod marks;
pub mod onering;
pub mod quantum;
pub mod rules;
pub mod store;
pub mod traversal;

pub use board::BoardState;
pub use classical::{ClassicalBoardState, Mark};
pub use quantum::QuantumBoardState;
pub use rules::Move;
pub use store::CycleStore;
