//! Evolution of totalistic cellular automata towards apoptotic growth:
//! rule tables, a toroidal grid simulator with a fitness score, and the
//! genetic operators and tournament that breed better rule tables.
//!
//! Every function states its behaviour as a contract over the
//! mathematical models in [`simulation`], and Verus proves the bodies
//! against those contracts. The only unproved statements are the few
//! contracts in [`random`] and [`text`] that describe calls into `rand`
//! and `std`.

pub mod automata;
pub mod board;
pub mod error;
pub mod grid;
pub mod mutation;
pub mod population;
pub mod random;
pub mod simulation;
pub mod square;
pub mod text;
pub mod tournament;
pub mod window;
