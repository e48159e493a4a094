//! Nine Men's Morris, solved.
//!
//! The board is a set of 24 points; a position is a pair of disjoint point
//! sets, `white` for the side to move and `black` for the side that waits.

pub mod analysis;
pub mod board;
pub mod byte_order;
pub mod database;
pub mod game;
pub mod index;
pub mod loading;
pub mod mapped;
pub mod mask;
pub mod movegen;
pub mod opening;
pub mod opening_cache;
pub mod oracle;
pub mod orbit;
pub mod orchestrate;
pub mod pair;
pub mod par;
pub mod persist;
pub mod play;
pub mod pos;
pub mod propagate;
pub mod rank;
pub mod retro;
pub mod rules;
pub mod runs;
pub mod server;
pub mod session;
pub mod symmetry;
pub mod text;
pub mod truth;
pub mod verify;
