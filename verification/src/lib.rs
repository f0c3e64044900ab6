//! Exact-cover Sudoku: a Dancing Links matrix, Algorithm X search over it,
//! and the board type, validator and deterministic generator around them.

pub mod board;
pub mod builder;
pub mod cover;
pub mod decode;
pub mod error;
pub mod exact;
pub mod generate;
pub mod inspect;
pub mod layout;
pub mod links;
pub mod matrix;
pub mod node;
pub mod pattern;
pub mod random;
pub mod search;
pub mod seed;
pub mod text;
