//! A round tic-tac-toe board: a ring of ternary cells packed into a single
//! `u32` as base-3 digits, with rotation, reflection, a canonical form under
//! the ring's dihedral symmetry, and detection of winning lines.

pub mod arith;
pub mod board;
pub mod cell;
pub mod cells;
pub mod digits;
pub mod ring;
pub mod symmetry;

pub use arith::pow3;
pub use board::Board;
pub use board::Win;
pub use cell::Cell;
pub use cells::Cells;
pub use ring::Ring;
