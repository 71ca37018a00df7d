//! Rule kernel for a two-player board game on a 9x9 grid with
//! capture-to-hand mechanics: position indexing, per-kind movement
//! shapes, and board-level move legality.

pub mod board;
pub mod piece;
pub mod position;
