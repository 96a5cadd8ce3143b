//! A chess engine core: bitboard position representation, pseudo-legal
//! move generation with a check filter, incremental Zobrist hashing,
//! FEN text, static exchange evaluation and exchange-guided move
//! ordering.
use vstd::prelude::*;

pub mod bits;
pub mod moves;
pub mod zobrist;
pub mod attacks;
pub mod board;
pub mod fen;
pub mod types;

verus! {

} // verus!
