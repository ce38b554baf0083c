//! Attack lookup tables for a bitboard chess move generator.
//!
//! A board is a 64-bit word with one bit per square; square `0` is a1,
//! `file = square % 8` and `rank = square / 8`. The crate computes the
//! attack sets of the leaping pieces directly and those of the sliding
//! pieces through per-square perfect-hash ("magic") tables.

pub mod bits;
pub mod board;
pub mod castling;
pub mod directions;
pub mod errors;
pub mod fen;
pub mod geometry;
pub mod leapers;
pub mod lookup;
pub mod magic;
pub mod occupancy;
pub mod pieces;
pub mod render;
pub mod sliders;
pub mod squares;
