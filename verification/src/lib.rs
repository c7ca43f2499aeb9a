//! A bitboard chess move generator.
pub mod bits;
pub mod attacks;
pub mod board;
pub mod consts;
pub mod enumeration;
pub mod magic;
pub mod magic_file;
pub mod move_gen;
pub mod notation;
pub mod perft;
pub mod position;
