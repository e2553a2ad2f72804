//! A chess rules engine: a position model, a legality engine covering
//! check, castling, en passant and promotion, codecs for FEN positions
//! and SAN move notation, and a variation tree that records branching
//! move history with a navigable focus.

pub mod board;
pub mod fen;
pub mod game_tree;
pub mod fen_laws;
pub mod laws;
pub mod piece;
pub mod step;
pub mod text;
