pub mod bits;
pub mod bitboard;
pub mod types;
pub mod masks;
pub mod maps;
pub mod position;
pub mod attacks;
pub mod evaluate;
pub mod fen;
pub mod tree;
pub mod game;
pub mod display;
