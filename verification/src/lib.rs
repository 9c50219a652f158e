pub mod bits;
pub mod color;
pub mod file;
pub mod pieces;
pub mod rank;
pub mod square;
pub mod bitboard;
pub mod castle_rights;
pub mod chess_move;
pub mod errors;
pub mod strutil;
pub mod geometry;
pub mod tables;
pub mod attacks;
pub mod magics;
pub mod board;
pub mod piece_moves;
pub mod movegen;
