pub mod bits;
pub mod inline;
pub mod models;
pub mod representation;
pub mod u64_board;
pub mod bitboard_large;
pub mod pieces;
pub mod position;
pub mod calculators;
pub mod zobrist;
pub mod geometry;
pub mod board;
pub mod make_move;
pub mod attacks;
pub mod movegen;
pub mod sliders;
pub mod rules;
pub mod legal;
pub mod fen;
pub mod san;
pub mod game;
pub mod transposition;
pub mod coords;
pub mod decimal;
pub mod config;
pub mod distributed;
pub mod mobility;
pub mod eval;
pub mod see;
pub mod console;
pub mod symmetries;
pub mod api;
pub mod display;
pub mod movement;
pub mod search_core;
pub mod minimax;
pub mod large_eq;
