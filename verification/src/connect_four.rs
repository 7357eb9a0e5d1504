pub mod piece;
pub mod solver_util;
pub mod state;
pub mod naive;
pub mod state_array;
pub mod cache_strategy;
pub mod threads;
pub mod state_bitboard;
