//! Which pieces are there, and which one is asked for next.

pub mod piece_tracker;
