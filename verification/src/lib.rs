//! Binary puzzles (Takuzu / Binairo): grids, the line format, the region
//! rules, a strategy ladder with a backtracking search, and a generator
//! that fills and carves puzzles of any region geometry.

pub mod text;
pub mod grid;
pub mod region;
pub mod compose;
pub mod parse;
pub mod completion;
pub mod strategy;
pub mod event;
pub mod search;
pub mod error;
pub mod geometry;
pub mod inspect;
pub mod grade;
pub mod replay;
pub mod output;
pub mod rng;
pub mod fill;
pub mod carve;
pub mod batch;
pub mod view;
