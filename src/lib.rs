//! A Galton board: balls fall through rows of pegs into bins, and the
//! resulting distribution is summarised and drawn as a text histogram.

pub mod board;
pub mod stats;
pub mod histogram;
pub mod input;
