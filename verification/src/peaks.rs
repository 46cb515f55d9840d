//! Peak finders: a peak is a position whose value no immediate neighbour
//! exceeds.

pub mod one_d;
pub mod two_d;
