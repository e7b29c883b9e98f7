//! What holds of a channel whatever is done with it.

pub mod closing;
pub mod exchange;
pub mod lines;
pub mod operations;
pub mod order;
pub mod polls;
pub mod receiving;
pub mod sending;
pub mod sides;
pub mod steps;
pub mod streams;
pub mod waiting;
