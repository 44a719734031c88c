//! A bounded Game of Life: a grid engine with edge clamping, the classic
//! survival rule, and the decisions of the driver loop that runs it.

pub mod driver;
pub mod grid;
pub mod rule;
