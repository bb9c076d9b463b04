//! Boosters: levers that touch only leaf values, tree weights, the intercept, or
//! convex averages of exact table banks.
pub mod average;
pub mod bank;
pub mod config;
pub mod scores;
pub mod shape;
pub mod supports;
pub mod union;
