//! A small puzzle library: named numeric range rules, records of integer
//! fields, a validity filter, and an elimination solver that assigns each
//! rule to exactly one field position.

pub mod driver;
pub mod parse;
pub mod rules;
pub mod solver;
pub mod validity;
