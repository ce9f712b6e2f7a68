//! Counting rules and small numeric helpers.
pub mod constants;
pub mod count;
pub mod logic;
pub mod number;
pub mod tricks;
