//! Searching for many patterns at once, each compiled when it is first needed.

pub mod byte_set;
pub mod candidates;
pub mod exact;
pub mod finder;
pub mod first;
pub mod memo;
pub mod regex;
pub mod start;
