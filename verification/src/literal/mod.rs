//! Required-literal analysis and the prefilter built from it.
//!
//! A pattern routed through a backtracking matcher is tried at successive start positions with no
//! knowledge of what the text must contain. Here a substring that every match must contain is
//! searched for before the matcher runs. The literals are extracted from the parsed expression, and
//! an unanchored search first checks that one of them occurs in the haystack from the search start;
//! when none does, there is no match and the matcher need not run.

pub mod cover;
pub mod filter;
pub mod needles;
pub mod required;
pub mod selection;
