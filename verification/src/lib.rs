//! Prefilters for backtracking regular expressions.
//!
//! A backtracking matcher is slow to find out that a text holds no match. Two kinds of knowledge of a
//! pattern let most of its work be left out: the bytes that a match can start with (`lazy`), and the
//! literals that a match must contain (`literal`).
#![allow(unused_imports)]

pub mod engine;
pub mod expr;
pub mod fold;
pub mod lazy;
pub mod literal;
pub mod options;
pub mod semantics;
pub mod text;
pub mod tree;
