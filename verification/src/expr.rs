//! The parsed form of a pattern.

use vstd::prelude::*;

verus! {

/// The kind of a lookaround.
#[derive(Clone, Copy, Debug, PartialEq, Eq)]
pub enum LookAround {
    /// `(?=...)`
    LookAhead,
    /// `(?!...)`
    LookAheadNeg,
    /// `(?<=...)`
    LookBehind,
    /// `(?<!...)`
    LookBehindNeg,
}

/// A condition on a position of the text. It matches no text.
#[derive(Clone, Copy, Debug, PartialEq, Eq)]
pub enum Assertion {
    /// Start of the text
    StartText,
    /// End of the text
    EndText,
    /// Start of a line
    StartLine,
    /// End of a line
    EndLine,
    /// Left word boundary
    LeftWordBoundary,
    /// Right word boundary
    RightWordBoundary,
    /// Either word boundary
    WordBoundary,
    /// Not a word boundary
    NotWordBoundary,
}

/// A parsed pattern.
#[derive(Debug)]
pub enum Expr {
    /// The empty pattern
    Empty,
    /// Any character
    Any {
        /// Whether it matches a newline as well
        newline: bool,
    },
    /// An assertion
    Assertion(Assertion),
    /// A literal text
    Literal {
        /// The text
        val: String,
        /// Whether it matches in any case
        casei: bool,
    },
    /// Expressions that match one after the other
    Concat(Vec<Expr>),
    /// Expressions of which one matches
    Alt(Vec<Expr>),
    /// A capturing group
    Group(Box<Expr>),
    /// A lookaround
    LookAround(Box<Expr>, LookAround),
    /// A repetition
    Repeat {
        /// What is repeated
        child: Box<Expr>,
        /// The least number of repetitions
        lo: usize,
        /// The greatest number of repetitions, `usize::MAX` for no bound
        hi: usize,
        /// Whether it prefers more repetitions to fewer
        greedy: bool,
    },
    /// A piece of the pattern in the syntax of `regex_syntax`, such as a character class
    Delegate {
        /// The piece
        inner: String,
        /// Whether it matches in any case
        casei: bool,
    },
    /// What a capturing group matched before
    Backref {
        /// The group
        group: usize,
        /// Whether it matches in any case
        casei: bool,
    },
    /// An atomic group
    AtomicGroup(Box<Expr>),
    /// Start of the reported match
    KeepOut,
    /// The end of the previous match
    ContinueFromPreviousMatchEnd,
    /// Whether a capturing group has matched
    BackrefExistsCondition(usize),
    /// One of two branches, by a condition
    Conditional {
        /// The condition
        condition: Box<Expr>,
        /// The branch for when it holds
        true_branch: Box<Expr>,
        /// The branch for when it does not
        false_branch: Box<Expr>,
    },
    /// A call of the expression of a capturing group
    SubroutineCall(usize),
}

} // verus!
