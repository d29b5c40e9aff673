//! What a pattern is compiled with, and what can go wrong with it.

use vstd::prelude::*;

verus! {

/// What the haystack is taken to hold.
#[derive(Clone, Copy, Debug, PartialEq, Eq, Structural)]
pub enum BytesMode {
    /// UTF-8 text
    Unicode,
    /// Bytes of any kind
    Bytes,
}

/// The options of a pattern.
#[derive(Clone, Copy, Debug, PartialEq, Eq)]
pub struct RegexOptions {
    /// Letters match in any case
    pub case_insensitive: bool,
    /// `^` and `$` match at each line
    pub multi_line: bool,
    /// Whitespace in the pattern is left out
    pub ignore_whitespace: bool,
    /// `.` matches a newline as well
    pub dot_matches_new_line: bool,
    /// Character classes are classes of Unicode characters
    pub unicode_mode: bool,
    /// What the haystack is taken to hold
    pub bytes_mode: BytesMode,
    /// Delegated pieces are searched for with a prefilter of their own
    pub delegate_prefilter: bool,
}

/// The options of a pattern, as they are put together.
#[derive(Clone, Copy, Debug, PartialEq, Eq)]
pub struct RegexOptionsBuilder {
    /// The options so far
    pub options: RegexOptions,
}

/// The options that hold where nothing else is asked for.
pub open spec fn standard_options() -> RegexOptions {
    RegexOptions {
        case_insensitive: false,
        multi_line: false,
        ignore_whitespace: false,
        dot_matches_new_line: false,
        unicode_mode: true,
        bytes_mode: BytesMode::Unicode,
        delegate_prefilter: true,
    }
}

impl Default for RegexOptionsBuilder {
    fn default() -> (builder: Self)
        ensures
            builder.options == standard_options(),
    {
        RegexOptionsBuilder {
            options: RegexOptions {
                case_insensitive: false,
                multi_line: false,
                ignore_whitespace: false,
                dot_matches_new_line: false,
                unicode_mode: true,
                bytes_mode: BytesMode::Unicode,
                delegate_prefilter: true,
            },
        }
    }
}

/// What keeps a pattern from being compiled.
#[derive(Debug, PartialEq, Eq)]
pub enum CompileError {
    /// An error of an outside engine
    InnerError(String),
    /// Any other error
    UnexpectedGeneralError(String),
}

/// What can go wrong with a pattern.
#[derive(Debug, PartialEq, Eq)]
pub enum Error {
    /// The pattern is no pattern: where, and why
    ParseError(usize, String),
    /// The pattern cannot be compiled
    CompileError(Box<CompileError>),
    /// The search was given up
    RuntimeError(String),
}

impl Clone for CompileError {
    fn clone(&self) -> (copy: Self)
        ensures
            copy == *self,
    {
        match self {
            CompileError::InnerError(message) => CompileError::InnerError(message.clone()),
            CompileError::UnexpectedGeneralError(message) => CompileError::UnexpectedGeneralError(
                message.clone(),
            ),
        }
    }
}

impl Clone for Error {
    fn clone(&self) -> (copy: Self)
        ensures
            copy == *self,
    {
        match self {
            Error::ParseError(at, message) => Error::ParseError(*at, message.clone()),
            Error::CompileError(error) => Error::CompileError(Box::new((**error).clone())),
            Error::RuntimeError(message) => Error::RuntimeError(message.clone()),
        }
    }
}

/// The outcome of what can go wrong with a pattern.
pub type Result<T> = core::result::Result<T, Error>;

/// What holds where nothing else is asked for: text of Unicode characters, matched case by case and
/// as a whole, with a prefilter for delegated pieces.
pub proof fn nothing_is_asked_for(builder: RegexOptionsBuilder)
    requires
        call_ensures(RegexOptionsBuilder::default, (), builder),
    ensures
        !builder.options.case_insensitive,
        !builder.options.multi_line,
        !builder.options.ignore_whitespace,
        !builder.options.dot_matches_new_line,
        builder.options.unicode_mode,
        builder.options.bytes_mode is Unicode,
        builder.options.delegate_prefilter,
{
}

} // verus!
