//! The outcome of a compilation, worked out when it is first asked for and kept from then on.

use std::sync::{Arc, OnceLock};

use vstd::prelude::*;

use crate::engine::Regex;
use crate::options::{RegexOptions, Result};

verus! {

/// `OnceLock`, a cell of std that is filled once.
#[verifier::external_type_specification]
#[verifier::external_body]
#[verifier::reject_recursive_types(T)]
pub struct ExOnceLock<T>(std::sync::OnceLock<T>);

/// Whether compiling `pattern` with `options` can come out as `outcome`.
pub open spec fn can_compile_to<R: Regex>(
    pattern: String,
    options: RegexOptions,
    outcome: Result<Arc<R>>,
) -> bool {
    match outcome {
        Ok(regex) => call_ensures(R::new_options, (pattern, &options), Ok(*regex)),
        Err(e) => call_ensures(R::new_options, (pattern, &options), Err(e)),
    }
}

/// Where the outcome of compiling one pattern is kept. Only `memo_for` makes one: what it holds for
/// `outcome` is what the cell is filled with in the end, and is not known before.
#[verifier::reject_recursive_types(R)]
pub struct Memo<R: Regex> {
    cell: OnceLock<Result<Arc<R>>>,
    pattern: Ghost<String>,
    options: Ghost<RegexOptions>,
    outcome: Ghost<Result<Arc<R>>>,
}

impl<R: Regex> Memo<R> {
    /// The pattern whose outcome is kept.
    pub closed spec fn pattern(self) -> String {
        self.pattern@
    }

    /// The options that it is compiled with.
    pub closed spec fn options(self) -> RegexOptions {
        self.options@
    }

    /// The outcome that is kept, or will be.
    pub closed spec fn outcome(self) -> Result<Arc<R>> {
        self.outcome@
    }
}

/// Compiles `pattern`.
fn compile<R: Regex>(pattern: &String, options: &RegexOptions) -> (outcome: Result<Arc<R>>)
    ensures
        can_compile_to(*pattern, *options, outcome),
{
    match R::new_options(pattern.clone(), options) {
        Ok(regex) => Ok(Arc::new(regex)),
        Err(e) => Err(e),
    }
}

/// Calls `OnceLock::new`: a place, not filled yet, for the outcome of compiling `pattern` with
/// `options`. Nothing is said of what the outcome will be.
#[verifier::external_body]
pub(crate) fn memo_for<R: Regex>(pattern: &String, options: &RegexOptions) -> (memo: Memo<R>)
    ensures
        memo.pattern() == *pattern,
        memo.options() == *options,
{
    Memo {
        cell: OnceLock::new(),
        pattern: Ghost(*pattern),
        options: Ghost(*options),
        outcome: Ghost(arbitrary()),
    }
}

/// Calls `OnceLock::get_or_init` with the compilation of the pattern. The cell is filled once: every
/// call gives what it was filled with, which is an outcome that the compilation had.
#[verifier::external_body]
pub(crate) fn get_or_compile<'a, R: Regex>(
    memo: &'a Memo<R>,
    pattern: &String,
    options: &RegexOptions,
) -> (outcome: &'a Result<Arc<R>>)
    requires
        memo.pattern() == *pattern,
        memo.options() == *options,
    ensures
        *outcome == memo.outcome(),
        can_compile_to(*pattern, *options, *outcome),
{
    memo.cell.get_or_init(|| compile(pattern, options))
}

} // verus!
