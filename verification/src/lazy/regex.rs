//! A pattern that is compiled when it is first needed.

use std::sync::Arc;

use vstd::prelude::*;

use crate::engine::Regex;
use crate::lazy::byte_set::ByteSet;
use crate::lazy::memo::{self, Memo};
use crate::lazy::start::{self, byte_set_from_expr};
use crate::options::{self, BytesMode, Error, RegexOptions, RegexOptionsBuilder, Result};
use crate::tree::HirCtx;

verus! {

/// The options that a pattern without options of its own has.
pub fn default_options() -> (options: Arc<RegexOptionsBuilder>)
    ensures
        options.options == options::standard_options(),
{
    Arc::new(RegexOptionsBuilder::default())
}

/// The options that a pattern is compiled with: the search is anchored and has a prefilter of its
/// own, so that one for delegated pieces would be of no use.
pub open spec fn compile_options(options: RegexOptions) -> RegexOptions {
    RegexOptions { delegate_prefilter: false, ..options }
}

/// The options that a pattern is compiled with.
fn without_prefilter(options: &RegexOptions) -> (changed: RegexOptions)
    ensures
        changed == compile_options(*options),
{
    let mut changed = *options;
    changed.delegate_prefilter = false;
    changed
}

/// A pattern that is compiled when it is first needed. Its start bytes are known before.
#[verifier::reject_recursive_types(R)]
pub struct LazyRegex<R: Regex> {
    pattern: String,
    start_bytes: Option<ByteSet>,
    regex: Memo<R>,
    options: Arc<RegexOptionsBuilder>,
}

/// Whether a pattern can be taken up as `lazy`: it parses to a tree whose start bytes `lazy` has.
pub open spec fn can_be_taken_up<R: Regex>(
    pattern: &str,
    options: RegexOptions,
    lazy: Result<LazyRegex<R>>,
) -> bool {
    exists|tree: Result<crate::expr::Expr>|
        #[trigger] call_ensures(R::parse_tree, (pattern, &options), tree) && match tree {
            Ok(expr) => lazy matches Ok(l) && {
                &&& l.source()@ == pattern@
                &&& l.asked_options() == options
                &&& l.start_set() == start::start_bytes_of(expr, HirCtx::of(options))
            },
            Err(e) => lazy == Err::<LazyRegex<R>, Error>(e),
        }
}

impl<R: Regex> LazyRegex<R> {
    #[verifier::type_invariant]
    spec fn keeps_outcome(self) -> bool {
        &&& self.regex.pattern() == self.pattern
        &&& self.regex.options() == compile_options(self.options.options)
    }

    /// The pattern, as it is compiled.
    pub closed spec fn source(self) -> String {
        self.pattern
    }

    /// The options that the pattern was taken up with.
    pub closed spec fn asked_options(self) -> RegexOptions {
        self.options.options
    }

    /// The bytes that a match starts with, if they are known.
    pub closed spec fn start_set(self) -> Option<Set<u8>> {
        match self.start_bytes {
            Some(set) => Some(set@),
            None => None,
        }
    }

    /// Whether compiling the pattern can come out as `outcome`.
    pub open spec fn can_be(self, outcome: Result<Arc<R>>) -> bool {
        memo::can_compile_to(self.source(), compile_options(self.asked_options()), outcome)
    }

    /// The outcome of compiling the pattern, the same whenever it is asked for.
    pub closed spec fn outcome(self) -> Result<Arc<R>> {
        self.regex.outcome()
    }

    /// Takes up `pattern` with the options that hold where nothing else is asked for.
    pub fn new(pattern: &str) -> (lazy: Result<Self>)
        ensures
            can_be_taken_up(pattern, options::standard_options(), lazy),
    {
        Self::new_with_options(pattern, default_options())
    }

    /// Takes up `pattern`: parses it for its start bytes, and leaves the rest for later.
    pub fn new_with_options(pattern: &str, options_builder: Arc<RegexOptionsBuilder>) -> (lazy: Result<
        Self,
    >)
        ensures
            can_be_taken_up(pattern, options_builder.options, lazy),
    {
        let options = &options_builder.options;
        let tree = R::parse_tree(pattern, options);
        assert(call_ensures(R::parse_tree, (pattern, &options_builder.options), tree));
        match tree {
            Ok(expr) => {
                let start_bytes = byte_set_from_expr(&expr, options);
                let pattern = pattern.to_owned();
                // The search is anchored and there is a prefilter for it already
                let regex = memo::memo_for(&pattern, &without_prefilter(options));
                Ok(LazyRegex { pattern, start_bytes, regex, options: options_builder })
            },
            Err(e) => Err(e),
        }
    }

    /// The text of the pattern.
    pub fn pattern(&self) -> (text: &str)
        ensures
            text@ == self.source()@,
    {
        self.pattern.as_str()
    }

    /// The compiled pattern. It is compiled when it is first asked for. The outcome is kept: every
    /// call gives the same.
    pub fn regex(&self) -> (regex: Result<Arc<R>>)
        ensures
            regex == self.outcome(),
            self.can_be(regex),
    {
        match self.regex_ref() {
            Ok(regex) => Ok(Arc::clone(regex)),
            Err(e) => Err(e),
        }
    }

    /// The compiled pattern, as `regex` gives it.
    pub fn regex_ref(&self) -> (regex: Result<&Arc<R>>)
        ensures
            match regex {
                Ok(regex) => self.outcome() == Ok::<Arc<R>, Error>(*regex),
                Err(e) => self.outcome() == Err::<Arc<R>, Error>(e),
            },
            self.can_be(self.outcome()),
    {
        proof {
            use_type_invariant(self);
        }
        let options = without_prefilter(&self.options.options);
        match memo::get_or_compile(&self.regex, &self.pattern, &options) {
            Ok(regex) => Ok(regex),
            Err(e) => Err(e.clone()),
        }
    }

    /// The bytes that a match starts with, if they are known.
    pub fn start_bytes(&self) -> (set: Option<&ByteSet>)
        ensures
            match set {
                Some(set) => self.start_set() == Some(set@),
                None => self.start_set() is None,
            },
    {
        match &self.start_bytes {
            Some(set) => Some(set),
            None => None,
        }
    }

    /// What the haystack is taken to hold.
    pub fn bytes_mode(&self) -> (mode: BytesMode)
        ensures
            mode == self.asked_options().bytes_mode,
    {
        self.options.options.bytes_mode
    }
}

/// What a pattern is compiled with: itself, and the options that it was taken up with but for
/// `delegate_prefilter`, which is off.
pub proof fn a_pattern_is_compiled_as_asked<R: Regex>(lazy: LazyRegex<R>, outcome: Result<Arc<R>>)
    requires
        lazy.can_be(outcome),
    ensures
        ({
            let asked = lazy.asked_options();
            let options = RegexOptions {
                case_insensitive: asked.case_insensitive,
                multi_line: asked.multi_line,
                ignore_whitespace: asked.ignore_whitespace,
                dot_matches_new_line: asked.dot_matches_new_line,
                unicode_mode: asked.unicode_mode,
                bytes_mode: asked.bytes_mode,
                delegate_prefilter: false,
            };
            match outcome {
                Ok(regex) => call_ensures(R::new_options, (lazy.source(), &options), Ok(*regex)),
                Err(e) => call_ensures(R::new_options, (lazy.source(), &options), Err(e)),
            }
        }),
{
}

/// The options that a pattern is compiled with are those that it was taken up with, field by field,
/// but for `delegate_prefilter`, which is off.
pub proof fn compile_options_are_those_asked(options: RegexOptions)
    ensures
        compile_options(options).case_insensitive == options.case_insensitive,
        compile_options(options).multi_line == options.multi_line,
        compile_options(options).ignore_whitespace == options.ignore_whitespace,
        compile_options(options).dot_matches_new_line == options.dot_matches_new_line,
        compile_options(options).unicode_mode == options.unicode_mode,
        compile_options(options).bytes_mode == options.bytes_mode,
        !compile_options(options).delegate_prefilter,
{
}

/// What a pattern that was taken up holds: its text, the options that were asked for, and start bytes
/// that belong to a tree it parses to under these options.
pub proof fn a_pattern_is_taken_up_as_asked<R: Regex>(
    pattern: &str,
    options: RegexOptions,
    lazy: LazyRegex<R>,
)
    requires
        can_be_taken_up(pattern, options, Ok(lazy)),
    ensures
        lazy.source()@ == pattern@,
        lazy.asked_options() == options,
        exists|tree: crate::expr::Expr|
            #[trigger] call_ensures(R::parse_tree, (pattern, &options), Ok(tree))
                && lazy.start_set() == start::start_bytes_of(
                tree,
                HirCtx {
                    unicode: options.unicode_mode,
                    utf8: options.bytes_mode == BytesMode::Unicode,
                },
            ),
{
    let tree = choose|tree: Result<crate::expr::Expr>|
        #[trigger] call_ensures(R::parse_tree, (pattern, &options), tree) && match tree {
            Ok(expr) => {
                &&& lazy.source()@ == pattern@
                &&& lazy.asked_options() == options
                &&& lazy.start_set() == start::start_bytes_of(expr, HirCtx::of(options))
            },
            Err(_) => false,
        };
    assert(call_ensures(R::parse_tree, (pattern, &options), Ok(tree->Ok_0)));
}

/// A pattern is refused only with the error that it does not parse with.
pub proof fn a_pattern_is_refused_by_the_parser<R: Regex>(
    pattern: &str,
    options: RegexOptions,
    e: Error,
)
    requires
        can_be_taken_up(pattern, options, Err::<LazyRegex<R>, Error>(e)),
    ensures
        call_ensures(R::parse_tree, (pattern, &options), Err(e)),
{
}

/// A pattern that was taken up gives back what it was given, and the same outcome whenever it is asked
/// for. What it is compiled with is its text, and the options but for `delegate_prefilter`.
pub proof fn a_pattern_gives_back_what_it_was_given<R: Regex>(
    pattern: &str,
    builder: Arc<RegexOptionsBuilder>,
    lazy: LazyRegex<R>,
    text: &str,
    mode: BytesMode,
    first: Result<Arc<R>>,
    again: Result<Arc<R>>,
    seen: Result<&Arc<R>>,
)
    requires
        call_ensures(LazyRegex::<R>::new_with_options, (pattern, builder), Ok(lazy)),
        call_ensures(LazyRegex::<R>::pattern, (&lazy,), text),
        call_ensures(LazyRegex::<R>::bytes_mode, (&lazy,), mode),
        call_ensures(LazyRegex::<R>::regex, (&lazy,), first),
        call_ensures(LazyRegex::<R>::regex, (&lazy,), again),
        call_ensures(LazyRegex::<R>::regex_ref, (&lazy,), seen),
    ensures
        text@ == pattern@,
        mode == builder.options.bytes_mode,
        first == again,
        match seen {
            Ok(regex) => first == Ok::<Arc<R>, Error>(*regex),
            Err(e) => first == Err::<Arc<R>, Error>(e),
        },
        exists|source: String, options: RegexOptions| #[trigger]
            is_compiled_from::<R>(source, options, first) && source@ == pattern@
                && options.case_insensitive == builder.options.case_insensitive
                && options.multi_line == builder.options.multi_line && options.ignore_whitespace
                == builder.options.ignore_whitespace && options.dot_matches_new_line
                == builder.options.dot_matches_new_line && options.unicode_mode
                == builder.options.unicode_mode && options.bytes_mode == builder.options.bytes_mode
                && !options.delegate_prefilter,
{
    let tree = choose|tree: Result<crate::expr::Expr>|
        #[trigger] call_ensures(R::parse_tree, (pattern, &builder.options), tree) && match tree {
            Ok(expr) => {
                &&& lazy.source()@ == pattern@
                &&& lazy.asked_options() == builder.options
                &&& lazy.start_set() == start::start_bytes_of(expr, HirCtx::of(builder.options))
            },
            Err(_) => false,
        };
    a_pattern_is_compiled_as_asked(lazy, first);
    assert(is_compiled_from::<R>(
        lazy.source(),
        compile_options(lazy.asked_options()),
        first,
    ));
}

/// Whether the engine, asked to compile `source` with `options`, can come out as `outcome`.
pub open spec fn is_compiled_from<R: Regex>(
    source: String,
    options: RegexOptions,
    outcome: Result<Arc<R>>,
) -> bool {
    match outcome {
        Ok(regex) => call_ensures(R::new_options, (source, &options), Ok(*regex)),
        Err(e) => call_ensures(R::new_options, (source, &options), Err(e)),
    }
}

/// A pattern that is taken up without options is taken up as with those of `default_options`.
pub proof fn no_options_are_the_default_options<R: Regex>(
    pattern: &str,
    builder: Arc<RegexOptionsBuilder>,
    lazy: LazyRegex<R>,
)
    requires
        call_ensures(LazyRegex::<R>::new, (pattern,), Ok(lazy)),
        call_ensures(default_options, (), builder),
    ensures
        lazy.source()@ == pattern@,
        lazy.asked_options() == builder.options,
        !builder.options.case_insensitive,
        !builder.options.multi_line,
        !builder.options.ignore_whitespace,
        !builder.options.dot_matches_new_line,
        builder.options.unicode_mode,
        builder.options.bytes_mode is Unicode,
        builder.options.delegate_prefilter,
{
    a_pattern_is_taken_up_as_asked(pattern, options::standard_options(), lazy);
}

} // verus!
