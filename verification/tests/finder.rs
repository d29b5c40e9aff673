//! Patterns compiled when they are needed, and the search for many of them.

use regex_automata::meta;
use regex_automata::{Anchored, Input};
use regex_prefilter::engine::{Regex, RegexInput, RegexSetMatch};
use regex_prefilter::expr::Expr;
use regex_prefilter::lazy::finder::Finder;
use regex_prefilter::lazy::regex::{default_options, LazyRegex};
use regex_prefilter::options::{
    BytesMode, CompileError, Error, RegexOptions, RegexOptionsBuilder, Result,
};
use std::sync::Arc;

/// An engine that leaves everything to `regex_automata`. A pattern in braces is parsed as anything at
/// all, so that its start bytes are not known.
struct Engine {
    regex: meta::Regex,
    pattern: String,
    options: RegexOptions,
}

fn inner_pattern(pattern: &str) -> String {
    pattern.trim_start_matches('{').trim_end_matches('}').to_string()
}

impl Regex for Engine {
    type Set = Vec<Arc<Engine>>;
    type Matches = Vec<Result<RegexSetMatch>>;

    fn parse_tree(pattern: &str, _options: &RegexOptions) -> Result<Expr> {
        if pattern.is_empty() {
            Err(Error::ParseError(0, "no pattern".to_string()))
        } else if pattern.starts_with('{') {
            Ok(Expr::Any { newline: true })
        } else {
            Ok(Expr::Delegate { inner: pattern.to_string(), casei: false })
        }
    }

    fn optimize(tree: Expr) -> Expr {
        tree
    }

    fn new_options(pattern: String, options: &RegexOptions) -> Result<Self> {
        match meta::Regex::new(&inner_pattern(&pattern)) {
            Ok(regex) => Ok(Engine { regex, pattern, options: *options }),
            Err(_) => Err(Error::CompileError(Box::new(CompileError::InnerError(pattern)))),
        }
    }

    fn set_from_regexes(regexes: Vec<Arc<Self>>) -> Result<Self::Set> {
        if regexes.len() > 3 {
            let message = "too many patterns".to_string();
            return Err(Error::CompileError(Box::new(CompileError::InnerError(message))));
        }
        Ok(regexes)
    }

    fn set_find_input(set: &Self::Set, input: &RegexInput) -> Result<Option<Self::Matches>> {
        let mut pos = input.start;
        while pos <= input.end {
            for (index, regex) in set.iter().enumerate() {
                match Engine::match_at(regex, index, input, pos) {
                    Ok(None) => {}
                    Ok(Some(m)) => return Ok(Some(vec![Ok(m)])),
                    Err(e) => return Ok(Some(vec![Err(e)])),
                }
            }
            if input.anchored {
                break;
            }
            pos += 1;
        }
        // a search that is given up, and one that finds nothing in either way
        if input.haystack.starts_with(b"!") {
            return Err(Error::RuntimeError("given up".to_string()));
        }
        Ok(if input.haystack.starts_with(b"-") { None } else { Some(Vec::new()) })
    }

    fn first_match(matches: Self::Matches) -> Option<Result<RegexSetMatch>> {
        matches.into_iter().next()
    }

    fn match_at(
        regex: &Self,
        index: usize,
        input: &RegexInput,
        pos: usize,
    ) -> Result<Option<RegexSetMatch>> {
        if input.haystack[pos..].starts_with(b"#") {
            return Err(Error::RuntimeError("a hash".to_string()));
        }
        let span = Input::new(input.haystack).range(pos..input.end).anchored(Anchored::Yes);
        Ok(regex.regex.find(span).map(|m| RegexSetMatch {
            pattern_index: index,
            start: m.start(),
            end: m.end(),
        }))
    }
}

fn lazy(pattern: &str) -> Arc<LazyRegex<Engine>> {
    match LazyRegex::new(pattern) {
        Ok(lazy) => Arc::new(lazy),
        Err(e) => panic!("{:?}", e),
    }
}

fn finder(patterns: &[&str]) -> Finder<Engine> {
    match Finder::new(patterns.iter().map(|pattern| lazy(pattern)).collect()) {
        Ok(finder) => finder,
        Err(e) => panic!("{:?}", e),
    }
}

fn failure(regexes: Vec<Arc<LazyRegex<Engine>>>) -> Error {
    match Finder::new(regexes) {
        Ok(_) => panic!("a finder was built"),
        Err(e) => e,
    }
}

fn input(haystack: &str) -> RegexInput<'_> {
    RegexInput {
        haystack: haystack.as_bytes(),
        kind: BytesMode::Unicode,
        start: 0,
        end: haystack.len(),
        anchored: false,
    }
}

fn find(patterns: &[&str], haystack: &str) -> Option<(usize, usize, usize)> {
    let hit = finder(patterns).find_input(input(haystack)).unwrap();
    hit.map(|m| (m.pattern_index, m.start, m.end))
}

/// The first match, by trying every pattern at every position.
fn first(patterns: &[&str], haystack: &str) -> Option<(usize, usize, usize)> {
    let regexes: Vec<meta::Regex> =
        patterns.iter().map(|p| meta::Regex::new(&inner_pattern(p)).unwrap()).collect();
    (0..=haystack.len()).filter(|pos| haystack.is_char_boundary(*pos)).find_map(|pos| {
        regexes.iter().enumerate().find_map(|(index, regex)| {
            let span = Input::new(haystack).range(pos..).anchored(Anchored::Yes);
            regex.find(span).map(|m| (index, m.start(), m.end()))
        })
    })
}

#[test]
fn a_lazy_regex_keeps_pattern_and_start_bytes() {
    let regex = lazy("[ab]c");
    assert_eq!(regex.pattern(), "[ab]c");
    assert_eq!(regex.start_bytes().unwrap().iter(), b"ab".to_vec());
    assert_eq!(regex.bytes_mode(), BytesMode::Unicode);
    assert!(lazy("{x}").start_bytes().is_none());
    assert_eq!(default_options().options, RegexOptionsBuilder::default().options);
}

#[test]
fn a_pattern_that_cannot_be_parsed_is_refused() {
    match LazyRegex::<Engine>::new("") {
        Ok(_) => panic!("the empty pattern was taken up"),
        Err(e) => assert_eq!(e, Error::ParseError(0, "no pattern".to_string())),
    }
}

#[test]
fn a_pattern_is_compiled_once_and_without_a_prefilter() {
    let mut builder = RegexOptionsBuilder::default();
    builder.options.case_insensitive = true;
    let regex: LazyRegex<Engine> = match LazyRegex::new_with_options("a+", Arc::new(builder)) {
        Ok(regex) => regex,
        Err(e) => panic!("{:?}", e),
    };
    let (one, two) = match (regex.regex(), regex.regex_ref()) {
        (Ok(one), Ok(two)) => (one, two),
        _ => panic!("the pattern does not compile"),
    };
    assert!(Arc::ptr_eq(&one, two));
    assert_eq!(one.pattern, "a+");
    assert_eq!(one.options, RegexOptions { delegate_prefilter: false, ..builder.options });
}

#[test]
fn an_error_of_compilation_is_kept() {
    let regex = lazy("{(}");
    for _ in 0..2 {
        match regex.regex() {
            Ok(_) => panic!("the pattern compiles"),
            Err(e) => assert_eq!(
                e,
                Error::CompileError(Box::new(CompileError::InnerError("{(}".to_string())))
            ),
        }
    }
}

#[test]
fn a_finder_needs_unicode_patterns() {
    let mut builder = RegexOptionsBuilder::default();
    builder.options.bytes_mode = BytesMode::Bytes;
    let bytes = match LazyRegex::new_with_options("a", Arc::new(builder)) {
        Ok(regex) => Arc::new(regex),
        Err(e) => panic!("{:?}", e),
    };
    assert_eq!(bytes.bytes_mode(), BytesMode::Bytes);
    let message = "Finder only supports `BytesMode::Unicode`, the LazyRegexes need to be constructed with that mode.";
    assert_eq!(
        failure(vec![lazy("b"), bytes]),
        Error::CompileError(Box::new(CompileError::UnexpectedGeneralError(message.to_string())))
    );
}

#[test]
fn a_finder_compiles_only_what_it_must() {
    // without start bytes a pattern is compiled at once
    assert_eq!(
        failure(vec![lazy("a"), lazy("{(}"), lazy("{[}")]),
        Error::CompileError(Box::new(CompileError::InnerError("{(}".to_string())))
    );
    let four = ["{a}", "{b}", "{c}", "{d}"].iter().map(|pattern| lazy(pattern)).collect();
    assert_eq!(
        failure(four),
        Error::CompileError(Box::new(CompileError::InnerError("too many patterns".to_string())))
    );
}

#[test]
fn nothing_is_found_without_patterns() {
    assert_eq!(find(&[], "abc"), None);
    assert_eq!(finder(&[]).find_input(input("")), Ok(None));
}

#[test]
fn the_match_that_starts_first_is_found() {
    assert_eq!(find(&["bc", "b", "ab"], "xxabc"), Some((2, 2, 4)));
    assert_eq!(find(&["bc", "b"], "xxabc"), Some((0, 3, 5)));
    assert_eq!(find(&["b", "bc"], "xxabc"), Some((0, 3, 4)));
    assert_eq!(find(&["q", "z+"], "xxabc"), None);
    assert_eq!(find(&["€", "\u{e9}"], "x\u{e9}€"), Some((1, 1, 3)));
}

#[test]
fn patterns_without_start_bytes_take_part() {
    // alone
    assert_eq!(find(&["{b}", "{a}"], "xab"), Some((1, 1, 2)));
    // before, behind and at the position of a match with start bytes
    assert_eq!(find(&["c", "{b}"], "abc"), Some((1, 1, 2)));
    assert_eq!(find(&["a", "{b}"], "abc"), Some((0, 0, 1)));
    assert_eq!(find(&["bc", "{b}"], "abc"), Some((0, 1, 3)));
    assert_eq!(find(&["{b}", "bc"], "abc"), Some((0, 1, 2)));
    assert_eq!(find(&["x", "{y}", "{c}"], "abc"), Some((2, 2, 3)));
    // the set has nothing to say, in either way
    assert_eq!(find(&["c", "{z}"], "abc"), Some((0, 2, 3)));
    assert_eq!(find(&["c", "{z}"], "-bc"), Some((0, 2, 3)));
    // an empty match at the end
    assert_eq!(find(&["q", "{$}"], "abc"), Some((1, 3, 3)));
}

#[test]
fn the_bounds_of_the_search_are_kept() {
    let finder = finder(&["a", "{b}"]);
    let text = "abab";
    let from = |start, end, anchored| RegexInput { start, end, anchored, ..input(text) };
    let hit = |input| finder.find_input(input).unwrap().map(|m| (m.pattern_index, m.start));
    assert_eq!(hit(from(0, 4, false)), Some((0, 0)));
    assert_eq!(hit(from(1, 4, false)), Some((1, 1)));
    assert_eq!(hit(from(2, 4, true)), Some((0, 2)));
    assert_eq!(hit(from(2, 2, false)), None);
    assert_eq!(hit(from(4, 4, false)), None);
    let late = self::finder(&["b", "c"]);
    assert_eq!(late.find_input(from(0, 4, true)), Ok(None));
    assert_eq!(late.find_input(from(0, 1, false)), Ok(None));
}

#[test]
fn errors_of_a_search_come_through() {
    let hash = Err(Error::RuntimeError("a hash".to_string()));
    assert_eq!(finder(&["[#x]"]).find_input(input("ab#")), hash);
    assert_eq!(finder(&["{x}"]).find_input(input("ab#")), hash);
    assert_eq!(finder(&["a", "{x}"]).find_input(input("#a")), hash);
    // a match that comes before leaves the error unseen
    assert!(finder(&["[#b]"]).find_input(input("ab#")).unwrap().is_some());
    let given_up = Err(Error::RuntimeError("given up".to_string()));
    assert_eq!(finder(&["!", "{x}"]).find_input(input("!")), given_up);
}

#[test]
fn an_error_of_compilation_comes_through_where_it_is_needed() {
    // with start bytes a pattern is compiled where one of them stands
    let regex: LazyRegex<Broken> = match LazyRegex::new("b") {
        Ok(regex) => regex,
        Err(e) => panic!("{:?}", e),
    };
    let finder = match Finder::new(vec![Arc::new(regex)]) {
        Ok(finder) => finder,
        Err(e) => panic!("{:?}", e),
    };
    assert_eq!(finder.find_input(input("aaa")), Ok(None));
    assert_eq!(
        finder.find_input(input("aba")),
        Err(Error::CompileError(Box::new(CompileError::InnerError("b".to_string()))))
    );
}

/// An engine that compiles nothing.
struct Broken;

impl Regex for Broken {
    type Set = ();
    type Matches = ();

    fn parse_tree(pattern: &str, _options: &RegexOptions) -> Result<Expr> {
        Ok(Expr::Literal { val: pattern.to_string(), casei: false })
    }

    fn optimize(tree: Expr) -> Expr {
        tree
    }

    fn new_options(pattern: String, _options: &RegexOptions) -> Result<Self> {
        Err(Error::CompileError(Box::new(CompileError::InnerError(pattern))))
    }

    fn set_from_regexes(_regexes: Vec<Arc<Self>>) -> Result<()> {
        Ok(())
    }

    fn set_find_input(_set: &(), _input: &RegexInput) -> Result<Option<()>> {
        Ok(None)
    }

    fn first_match(_matches: ()) -> Option<Result<RegexSetMatch>> {
        None
    }

    fn match_at(
        _regex: &Self,
        _index: usize,
        _input: &RegexInput,
        _pos: usize,
    ) -> Result<Option<RegexSetMatch>> {
        Ok(None)
    }
}

#[test]
fn start_bytes_make_no_difference() {
    let haystacks = ["", "abc", "xyzzy", "a\u{e9}b€c", "foo bar baz", "bazfoo", "  12 ab", "🦀b1"];
    let patterns = ["b", "[0-9]+", "foo|baz", "\\w\\d", "€|é", " +", "(?i)Z+y", "🦀"];
    for haystack in haystacks {
        for a in patterns {
            for b in patterns {
                let hidden = format!("{{{}}}", b);
                assert_eq!(find(&[a, b], haystack), first(&[a, b], haystack));
                assert_eq!(find(&[a, &hidden], haystack), first(&[a, b], haystack));
                assert_eq!(find(&[&hidden, a], haystack), first(&[b, a], haystack));
            }
        }
    }
}

#[test]
fn a_position_follows_by_character_or_by_byte() {
    let text = input("a\u{e9}€🦀");
    assert_eq!(text.advance_position(0), 1);
    assert_eq!(text.advance_position(1), 3);
    assert_eq!(text.advance_position(3), 6);
    assert_eq!(text.advance_position(6), 10);
    let bytes = RegexInput { kind: BytesMode::Bytes, ..text };
    assert_eq!(bytes.advance_position(1), 2);
}
