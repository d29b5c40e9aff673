//! The required literals of patterns, and the prefilter built from them.

use regex_automata::meta;
use regex_automata::{Anchored, Input};
use regex_prefilter::engine::{Regex, RegexInput, RegexSetMatch};
use regex_prefilter::expr::{Assertion, Expr, LookAround};
use regex_prefilter::fold::case_folds;
use regex_prefilter::literal::cover::reduce;
use regex_prefilter::literal::filter::LiteralPrefilter;
use regex_prefilter::literal::needles::casei_needles;
use regex_prefilter::literal::required::{required_literals, required_literals_of};
use regex_prefilter::options::{BytesMode, Error, RegexOptions, RegexOptionsBuilder, Result};
use std::sync::Arc;

/// A parser for as much of the syntax as the tests need.
struct Parser {
    chars: Vec<char>,
    at: usize,
    casei: bool,
}

impl Parser {
    fn parse(pattern: &str) -> Result<Expr> {
        let mut parser = Parser { chars: pattern.chars().collect(), at: 0, casei: false };
        let expr = parser.alternation()?;
        if parser.at < parser.chars.len() {
            return Err(parser.error("unexpected closing parenthesis"));
        }
        Ok(expr)
    }

    fn error(&self, message: &str) -> Error {
        Error::ParseError(self.at, message.to_string())
    }

    fn peek(&self) -> Option<char> {
        self.chars.get(self.at).copied()
    }

    fn eat(&mut self, text: &str) -> bool {
        let text: Vec<char> = text.chars().collect();
        let found = self.chars[self.at..].starts_with(&text);
        if found {
            self.at += text.len();
        }
        found
    }

    fn alternation(&mut self) -> Result<Expr> {
        let mut branches = vec![self.concatenation()?];
        while self.eat("|") {
            branches.push(self.concatenation()?);
        }
        Ok(if branches.len() == 1 { branches.remove(0) } else { Expr::Alt(branches) })
    }

    fn concatenation(&mut self) -> Result<Expr> {
        let mut children = Vec::new();
        while let Some(c) = self.peek() {
            if c == '|' || c == ')' {
                break;
            }
            if self.eat("(?i)") {
                self.casei = true;
            } else if self.eat("(?-i)") {
                self.casei = false;
            } else {
                let atom = self.atom()?;
                children.push(self.repetition(atom));
            }
        }
        Ok(match children.len() {
            0 => Expr::Empty,
            1 => children.remove(0),
            _ => Expr::Concat(children),
        })
    }

    fn repetition(&mut self, atom: Expr) -> Expr {
        let (lo, hi) = if self.eat("*") {
            (0, usize::MAX)
        } else if self.eat("+") {
            (1, usize::MAX)
        } else if self.eat("?") {
            (0, 1)
        } else {
            return atom;
        };
        Expr::Repeat { child: Box::new(atom), lo, hi, greedy: true }
    }

    fn group(&mut self) -> Result<Box<Expr>> {
        let casei = self.casei;
        let expr = self.alternation()?;
        self.casei = casei;
        if !self.eat(")") {
            return Err(self.error("missing closing parenthesis"));
        }
        Ok(Box::new(expr))
    }

    fn atom(&mut self) -> Result<Expr> {
        if self.eat("(?:") {
            return Ok(*self.group()?);
        }
        if self.eat("(?=") {
            return Ok(Expr::LookAround(self.group()?, LookAround::LookAhead));
        }
        if self.eat("(?!") {
            return Ok(Expr::LookAround(self.group()?, LookAround::LookAheadNeg));
        }
        if self.eat("(?<=") {
            return Ok(Expr::LookAround(self.group()?, LookAround::LookBehind));
        }
        if self.eat("(?<!") {
            return Ok(Expr::LookAround(self.group()?, LookAround::LookBehindNeg));
        }
        if self.eat("(?>") {
            return Ok(Expr::AtomicGroup(self.group()?));
        }
        if self.eat("(") {
            return Ok(Expr::Group(self.group()?));
        }
        if self.eat(".") {
            return Ok(Expr::Any { newline: false });
        }
        if self.eat("[") {
            let start = self.at - 1;
            while !self.eat("]") {
                if self.peek().is_none() {
                    return Err(self.error("unclosed class"));
                }
                self.at += 1;
            }
            let inner = self.chars[start..self.at].iter().collect();
            return Ok(Expr::Delegate { inner, casei: self.casei });
        }
        if self.eat("\\b") {
            return Ok(Expr::Assertion(Assertion::WordBoundary));
        }
        for class in ["\\s", "\\w", "\\d"] {
            if self.eat(class) {
                return Ok(Expr::Delegate { inner: class.to_string(), casei: self.casei });
            }
        }
        if self.eat("\\1") {
            return Ok(Expr::Backref { group: 1, casei: self.casei });
        }
        self.eat("\\");
        match self.peek() {
            Some(c) => {
                self.at += 1;
                Ok(Expr::Literal { val: c.to_string(), casei: self.casei })
            }
            None => Err(self.error("nothing to escape")),
        }
    }
}

/// An engine that parses only.
struct ParseOnly;

impl Regex for ParseOnly {
    type Set = ();
    type Matches = ();

    fn parse_tree(pattern: &str, _options: &RegexOptions) -> Result<Expr> {
        Parser::parse(pattern)
    }

    fn optimize(tree: Expr) -> Expr {
        tree
    }

    fn new_options(_pattern: String, _options: &RegexOptions) -> Result<Self> {
        unreachable!()
    }

    fn set_from_regexes(_regexes: Vec<Arc<Self>>) -> Result<()> {
        unreachable!()
    }

    fn set_find_input(_set: &(), _input: &RegexInput) -> Result<Option<()>> {
        unreachable!()
    }

    fn first_match(_matches: ()) -> Option<Result<RegexSetMatch>> {
        unreachable!()
    }

    fn match_at(
        _regex: &Self,
        _index: usize,
        _input: &RegexInput,
        _pos: usize,
    ) -> Result<Option<RegexSetMatch>> {
        unreachable!()
    }
}

fn lits(pattern: &str) -> Option<Vec<(String, bool)>> {
    required_literals(&Parser::parse(pattern).unwrap())
}

fn lit(s: &str) -> (String, bool) {
    (s.to_string(), false)
}

fn prefilter(pattern: &str) -> Option<LiteralPrefilter> {
    LiteralPrefilter::from_expr(&Parser::parse(pattern).unwrap())
}

#[test]
fn picks_the_most_selective_literal_of_a_concat() {
    assert_eq!(lits(r"(\s*((?:|inline-)css))(`)"), Some(vec![lit("css")]));
    assert_eq!(lits(r"(@let)\s+(\w+)"), Some(vec![lit("@let")]));
    assert_eq!(lits(r"\bfoo\d+barbaz"), Some(vec![lit("barbaz")]));
}

#[test]
fn alternation_needs_every_branch() {
    assert_eq!(
        lits(r"\b(html|template)\b"),
        Some(vec![lit("html"), lit("template")])
    );
    // an empty branch makes the alternation contribute nothing, the concat falls back
    assert_eq!(lits(r"(?:|inline-)css"), Some(vec![lit("css")]));
    assert_eq!(lits(r"(a|[bc])"), None);
}

#[test]
fn optional_and_lookbehind_do_not_count_but_positive_lookahead_does() {
    assert_eq!(lits(r"(sql)?"), None);
    assert_eq!(lits(r"(?<=x)\w+"), None);
    assert_eq!(lits(r"(?=.*sql)\w+"), Some(vec![lit("sql")]));
    assert_eq!(lits(r"(?!sql)\w+"), None);
    assert_eq!(lits(r"(?>sql)\d"), Some(vec![lit("sql")]));
}

#[test]
fn case_insensitive_literals_are_flagged() {
    assert_eq!(lits(r"(?i)SQL"), Some(vec![("SQL".to_string(), true)]));
    assert_eq!(
        lits(r"\b((?i)sql|sqlFragment(?-i))\s*(?=`)"),
        Some(vec![
            ("sql".to_string(), true),
            ("sqlFragment".to_string(), true)
        ])
    );
}

#[test]
fn escapes_merge_into_one_literal() {
    assert_eq!(lits(r"(\$\{)"), Some(vec![lit("${")]));
    assert_eq!(lits(r"\{\{"), Some(vec![lit("{{")]));
}

#[test]
fn prefilter_checks_the_haystack_from_the_start_position() {
    let pf = prefilter(r"(?=.*sql)\w+").unwrap();
    assert!(pf.may_match(b"select sql from x", 0));
    assert!(!pf.may_match(b"select sql from x", 8));
    assert!(!pf.may_match(b"nothing here", 0));
    assert!(!pf.may_match(b"sql", 3));
}

#[test]
fn prefilter_expands_ascii_case() {
    let pf = prefilter(r"(?i)sql(?=`)").unwrap();
    assert!(pf.may_match(b"x SQL y", 0));
    assert!(pf.may_match(b"x sQl y", 0));
    assert!(!pf.may_match(b"x sq y", 0));
}

#[test]
fn prefilter_folds_unicode_case() {
    // k also matches the Kelvin sign, s the long s, under simple case folding
    let pf = prefilter(r"(?<=x)(?i)k").unwrap();
    assert!(pf.may_match("x\u{212A}".as_bytes(), 0));
    let pf = prefilter(r"(?<=x)(?i)s").unwrap();
    assert!(pf.may_match("x\u{17F}".as_bytes(), 0));
    let pf = prefilter(r"(?<=x)(?i)привет").unwrap();
    assert!(pf.may_match("xПРИВЕТ".as_bytes(), 0));
    assert!(!pf.may_match("xпока".as_bytes(), 0));
}

#[test]
fn long_case_insensitive_literals_fall_back_to_a_prefix() {
    // 20 letters would need a million needles; a prefix within budget is used instead
    let needles = casei_needles("abcdefghijklmnopqrst", 64).unwrap();
    assert!(needles.len() <= 64);
    assert!(needles.iter().all(|n| n.len() >= 5));
    // the prefilter still gates on that prefix
    let pf = prefilter(r"(?i)abcdefghijklmnopqrst(?=x)").unwrap();
    assert!(pf.may_match(b"ABCDEFGHIJKLMNOPQRSTx", 0));
    assert!(!pf.may_match(b"zzzzzzzzzzzzzzzzzzzzz", 0));
}

#[test]
fn prefilter_gives_up_without_a_required_literal() {
    assert!(prefilter(r"(a|[bc])(?=\d)").is_none());
    assert!(prefilter(r"(\w)\1").is_none());
}

#[test]
fn reduce_drops_literals_covered_by_shorter_ones() {
    let lits = vec![
        ("sqlFragment".to_string(), true),
        ("sql".to_string(), true),
        ("${".to_string(), false),
    ];
    assert_eq!(
        reduce(lits),
        vec![("${".to_string(), false), ("sql".to_string(), true)]
    );
    // a case-sensitive letter literal does not cover a case-insensitive superstring
    let lits = vec![("ab".to_string(), false), ("xaby".to_string(), true)];
    assert_eq!(reduce(lits).len(), 2);
}

#[test]
fn case_folds_include_the_character_itself() {
    let mut folds = case_folds('k').unwrap();
    folds.sort();
    assert_eq!(folds, vec!['K', 'k', '\u{212A}']);
    assert_eq!(case_folds('1').unwrap(), vec!['1']);
}

#[test]
fn case_folds_are_ascending_and_symmetric() {
    for c in ['a', 'K', 's', '\u{17F}', 'ß', '\u{1E9E}', 'Σ', 'ς', '\u{130}', 'ж', '7'] {
        let folds = case_folds(c).unwrap();
        assert!(folds.windows(2).all(|pair| pair[0] < pair[1]));
        assert!(folds.iter().all(|d| case_folds(*d).unwrap() == folds));
    }
    assert_eq!(case_folds('ς').unwrap(), vec!['Σ', 'ς', 'σ']);
    assert_eq!(case_folds('\u{130}').unwrap(), vec!['\u{130}']);
}

#[test]
fn builder_exposes_the_literals() {
    let required = |pattern| {
        let builder = RegexOptionsBuilder::default();
        required_literals_of::<ParseOnly>(pattern, &builder.options)
    };
    assert_eq!(
        required(FANCY_SQL).unwrap(),
        Some(vec![("sql".to_string(), false)])
    );
    assert_eq!(
        required(r"(?i)(\s*((?:|inline-)css))(`)").unwrap(),
        Some(vec![("css".to_string(), true)])
    );
    assert!(required(r"(\w)\1").unwrap().is_none());
    assert!(required(r"(").is_err());
}

#[test]
fn a_parse_error_comes_through() {
    let options = RegexOptionsBuilder::default().options;
    assert_eq!(
        required_literals_of::<ParseOnly>("(a", &options),
        Err(Error::ParseError(2, "missing closing parenthesis".to_string()))
    );
}

#[test]
fn of_equally_selective_sets_the_last_is_picked() {
    assert_eq!(lits(r"foo\dbar\dbaz"), Some(vec![lit("baz")]));
    // a set is as selective as its shortest literal
    assert_eq!(lits(r"(longest|x)\d(ab)"), Some(vec![lit("ab")]));
    // lengths are lengths in bytes
    assert_eq!(lits(r"(ж)\d(a)"), Some(vec![lit("ж")]));
}

#[test]
fn literals_of_different_case_do_not_merge() {
    assert_eq!(lits(r"ab(?i)cde"), Some(vec![("cde".to_string(), true)]));
    assert_eq!(lits(r"ab(?i)c(?-i)d"), Some(vec![lit("ab")]));
}

#[test]
fn repetitions_count_from_one_on() {
    assert_eq!(lits(r"(sql)+"), Some(vec![lit("sql")]));
    assert_eq!(lits(r"(sql)*"), None);
    let never = Expr::Alt(Vec::new());
    assert_eq!(required_literals(&never), Some(Vec::new()));
    assert_eq!(required_literals(&Expr::Concat(Vec::new())), None);
}

#[test]
fn reduce_sorts_by_length_and_keeps_order() {
    let lits = vec![lit("bbb"), lit("zz"), lit("aa"), lit("zz"), lit("c")];
    assert_eq!(reduce(lits), vec![lit("c"), lit("zz"), lit("aa"), lit("bbb")]);
    assert_eq!(reduce(vec![lit("ab"), lit("ab")]), vec![lit("ab")]);
    assert_eq!(reduce(Vec::new()), Vec::new());
    // once is enough
    let kept = reduce(vec![lit("bb"), ("ABBA".to_string(), true), lit("b-"), lit("ab-"), lit("z")]);
    assert_eq!(reduce(kept.clone()), kept);
}

#[test]
fn reduce_compares_in_lower_case() {
    let casei = |s: &str| (s.to_string(), true);
    assert_eq!(reduce(vec![casei("SQLite"), casei("sql")]), vec![casei("sql")]);
    assert_eq!(reduce(vec![lit("MySQL"), casei("sql")]), vec![casei("sql")]);
    assert_eq!(reduce(vec![lit("SQLite"), lit("sql")]).len(), 2);
    // without letters a case-sensitive literal covers a case-insensitive one
    assert_eq!(reduce(vec![lit("--"), casei("a--b")]), vec![lit("--")]);
    // the lower case of this letter is two characters, the first of them an `i`, but no text that
    // it matches holds an `i`
    let dotted = "\u{130}";
    assert_eq!(reduce(vec![casei(dotted), casei("i")]), vec![casei("i"), casei(dotted)]);
    assert_eq!(reduce(vec![casei("i"), lit(dotted)]), vec![casei("i"), lit(dotted)]);
    // nor does its lower case cover it
    assert_eq!(reduce(vec![casei("i\u{307}"), lit("xy\u{130}")]).len(), 2);
    // folds reach further than two cases
    assert_eq!(reduce(vec![casei("k"), lit("a\u{212A}")]), vec![casei("k")]);
}

#[test]
fn needles_are_all_spellings_in_order() {
    let bytes = |list: &[&str]| -> Vec<Vec<u8>> {
        list.iter().map(|s| s.as_bytes().to_vec()).collect()
    };
    assert_eq!(casei_needles("ab", 4), Some(bytes(&["AB", "Ab", "aB", "ab"])));
    assert_eq!(casei_needles("ab", 3), Some(bytes(&["A", "a"])));
    assert_eq!(casei_needles("a1-", 2), Some(bytes(&["A1-", "a1-"])));
    assert_eq!(casei_needles("kK", 9).unwrap().len(), 9);
    assert_eq!(casei_needles("k", 3), Some(bytes(&["K", "k", "\u{212A}"])));
    assert_eq!(casei_needles("k", 2), None);
    assert_eq!(casei_needles("", 64), None);
    assert_eq!(casei_needles("a", 0), None);
}

#[test]
fn several_literals_share_the_budget() {
    // two literals, 32 needles each: five letters without further folds fit
    let pf = prefilter(r"(?i)(abcdefgh|zyxwvut)").unwrap();
    assert!(pf.may_match(b"ABCDE", 0));
    assert!(pf.may_match(b"..zYxWv..", 0));
    assert!(!pf.may_match(b"ABCD", 0));
    assert!(!pf.may_match(b"zYxW", 0));
}

#[test]
fn a_prefilter_looks_for_any_of_the_literals() {
    let pf = prefilter(r"\b(html|template)\b").unwrap();
    assert!(pf.may_match(b"<html>", 0));
    assert!(pf.may_match(b"a template", 2));
    assert!(!pf.may_match(b"a template", 3));
    assert!(!pf.may_match(b"temp", 0));
    assert!(!pf.may_match(b"", 0));
    assert!(!pf.may_match(b"html", 17));
    let copy = pf.clone();
    assert!(copy.may_match(b"a template", 2));
    assert!(!copy.may_match(b"temp", 0));
    // single bytes, two and three of them and more
    assert!(prefilter("[ab]").is_none());
    assert!(prefilter("a|b").unwrap().may_match(b"xxb", 0));
    assert!(prefilter("a|b|c|d").unwrap().may_match(b"xxd", 2));
    assert!(!prefilter("a|b|c|d").unwrap().may_match(b"xxe", 0));
}

#[test]
fn too_many_needles_make_no_prefilter() {
    let letters = |n: u32| {
        let letter = |i| Expr::Literal {
            val: char::from_u32(0x4E00 + i).unwrap().to_string(),
            casei: false,
        };
        Expr::Alt((0..n).map(letter).collect())
    };
    let pf = LiteralPrefilter::from_expr(&letters(64)).unwrap();
    assert!(pf.may_match("\u{4E3F}".as_bytes(), 0));
    assert!(!pf.may_match("\u{4E40}".as_bytes(), 0));
    assert!(LiteralPrefilter::from_expr(&letters(65)).is_none());
    // what is there twice, or covered, does not count
    let twice = Expr::Alt(vec![letters(64), letters(64)]);
    assert!(LiteralPrefilter::from_expr(&twice).is_some());
}

#[test]
fn an_alternation_without_branches_makes_no_prefilter() {
    assert!(LiteralPrefilter::from_expr(&Expr::Alt(Vec::new())).is_none());
}

#[test]
fn an_empty_literal_makes_no_prefilter() {
    let empty = Expr::Literal { val: String::new(), casei: false };
    assert_eq!(required_literals(&empty), Some(vec![lit("")]));
    assert!(LiteralPrefilter::from_expr(&empty).is_none());
}

#[test]
fn a_match_is_let_through() {
    // wherever one of these matches, the prefilter says that it may
    for (pattern, hay, at) in [
        (r"(?=[^:]*sql)\w+", "select sql", 0),
        (r"(?i)straße", "x STRA\u{1E9E}E", 2),
        (r"(\$\{|`)x", "a `x", 2),
        (r"(ab)+c", "xababc", 1),
    ] {
        let pf = prefilter(pattern).unwrap();
        assert!((0..=at).all(|start| pf.may_match(hay.as_bytes(), start)), "{}", pattern);
    }
}

/// A plain backtracking matcher with one capturing group, and the prefilter in front of it.
struct Matcher {
    expr: Expr,
    prefilter: Option<LiteralPrefilter>,
}

type Span = (usize, usize);

impl Matcher {
    fn new(pattern: &str) -> Matcher {
        let expr = Parser::parse(pattern).unwrap();
        let prefilter = LiteralPrefilter::from_expr(&expr);
        Matcher { expr, prefilter }
    }

    fn without_prefilter(pattern: &str) -> Matcher {
        Matcher { expr: Parser::parse(pattern).unwrap(), prefilter: None }
    }

    /// The first match, and what the group matched in it.
    fn search(&self, input: RegexInput) -> Option<(Span, Option<Span>)> {
        if !input.anchored {
            if let Some(prefilter) = &self.prefilter {
                if !prefilter.may_match(input.haystack, input.start) {
                    return None;
                }
            }
        }
        let text = std::str::from_utf8(input.haystack).unwrap();
        for start in input.start..=input.end {
            let mut found = None;
            let stop = &mut |end: usize, group: Option<Span>| {
                found = Some(((start, end), group));
                true
            };
            if text.is_char_boundary(start) && step(&self.expr, text, start, None, stop) {
                return found;
            }
            if input.anchored {
                break;
            }
        }
        None
    }

    fn find<'t>(&self, text: &'t str) -> Option<&'t str> {
        self.find_from_pos(text, 0)
    }

    fn find_from_pos<'t>(&self, text: &'t str, start: usize) -> Option<&'t str> {
        let ((start, end), _) = self.search(from_pos(text, start))?;
        Some(&text[start..end])
    }
}

fn from_pos(text: &str, start: usize) -> RegexInput<'_> {
    RegexInput {
        haystack: text.as_bytes(),
        kind: BytesMode::Unicode,
        start,
        end: text.len(),
        anchored: false,
    }
}

/// Matches `expr` at `pos` and hands on where the match ends, until `next` is content.
fn step(
    expr: &Expr,
    text: &str,
    pos: usize,
    group: Option<Span>,
    next: &mut dyn FnMut(usize, Option<Span>) -> bool,
) -> bool {
    match expr {
        Expr::Empty => next(pos, group),
        Expr::Any { .. } => delegate(r".", text, pos).map_or(false, |end| next(end, group)),
        Expr::Delegate { inner, .. } => {
            delegate(inner, text, pos).map_or(false, |end| next(end, group))
        }
        Expr::Literal { val, casei } => {
            let end = pos + val.len();
            let found = text.get(pos..end).map_or(false, |part| {
                part == val || (*casei && part.eq_ignore_ascii_case(val))
            });
            found && next(end, group)
        }
        Expr::Group(inner) => step(inner, text, pos, group, &mut |end, _| next(end, Some((pos, end)))),
        Expr::Backref { .. } => {
            let before = group.map_or("", |(start, end)| &text[start..end]);
            text[pos..].starts_with(before) && next(pos + before.len(), group)
        }
        Expr::LookAround(inner, LookAround::LookAhead) => {
            step(inner, text, pos, group, &mut |_, _| true) && next(pos, group)
        }
        Expr::Concat(children) => row(children, text, pos, group, next),
        Expr::Alt(branches) => branches.iter().any(|branch| step(branch, text, pos, group, next)),
        Expr::Repeat { child, lo, hi, .. } => repeat(child, *lo, *hi, text, pos, group, next),
        _ => unreachable!(),
    }
}

fn row(
    children: &[Expr],
    text: &str,
    pos: usize,
    group: Option<Span>,
    next: &mut dyn FnMut(usize, Option<Span>) -> bool,
) -> bool {
    match children.split_first() {
        Some((first, rest)) => {
            step(first, text, pos, group, &mut |end, group| row(rest, text, end, group, next))
        }
        None => next(pos, group),
    }
}

fn repeat(
    child: &Expr,
    lo: usize,
    hi: usize,
    text: &str,
    pos: usize,
    group: Option<Span>,
    next: &mut dyn FnMut(usize, Option<Span>) -> bool,
) -> bool {
    let again = &mut |end: usize, group: Option<Span>| {
        end > pos && repeat(child, lo.saturating_sub(1), hi - 1, text, end, group, next)
    };
    (hi > 0 && step(child, text, pos, group, again)) || (lo == 0 && next(pos, group))
}

fn delegate(inner: &str, text: &str, pos: usize) -> Option<usize> {
    let regex = meta::Regex::new(inner).unwrap();
    regex.find(Input::new(text).range(pos..).anchored(Anchored::Yes)).map(|m| m.end())
}

/// A pattern that needs a backtracking matcher (lookahead) and requires the literal `sql`.
const FANCY_SQL: &str = r"(?=[^:]*sql)\w+";

#[test]
fn skips_haystacks_without_the_literal_and_matches_those_with_it() {
    let re = Matcher::new(FANCY_SQL);
    assert!(re.prefilter.is_some());
    assert!(re.find("select name from users").is_none());
    let m = re.find("select sql from users").unwrap();
    assert_eq!(m, "select");
    assert!(re.find("sql").is_some());
}

#[test]
fn respects_the_search_start_position() {
    let re = Matcher::new(FANCY_SQL);
    // `sql` sits before the start position, so no match can contain it
    assert!(re.find_from_pos("sql then words", 4).is_none());
    assert!(re.find_from_pos("words then sql", 4).is_some());
}

#[test]
fn case_insensitive_literals_match_any_case() {
    let re = Matcher::new(r"(?=.*(?i)sql)\w+");
    assert!(re.find("SELECT SQL").is_some());
    assert!(re.find("select SqL").is_some());
    assert!(re.find("select nothing").is_none());
}

#[test]
fn anchored_searches_are_unaffected() {
    let re = Matcher::new(FANCY_SQL);
    let text = "select sql";
    let anchored = RegexInput { anchored: true, ..from_pos(text, 0) };
    assert_eq!(re.search(anchored).unwrap().0, (0, 6));
    let anchored_late = RegexInput { anchored: true, ..from_pos(text, 7) };
    assert_eq!(re.search(anchored_late).unwrap().0, (7, 10));
}

#[test]
fn captures_take_the_same_shortcut() {
    let re = Matcher::new(r"(\w+)(?=.*sql)");
    assert!(re.search(from_pos("no literal here", 0)).is_none());
    let (_, group) = re.search(from_pos("a b sql", 0)).unwrap();
    assert_eq!(group, Some((0, 1)));
}

#[test]
fn results_are_identical_with_the_prefilter_off() {
    let plain = Matcher::without_prefilter(FANCY_SQL);
    let with = Matcher::new(FANCY_SQL);
    for text in ["", "sql", "select sql from x", "select from x", "x sql sql"] {
        let a = plain.search(from_pos(text, 0)).map(|(span, _)| span);
        let b = with.search(from_pos(text, 0)).map(|(span, _)| span);
        assert_eq!(a, b, "text: {:?}", text);
    }
}

#[test]
fn patterns_without_a_required_literal_still_work() {
    // backreference: needs a backtracking matcher, no literal to extract
    let re = Matcher::new(r"(\w)\1");
    assert!(re.prefilter.is_none());
    assert_eq!(re.find("abccd").unwrap(), "cc");
    // alternation with a class branch
    let re = Matcher::new(r"(?=\d)(a|[bc])?\d");
    assert!(re.find("7").is_some());
}

#[test]
fn bytes_haystacks_are_searched_too() {
    let re = Matcher::new(FANCY_SQL);
    let bytes = |haystack| RegexInput {
        haystack,
        kind: BytesMode::Bytes,
        start: 0,
        end: haystack.len(),
        anchored: false,
    };
    assert!(re.search(bytes(b"select from users".as_slice())).is_none());
    assert!(re.search(bytes(b"select sql".as_slice())).is_some());
}
