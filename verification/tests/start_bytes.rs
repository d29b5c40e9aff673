//! Sets of bytes, and the bytes that a match can start with.

use regex_prefilter::expr::{Assertion, Expr, LookAround};
use regex_prefilter::lazy::byte_set::{bits_of, set_bits, ByteSet};
use regex_prefilter::lazy::candidates::StartPrefilter;
use regex_prefilter::lazy::start::{
    byte_set_from_expr, fancy_start, first_utf8_byte, regex_syntax_start, Start,
};
use regex_prefilter::options::{BytesMode, RegexOptions, RegexOptionsBuilder};
use regex_prefilter::text::encode_char;
use regex_prefilter::tree::{delegate_hir, HirCtx};

fn options() -> RegexOptions {
    RegexOptionsBuilder::default().options
}

fn literal(val: &str, casei: bool) -> Expr {
    Expr::Literal { val: val.to_string(), casei }
}

fn delegate(inner: &str) -> Expr {
    Expr::Delegate { inner: inner.to_string(), casei: false }
}

fn start_bytes(expr: &Expr) -> Option<Vec<u8>> {
    byte_set_from_expr(expr, &options()).map(|set| set.iter())
}

fn set_of(bytes: &[u8]) -> ByteSet {
    let mut set = ByteSet::new();
    for b in bytes {
        set.insert(*b);
    }
    set
}

fn definite(pattern: &str) -> Option<Vec<u8>> {
    let hir = regex_syntax::Parser::new().parse(pattern).unwrap();
    match regex_syntax_start(&hir) {
        Start::Definite(set) => Some(set.iter()),
        _ => None,
    }
}

fn maybe_empty(pattern: &str) -> Option<Vec<u8>> {
    let hir = regex_syntax::Parser::new().parse(pattern).unwrap();
    match regex_syntax_start(&hir) {
        Start::MaybeEmpty(set) => Some(set.iter()),
        _ => None,
    }
}

#[test]
fn a_byte_set_holds_what_was_inserted() {
    let mut set = ByteSet::new();
    assert!(set.is_empty());
    for b in [0, 63, 64, 127, 128, 191, 192, 255] {
        assert!(!set.contains(b));
        set.insert(b);
        set.insert(b);
        assert!(set.contains(b));
        assert!(!set.contains(b ^ 1));
    }
    assert!(!set.is_empty());
    assert_eq!(set.iter(), vec![0, 63, 64, 127, 128, 191, 192, 255]);
    assert_eq!(set.clone(), set);
    assert!(ByteSet::default().is_empty());
}

#[test]
fn a_union_holds_the_bytes_of_both() {
    let mut set = set_of(b"az");
    set.union(&set_of(&[b'z', 200]));
    assert_eq!(set.iter(), vec![b'a', b'z', 200]);
    set.union(&ByteSet::new());
    assert_eq!(set.iter(), vec![b'a', b'z', 200]);
}

#[test]
fn bits_are_listed_from_the_lowest() {
    assert_eq!(bits_of(0), Vec::<usize>::new());
    assert_eq!(bits_of(0b1010_0001), vec![0, 5, 7]);
    assert_eq!(bits_of(1 << 63), vec![63]);
    assert_eq!(bits_of(u64::MAX), (0..64).collect::<Vec<usize>>());
    assert_eq!(set_bits(&[]), Vec::<usize>::new());
    assert_eq!(set_bits(&[2, 0, 5, 1 << 63]), vec![1, 128, 130, 255]);
}

#[test]
fn the_first_byte_of_a_character() {
    assert_eq!(first_utf8_byte('a'), b'a');
    for c in ['\0', '\u{7f}', '\u{80}', 'é', '\u{7ff}', '\u{800}', '€', '\u{ffff}', '\u{10000}', '🦀', '\u{10ffff}'] {
        assert_eq!(encode_char(c), c.to_string().as_bytes());
        assert_eq!(first_utf8_byte(c), c.to_string().as_bytes()[0]);
    }
}

#[test]
fn starts_of_syntax_trees() {
    assert_eq!(definite("abc"), Some(vec![b'a']));
    assert_eq!(definite("[a-c]x"), Some(vec![b'a', b'b', b'c']));
    assert_eq!(definite("(foo|bar)"), Some(vec![b'b', b'f']));
    assert_eq!(definite("x*y+"), Some(vec![b'x', b'y']));
    assert_eq!(definite("(?:a|b*)c"), Some(vec![b'a', b'b', b'c']));
    assert_eq!(definite("^ab"), Some(vec![b'a']));
    assert_eq!(maybe_empty("x*"), Some(vec![b'x']));
    assert_eq!(maybe_empty(""), Some(Vec::new()));
    assert_eq!(maybe_empty("^"), Some(Vec::new()));
    assert_eq!(maybe_empty("(?:a|b?)"), Some(vec![b'a', b'b']));
    // a class without ASCII characters starts with a lead byte
    assert_eq!(definite("[é-ü]"), Some((0xC2..=0xF4).collect::<Vec<u8>>()));
    let mut mixed: Vec<u8> = vec![b'x', b'y', b'z', b'{', b'|', b'}', b'~', 0x7F];
    mixed.extend(0xC2..=0xF4);
    assert_eq!(definite("[x-é]"), Some(mixed));
    // a class of nothing
    let hir = regex_syntax::Parser::new().parse(r"[a&&b]").unwrap();
    assert!(matches!(regex_syntax_start(&hir), Start::Bail));
    // a class of bytes
    let hir = regex_syntax::ParserBuilder::new().utf8(false).build().parse(r"(?-u:[\xF8-\xFA])").unwrap();
    match regex_syntax_start(&hir) {
        Start::Definite(set) => assert_eq!(set.iter(), vec![0xF8, 0xF9, 0xFA]),
        _ => panic!("a class of bytes has definite start bytes"),
    }
}

#[test]
fn starts_of_expressions() {
    assert_eq!(start_bytes(&literal("foo", false)), Some(vec![b'f']));
    assert_eq!(start_bytes(&literal("", false)), None);
    assert_eq!(start_bytes(&literal("Foo", true)), Some(vec![b'F', b'f']));
    // the Kelvin sign is a k, too
    assert_eq!(start_bytes(&literal("k", true)), Some(vec![b'K', b'k', 0xE2]));
    assert_eq!(start_bytes(&literal("é", false)), Some(vec![0xC3]));
    assert_eq!(start_bytes(&delegate("[0-2]")), Some(vec![b'0', b'1', b'2']));
    assert_eq!(start_bytes(&delegate("[")), None);
    assert_eq!(start_bytes(&Expr::Any { newline: true }), None);
    assert_eq!(start_bytes(&Expr::Backref { group: 1, casei: false }), None);
    assert_eq!(start_bytes(&Expr::Group(Box::new(literal("x", false)))), Some(vec![b'x']));
    assert_eq!(start_bytes(&Expr::AtomicGroup(Box::new(literal("x", false)))), Some(vec![b'x']));
    assert_eq!(start_bytes(&Expr::Empty), None);
}

#[test]
fn starts_of_rows_and_alternatives() {
    let optional = |expr| Expr::Repeat { child: Box::new(expr), lo: 0, hi: 1, greedy: true };
    let plus = |expr| Expr::Repeat { child: Box::new(expr), lo: 1, hi: usize::MAX, greedy: true };
    let row = Expr::Concat(vec![
        Expr::Assertion(Assertion::WordBoundary),
        optional(literal("a", false)),
        Expr::KeepOut,
        literal("b", false),
        Expr::Backref { group: 1, casei: false },
    ]);
    assert_eq!(start_bytes(&row), Some(vec![b'a', b'b']));
    let row = Expr::Concat(vec![optional(literal("a", false)), Expr::Any { newline: false }]);
    assert_eq!(start_bytes(&row), None);
    assert_eq!(start_bytes(&optional(literal("a", false))), None);
    assert_eq!(start_bytes(&plus(literal("a", false))), Some(vec![b'a']));
    assert_eq!(start_bytes(&Expr::Alt(vec![literal("a", false), delegate("b")])), Some(vec![b'a', b'b']));
    assert_eq!(start_bytes(&Expr::Alt(vec![literal("a", false), Expr::Empty])), None);
    assert_eq!(start_bytes(&Expr::Alt(vec![Expr::Any { newline: false }, literal("a", false)])), None);
    assert_eq!(start_bytes(&Expr::Alt(Vec::new())), None);
}

#[test]
fn starts_of_lookarounds() {
    let look = |expr, kind| Expr::LookAround(Box::new(expr), kind);
    assert_eq!(start_bytes(&look(literal("ab", false), LookAround::LookAhead)), Some(vec![b'a']));
    assert_eq!(start_bytes(&look(literal("ab", false), LookAround::LookAheadNeg)), None);
    assert_eq!(start_bytes(&look(literal("ab", false), LookAround::LookBehind)), None);
    // a lookahead that says nothing is passed over
    let row = Expr::Concat(vec![look(Expr::Any { newline: true }, LookAround::LookAhead), literal("z", false)]);
    assert_eq!(start_bytes(&row), Some(vec![b'z']));
    let ctx = HirCtx::from_options(&options());
    match fancy_start(&look(literal("ab", false), LookAround::LookBehind), &ctx) {
        Start::MaybeEmpty(set) => assert!(set.is_empty()),
        _ => panic!("a lookbehind matches no text"),
    }
}

#[test]
fn delegated_pieces_follow_the_options() {
    let insensitive = Expr::Delegate { inner: "[ab]".to_string(), casei: true };
    assert_eq!(start_bytes(&insensitive), Some(b"ABab".to_vec()));
    let any_byte = delegate(r"(?-u:\xFF)");
    assert_eq!(start_bytes(&any_byte), None);
    let bytes = RegexOptions { bytes_mode: BytesMode::Bytes, ..options() };
    assert_eq!(byte_set_from_expr(&any_byte, &bytes).map(|set| set.iter()), Some(vec![0xFF]));
    let ascii = RegexOptions { unicode_mode: false, ..bytes };
    let digits = byte_set_from_expr(&delegate(r"\d"), &ascii).map(|set| set.iter());
    assert_eq!(digits, Some(b"0123456789".to_vec()));
    assert!(delegate_hir(&Expr::Empty, &HirCtx::from_options(&options())).is_none());
}

#[test]
fn candidates_are_listed_by_byte() {
    let sets = [Some(set_of(b"ab")), None, Some(set_of(b"b")), None];
    let (prefilter, remaining) = StartPrefilter::from_byte_sets(&sets).unwrap();
    assert_eq!(remaining, vec![1, 3]);
    assert_eq!(prefilter.candidates(b'a'), &vec![0]);
    assert_eq!(prefilter.candidates(b'b'), &vec![0, 2]);
    assert!(prefilter.may_match_at(b'b'));
    assert!(!prefilter.may_match_at(b'c'));
    assert!(prefilter.candidates(b'c').is_empty());
    assert!(StartPrefilter::from_byte_sets(&[None, None]).is_none());
    assert!(StartPrefilter::from_byte_sets(&[]).is_none());
    assert!((0..=255).all(|b| !StartPrefilter::default().may_match_at(b)));
}
