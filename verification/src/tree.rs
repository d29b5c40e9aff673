//! The syntax trees of `regex_syntax`.

use regex_syntax::hir::{Class, Hir, HirKind};
use regex_syntax::ParserBuilder;
use vstd::prelude::*;

use crate::expr::Expr;
use crate::options::{BytesMode, RegexOptions};

verus! {

/// `Hir`, the syntax tree of `regex_syntax`. What it holds is `hir_tree`.
#[verifier::external_type_specification]
#[verifier::external_body]
pub struct ExHir(regex_syntax::hir::Hir);

/// What a syntax tree holds.
pub enum HirTree {
    /// The empty expression
    Empty,
    /// A literal
    Literal(Seq<u8>),
    /// A class of characters, as inclusive ranges
    Unicode(Seq<(char, char)>),
    /// A class of bytes, as inclusive ranges
    Bytes(Seq<(u8, u8)>),
    /// An assertion
    Look,
    /// At least so many repetitions
    Repetition(u32, Box<HirTree>),
    /// A capturing group
    Capture(Box<HirTree>),
    /// Expressions that match one after the other
    Concat(Seq<HirTree>),
    /// Expressions of which one matches
    Alternation(Seq<HirTree>),
}

impl HirTree {
    /// The expressions right below this one.
    pub open spec fn subs(self) -> Seq<HirTree> {
        match self {
            HirTree::Repetition(_, sub) => seq![*sub],
            HirTree::Capture(sub) => seq![*sub],
            HirTree::Concat(subs) => subs,
            HirTree::Alternation(subs) => subs,
            _ => Seq::empty(),
        }
    }

    /// Whether `node` is what stands at the root.
    pub open spec fn has_root(self, node: HirNode) -> bool {
        match node {
            HirNode::Empty => self is Empty,
            HirNode::Literal(bytes) => self == HirTree::Literal(bytes@),
            HirNode::Unicode(ranges) => self == HirTree::Unicode(ranges@),
            HirNode::Bytes(ranges) => self == HirTree::Bytes(ranges@),
            HirNode::Look => self is Look,
            HirNode::Repetition(min) => self matches HirTree::Repetition(n, _) && n == min,
            HirNode::Capture => self is Capture,
            HirNode::Concat => self is Concat,
            HirNode::Alternation => self is Alternation,
        }
    }
}

/// One node of a syntax tree, without what stands below it.
pub enum HirNode {
    /// The empty expression
    Empty,
    /// A literal
    Literal(Vec<u8>),
    /// A class of characters, as inclusive ranges
    Unicode(Vec<(char, char)>),
    /// A class of bytes, as inclusive ranges
    Bytes(Vec<(u8, u8)>),
    /// An assertion
    Look,
    /// At least so many repetitions
    Repetition(u32),
    /// A capturing group
    Capture,
    /// Expressions that match one after the other
    Concat,
    /// Expressions of which one matches
    Alternation,
}

/// What the syntax tree `hir` holds.
pub uninterp spec fn hir_tree(hir: Hir) -> HirTree;

/// The syntax tree that `regex_syntax` parses `pattern` into, or `None` where it rejects it.
pub uninterp spec fn parsed_tree(
    pattern: Seq<char>,
    casei: bool,
    unicode: bool,
    utf8: bool,
) -> Option<HirTree>;

/// Calls `Hir::kind` and hands out what the kind holds itself: the bytes of a literal, the ranges of
/// a class, the least count of a repetition.
#[verifier::external_body]
pub(crate) fn hir_node(hir: &Hir) -> (node: HirNode)
    ensures
        hir_tree(*hir).has_root(node),
{
    match hir.kind() {
        HirKind::Empty => HirNode::Empty,
        HirKind::Look(_) => HirNode::Look,
        HirKind::Literal(l) => HirNode::Literal(l.0.to_vec()),
        HirKind::Class(Class::Unicode(c)) => {
            HirNode::Unicode(c.iter().map(|r| (r.start(), r.end())).collect())
        },
        HirKind::Class(Class::Bytes(c)) => {
            HirNode::Bytes(c.iter().map(|r| (r.start(), r.end())).collect())
        },
        HirKind::Repetition(r) => HirNode::Repetition(r.min),
        HirKind::Capture(_) => HirNode::Capture,
        HirKind::Concat(_) => HirNode::Concat,
        HirKind::Alternation(_) => HirNode::Alternation,
    }
}

/// Calls `HirKind::subs`: the expressions right below this one, in order.
#[verifier::external_body]
pub(crate) fn hir_subs(hir: &Hir) -> (subs: &[Hir])
    ensures
        subs@.len() == hir_tree(*hir).subs().len(),
        forall|i: int|
            0 <= i < subs@.len() ==> hir_tree(#[trigger] subs@[i]) == hir_tree(*hir).subs()[i],
{
    hir.kind().subs()
}

/// Calls `Parser::parse` of `regex_syntax`, with the flags given and every other setting as
/// `ParserBuilder::new` has it. The outcome is a function of the arguments.
#[verifier::external_body]
fn parse_hir(pattern: &str, casei: bool, unicode: bool, utf8: bool) -> (hir: Option<Hir>)
    ensures
        hir is None ==> parsed_tree(pattern@, casei, unicode, utf8) is None,
        hir matches Some(h) ==> parsed_tree(pattern@, casei, unicode, utf8) == Some(hir_tree(h)),
{
    let mut builder = ParserBuilder::new();
    builder.case_insensitive(casei).unicode(unicode).utf8(utf8);
    builder.build().parse(pattern).ok()
}

/// How delegated pieces of a pattern are parsed.
#[derive(Clone, Copy, Debug, PartialEq, Eq)]
pub struct HirCtx {
    /// Character classes are classes of Unicode characters
    pub unicode: bool,
    /// A piece that can match bytes that are no UTF-8 is rejected
    pub utf8: bool,
}

impl HirCtx {
    /// The context that `options` ask for.
    pub open spec fn of(options: RegexOptions) -> HirCtx {
        HirCtx { unicode: options.unicode_mode, utf8: options.bytes_mode == BytesMode::Unicode }
    }

    /// How `options` have delegated pieces parsed.
    pub fn from_options(options: &RegexOptions) -> (ctx: HirCtx)
        ensures
            ctx == HirCtx::of(*options),
    {
        HirCtx {
            unicode: options.unicode_mode,
            utf8: options.bytes_mode == BytesMode::Unicode,
        }
    }
}

/// The syntax tree of a delegated piece, or `None` where there is none.
pub open spec fn delegate_tree(expr: Expr, ctx: HirCtx) -> Option<HirTree> {
    match expr {
        Expr::Delegate { inner, casei } => parsed_tree(inner@, casei, ctx.unicode, ctx.utf8),
        _ => None,
    }
}

/// The syntax tree of a delegated piece, or `None` where `expr` is none or cannot be parsed.
pub fn delegate_hir(expr: &Expr, ctx: &HirCtx) -> (hir: Option<Hir>)
    ensures
        hir is None ==> delegate_tree(*expr, *ctx) is None,
        hir matches Some(h) ==> delegate_tree(*expr, *ctx) == Some(hir_tree(h)),
{
    match expr {
        Expr::Delegate { inner, casei } => parse_hir(
            inner.as_str(),
            *casei,
            ctx.unicode,
            ctx.utf8,
        ),
        _ => None,
    }
}

/// How a delegated piece is parsed: as it stands, in any case where it says so, by Unicode classes
/// where the options say so, and for UTF-8 text alone unless the haystack is bytes of any kind.
pub proof fn a_piece_is_parsed_as_asked(expr: Expr, options: RegexOptions)
    ensures
        delegate_tree(expr, HirCtx::of(options)) == match expr {
            Expr::Delegate { inner, casei } => match options.bytes_mode {
                BytesMode::Unicode => parsed_tree(inner@, casei, options.unicode_mode, true),
                BytesMode::Bytes => parsed_tree(inner@, casei, options.unicode_mode, false),
            },
            _ => None,
        },
{
}

} // verus!
