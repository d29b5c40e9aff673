//! Which byte a match starts with.

use regex_syntax::hir::Hir;
use vstd::prelude::*;

use super::byte_set::ByteSet;
use crate::expr::{Expr, LookAround};
use crate::fold;
use crate::options::RegexOptions;
use crate::semantics;
use crate::text;
use crate::tree::{self, HirCtx, HirNode, HirTree};

verus! {

/// What is known of the start of the matches of an expression.
pub enum Start {
    /// Every match must start with a byte from the set
    Definite(ByteSet),
    /// The match can be empty but otherwise it starts with a byte from the set
    MaybeEmpty(ByteSet),
    /// Could be anything.
    Bail,
}

/// What a `Start` says: see its variants.
pub enum StartSet {
    Definite(Set<u8>),
    MaybeEmpty(Set<u8>),
    Bail,
}

impl View for Start {
    type V = StartSet;

    open spec fn view(&self) -> StartSet {
        match self {
            Start::Definite(set) => StartSet::Definite(set@),
            Start::MaybeEmpty(set) => StartSet::MaybeEmpty(set@),
            Start::Bail => StartSet::Bail,
        }
    }
}

impl StartSet {
    /// An expression that matches no text.
    pub open spec fn nothing() -> StartSet {
        StartSet::MaybeEmpty(Set::empty())
    }

    /// Another expression follows: it starts the match where this one matched no text.
    pub open spec fn before(self, next: StartSet) -> StartSet {
        match (self, next) {
            (StartSet::MaybeEmpty(a), StartSet::Definite(b)) => StartSet::Definite(a.union(b)),
            (StartSet::MaybeEmpty(a), StartSet::MaybeEmpty(b)) => StartSet::MaybeEmpty(a.union(b)),
            (StartSet::MaybeEmpty(_), StartSet::Bail) => StartSet::Bail,
            _ => self,
        }
    }

    /// One of two expressions matches.
    pub open spec fn or(self, other: StartSet) -> StartSet {
        match (self, other) {
            (StartSet::Definite(a), StartSet::Definite(b)) => StartSet::Definite(a.union(b)),
            (StartSet::Definite(a), StartSet::MaybeEmpty(b)) => StartSet::MaybeEmpty(a.union(b)),
            (StartSet::MaybeEmpty(a), StartSet::Definite(b)) => StartSet::MaybeEmpty(a.union(b)),
            (StartSet::MaybeEmpty(a), StartSet::MaybeEmpty(b)) => StartSet::MaybeEmpty(a.union(b)),
            _ => StartSet::Bail,
        }
    }

    /// The expression can be left out.
    pub open spec fn optional(self) -> StartSet {
        match self {
            StartSet::Definite(set) => StartSet::MaybeEmpty(set),
            _ => self,
        }
    }

    /// One byte of a class matches. Of a class that holds nothing, nothing is said.
    pub open spec fn class(bytes: Set<u8>) -> StartSet {
        if bytes == Set::<u8>::empty() {
            StartSet::Bail
        } else {
            StartSet::Definite(bytes)
        }
    }

    /// What this says of a match in `hay` from `i` to `j`.
    pub open spec fn allows(self, hay: Seq<u8>, i: int, j: int) -> bool {
        match self {
            StartSet::Definite(set) => i < hay.len() && set.contains(hay[i]),
            StartSet::MaybeEmpty(set) => i == j || (i < hay.len() && set.contains(hay[i])),
            StartSet::Bail => true,
        }
    }
}

/// Whether a character of the inclusive range can start with `b`. Of the characters beyond ASCII
/// every byte that can lead one is taken.
pub open spec fn char_range_leads(range: (char, char), b: u8) -> bool {
    ||| range.0 as int <= b <= range.1 as int && b <= 0x7F
    ||| range.1 as int > 0x7F && 0xC2 <= b <= 0xF4
}

/// The bytes that a character of `ranges` can start with.
pub open spec fn lead_bytes(ranges: Seq<(char, char)>) -> Set<u8> {
    Set::new(|b: u8| exists|k: int| 0 <= k < ranges.len() && char_range_leads(#[trigger] ranges[k], b))
}

/// The bytes of `ranges`.
pub open spec fn bytes_of_ranges(ranges: Seq<(u8, u8)>) -> Set<u8> {
    Set::new(|b: u8| semantics::in_byte_ranges(ranges, b))
}

/// What is known of the start of the matches of a syntax tree of `regex_syntax`.
pub open spec fn hir_start(hir: HirTree) -> StartSet
    decreases hir,
{
    match hir {
        HirTree::Empty => StartSet::nothing(),
        HirTree::Look => StartSet::nothing(),
        HirTree::Literal(bytes) => if bytes.len() > 0 {
            StartSet::Definite(set![bytes[0]])
        } else {
            StartSet::nothing()
        },
        HirTree::Unicode(ranges) => StartSet::class(lead_bytes(ranges)),
        HirTree::Bytes(ranges) => StartSet::class(bytes_of_ranges(ranges)),
        HirTree::Capture(sub) => hir_start(*sub),
        HirTree::Repetition(min, sub) => if min == 0 {
            hir_start(*sub).optional()
        } else {
            hir_start(*sub)
        },
        HirTree::Concat(subs) => hir_concat_start(subs),
        HirTree::Alternation(subs) => hir_alternation_start(subs),
    }
}

/// What is known of the start of matches of `subs` in a row.
pub open spec fn hir_concat_start(subs: Seq<HirTree>) -> StartSet
    decreases subs,
{
    if subs.len() == 0 {
        StartSet::nothing()
    } else {
        hir_start(subs[0]).before(hir_concat_start(subs.drop_first()))
    }
}

/// What is known of the start of a match of one of `subs`.
pub open spec fn hir_alternation_start(subs: Seq<HirTree>) -> StartSet
    decreases subs,
{
    if subs.len() == 0 {
        StartSet::nothing()
    } else if subs.len() == 1 {
        hir_start(subs[0])
    } else {
        hir_alternation_start(subs.drop_last()).or(hir_start(subs.last()))
    }
}

/// What is known of the start of the matches of an expression.
pub open spec fn expr_start(expr: Expr, ctx: HirCtx) -> StartSet
    decreases expr,
{
    match expr {
        Expr::Empty => StartSet::nothing(),
        Expr::Assertion(_) => StartSet::nothing(),
        Expr::KeepOut => StartSet::nothing(),
        Expr::ContinueFromPreviousMatchEnd => StartSet::nothing(),
        Expr::Literal { val, casei } => literal_start(val@, casei),
        Expr::Delegate { .. } => match tree::delegate_tree(expr, ctx) {
            Some(hir) => hir_start(hir),
            None => StartSet::Bail,
        },
        Expr::Concat(children) => concat_start(children@, ctx),
        Expr::Alt(branches) => alt_start(branches@, ctx),
        Expr::Group(child) => expr_start(*child, ctx),
        Expr::AtomicGroup(child) => expr_start(*child, ctx),
        Expr::Repeat { child, lo, .. } => if lo == 0 {
            expr_start(*child, ctx).optional()
        } else {
            expr_start(*child, ctx)
        },
        Expr::LookAround(child, LookAround::LookAhead) => match expr_start(*child, ctx) {
            StartSet::Definite(set) => StartSet::Definite(set),
            _ => StartSet::nothing(),
        },
        Expr::LookAround(_, _) => StartSet::nothing(),
        _ => StartSet::Bail,
    }
}

/// The first bytes of `chars`.
pub open spec fn first_bytes(chars: Seq<char>) -> Set<u8> {
    Set::new(
        |b: u8| exists|k: int| 0 <= k < chars.len() && text::char_bytes(#[trigger] chars[k])[0] == b,
    )
}

/// What is known of the start of a literal: the first byte of its first character, in each case.
pub open spec fn literal_start(val: Seq<char>, casei: bool) -> StartSet {
    if val.len() == 0 {
        StartSet::nothing()
    } else if casei {
        match fold::fold_chars(val[0]) {
            Some(chars) => StartSet::Definite(first_bytes(chars)),
            None => StartSet::Bail,
        }
    } else {
        StartSet::Definite(set![text::char_bytes(val[0])[0]])
    }
}

/// What is known of the start of matches of `exprs` in a row.
pub open spec fn concat_start(exprs: Seq<Expr>, ctx: HirCtx) -> StartSet
    decreases exprs,
{
    if exprs.len() == 0 {
        StartSet::nothing()
    } else {
        expr_start(exprs[0], ctx).before(concat_start(exprs.drop_first(), ctx))
    }
}

/// What is known of the start of a match of one of `exprs`.
pub open spec fn alt_start(exprs: Seq<Expr>, ctx: HirCtx) -> StartSet
    decreases exprs,
{
    if exprs.len() == 0 {
        StartSet::nothing()
    } else if exprs.len() == 1 {
        expr_start(exprs[0], ctx)
    } else {
        alt_start(exprs.drop_last(), ctx).or(expr_start(exprs.last(), ctx))
    }
}

/// The bytes that every match of `expr` starts with, where such a set can be established.
pub open spec fn start_bytes_of(expr: Expr, ctx: HirCtx) -> Option<Set<u8>> {
    match expr_start(expr, ctx) {
        StartSet::Definite(set) => if set == Set::<u8>::empty() {
            None
        } else {
            Some(set)
        },
        _ => None,
    }
}

/// Adds the bytes from `first` to `last`.
fn insert_range(set: &mut ByteSet, first: u8, last: u8)
    ensures
        final(set)@ == old(set)@.union(Set::new(|b: u8| first <= b <= last)),
{
    let mut n: u16 = first as u16;
    while n <= last as u16
        invariant
            first <= n <= 256,
            n <= last + 1 || n == first,
            set@ == old(set)@.union(Set::new(|b: u8| first <= b < n)),
        decreases 256 - n,
    {
        let ghost before = set@;
        set.insert(n as u8);
        assert(set@ =~= old(set)@.union(Set::new(|b: u8| first <= b < n + 1)));
        n += 1;
    }
    assert(set@ =~= old(set)@.union(Set::new(|b: u8| first <= b <= last)));
}

/// Adds the bytes that a character from `first` to `last` can start with.
fn insert_char_range(set: &mut ByteSet, first: char, last: char)
    ensures
        final(set)@ == old(set)@.union(Set::new(|b: u8| char_range_leads((first, last), b))),
{
    if first as u32 <= 0x7F {
        if last as u32 <= 0x7F {
            insert_range(set, first as u32 as u8, last as u32 as u8);
        } else {
            insert_range(set, first as u32 as u8, 0x7F);
        }
    }
    if last as u32 > 0x7F {
        // unicode, just insert lead bytes range
        insert_range(set, 0xC2, 0xF4);
    }
    assert(set@ =~= old(set)@.union(Set::new(|b: u8| char_range_leads((first, last), b))));
}

/// The bytes that a character of `ranges` can start with.
fn lead_byte_set(ranges: &Vec<(char, char)>) -> (set: ByteSet)
    ensures
        set@ == lead_bytes(ranges@),
{
    let mut set = ByteSet::new();
    let mut i: usize = 0;
    assert(set@ =~= lead_bytes(ranges@.take(0)));
    while i < ranges.len()
        invariant
            i <= ranges@.len(),
            set@ == lead_bytes(ranges@.take(i as int)),
        decreases ranges@.len() - i,
    {
        insert_char_range(&mut set, ranges[i].0, ranges[i].1);
        proof {
            let some = ranges@.take(i as int);
            let more = ranges@.take(i + 1);
            assert forall|b: u8| set@.contains(b) == lead_bytes(more).contains(b) by {
                assert(more[i as int] == ranges@[i as int]);
                if lead_bytes(some).contains(b) {
                    let k = choose|k: int|
                        0 <= k < some.len() && char_range_leads(#[trigger] some[k], b);
                    assert(more[k] == some[k]);
                }
                if lead_bytes(more).contains(b) {
                    let k = choose|k: int|
                        0 <= k < more.len() && char_range_leads(#[trigger] more[k], b);
                    assert(k < i ==> some[k] == more[k]);
                }
            }
            assert(set@ =~= lead_bytes(more));
        }
        i += 1;
    }
    assert(ranges@.take(i as int) =~= ranges@);
    set
}

/// The bytes of `ranges`.
fn range_byte_set(ranges: &Vec<(u8, u8)>) -> (set: ByteSet)
    ensures
        set@ == bytes_of_ranges(ranges@),
{
    let mut set = ByteSet::new();
    let mut i: usize = 0;
    assert(set@ =~= bytes_of_ranges(ranges@.take(0)));
    while i < ranges.len()
        invariant
            i <= ranges@.len(),
            set@ == bytes_of_ranges(ranges@.take(i as int)),
        decreases ranges@.len() - i,
    {
        insert_range(&mut set, ranges[i].0, ranges[i].1);
        proof {
            let some = ranges@.take(i as int);
            let more = ranges@.take(i + 1);
            assert forall|b: u8| set@.contains(b) == bytes_of_ranges(more).contains(b) by {
                assert(more[i as int] == ranges@[i as int]);
                if bytes_of_ranges(some).contains(b) {
                    let k = choose|k: int|
                        0 <= k < some.len() && (#[trigger] some[k]).0 <= b <= some[k].1;
                    assert(more[k] == some[k]);
                }
                if bytes_of_ranges(more).contains(b) {
                    let k = choose|k: int|
                        0 <= k < more.len() && (#[trigger] more[k]).0 <= b <= more[k].1;
                    assert(k < i ==> some[k] == more[k]);
                }
            }
            assert(set@ =~= bytes_of_ranges(more));
        }
        i += 1;
    }
    assert(ranges@.take(i as int) =~= ranges@);
    set
}

impl Start {
    /// The start of an expression that matches no text.
    fn nothing() -> (start: Start)
        ensures
            start@ == StartSet::nothing(),
    {
        Start::MaybeEmpty(ByteSet::new())
    }

    /// The start of a byte of a class.
    fn class(set: ByteSet) -> (start: Start)
        ensures
            start@ == StartSet::class(set@),
    {
        if set.is_empty() {
            Start::Bail
        } else {
            Start::Definite(set)
        }
    }

    /// The start of one of two expressions.
    fn or(self, other: Start) -> (start: Start)
        ensures
            start@ == self@.or(other@),
    {
        match (self, other) {
            (Start::Definite(mut a), Start::Definite(b)) => {
                a.union(&b);
                Start::Definite(a)
            },
            (Start::Definite(mut a), Start::MaybeEmpty(b)) => {
                a.union(&b);
                Start::MaybeEmpty(a)
            },
            (Start::MaybeEmpty(mut a), Start::Definite(b)) => {
                a.union(&b);
                Start::MaybeEmpty(a)
            },
            (Start::MaybeEmpty(mut a), Start::MaybeEmpty(b)) => {
                a.union(&b);
                Start::MaybeEmpty(a)
            },
            _ => Start::Bail,
        }
    }

    /// The start of an expression that can be left out.
    fn optional(self) -> (start: Start)
        ensures
            start@ == self@.optional(),
    {
        match self {
            Start::Definite(set) => Start::MaybeEmpty(set),
            Start::MaybeEmpty(set) => Start::MaybeEmpty(set),
            Start::Bail => Start::Bail,
        }
    }
}

/// Of three expressions in a row, which two are taken together makes no difference, where the
/// first can be empty.
proof fn before_is_associative(a: Set<u8>, b: Set<u8>, next: StartSet)
    ensures
        StartSet::MaybeEmpty(a).before(StartSet::MaybeEmpty(b).before(next)) == StartSet::MaybeEmpty(
            a.union(b),
        ).before(next),
        StartSet::MaybeEmpty(a).before(StartSet::nothing()) == StartSet::MaybeEmpty(a),
        StartSet::MaybeEmpty(Set::<u8>::empty()).before(next) == next,
{
    assert(a.union(Set::empty()) =~= a);
    match next {
        StartSet::Definite(c) => {
            assert(a.union(b.union(c)) =~= a.union(b).union(c));
            assert(Set::<u8>::empty().union(c) =~= c);
        },
        StartSet::MaybeEmpty(c) => {
            assert(a.union(b.union(c)) =~= a.union(b).union(c));
            assert(Set::<u8>::empty().union(c) =~= c);
        },
        StartSet::Bail => {},
    }
}

/// A union holds something where one of the sets does.
proof fn union_is_not_empty(a: Set<u8>, b: Set<u8>)
    requires
        b != Set::<u8>::empty(),
    ensures
        a.union(b) != Set::<u8>::empty(),
{
    if a.union(b) == Set::<u8>::empty() {
        assert forall|x: u8| !b.contains(x) by {
            assert(!a.union(b).contains(x));
        }
        assert(b =~= Set::<u8>::empty());
    }
}

/// What is known of the start of the matches of `expr`: the same as `fancy_start`, of a syntax tree
/// of `regex_syntax`.
pub fn regex_syntax_start(expr: &Hir) -> (start: Start)
    ensures
        start@ == hir_start(tree::hir_tree(*expr)),
        start@ matches StartSet::Definite(s) ==> s != Set::<u8>::empty(),
    decreases tree::hir_tree(*expr),
{
    let subs = tree::hir_subs(expr);
    let ghost trees = tree::hir_tree(*expr).subs();
    match tree::hir_node(expr) {
        // 0 len match
        HirNode::Empty => Start::nothing(),
        HirNode::Look => Start::nothing(),
        HirNode::Literal(bytes) => {
            if bytes.len() > 0 {
                let mut set = ByteSet::new();
                set.insert(bytes[0]);
                assert(set@.contains(bytes@[0]));
                Start::Definite(set)
            } else {
                Start::nothing()
            }
        },
        HirNode::Unicode(ranges) => Start::class(lead_byte_set(&ranges)),
        HirNode::Bytes(ranges) => Start::class(range_byte_set(&ranges)),
        HirNode::Capture => {
            assert(tree::hir_tree(subs@[0]) == trees[0]);
            regex_syntax_start(&subs[0])
        },
        HirNode::Repetition(min) => {
            assert(tree::hir_tree(subs@[0]) == trees[0]);
            let child_start = regex_syntax_start(&subs[0]);
            if min == 0 {
                // if we allow 0 reps then it's not definite
                child_start.optional()
            } else {
                child_start
            }
        },
        HirNode::Concat => {
            let mut set = ByteSet::new();
            let mut i: usize = 0;
            proof {
                assert(trees.skip(0) =~= trees);
                before_is_associative(set@, set@, hir_concat_start(trees));
            }
            while i < subs.len()
                invariant
                    i <= subs@.len(),
                    subs@.len() == trees.len(),
                    forall|k: int| 0 <= k < subs@.len() ==> tree::hir_tree(#[trigger] subs@[k]) == trees[k],
                    tree::hir_tree(*expr) == HirTree::Concat(trees),
                    hir_concat_start(trees) == StartSet::MaybeEmpty(set@).before(
                        hir_concat_start(trees.skip(i as int)),
                    ),
                decreases subs@.len() - i,
            {
                proof {
                    assert(trees.skip(i as int)[0] == trees[i as int]);
                    assert(trees.skip(i as int).drop_first() =~= trees.skip(i + 1));
                    assert(tree::hir_tree(subs@[i as int]) == trees[i as int]);
                }
                match regex_syntax_start(&subs[i]) {
                    Start::Definite(mut s) => {
                        // We only care about the first byte so as soon as we hit a definite match
                        // we don't need to continue processing the rest
                        let ghost first = s@;
                        s.union(&set);
                        assert(s@ =~= set@.union(first));
                        proof {
                            union_is_not_empty(set@, first);
                        }
                        return Start::Definite(s);
                    },
                    Start::MaybeEmpty(s) => {
                        proof {
                            before_is_associative(set@, s@, hir_concat_start(trees.skip(i + 1)));
                        }
                        set.union(&s);
                    },
                    Start::Bail => {
                        // If we even get one bail, we bail everything
                        return Start::Bail;
                    },
                }
                i += 1;
            }
            proof {
                before_is_associative(set@, set@, StartSet::nothing());
            }
            Start::MaybeEmpty(set)
        },
        HirNode::Alternation => {
            if subs.len() == 0 {
                assert(hir_alternation_start(trees) == StartSet::nothing());
                return Start::nothing();
            }
            assert(tree::hir_tree(subs@[0]) == trees[0]);
            let mut total = regex_syntax_start(&subs[0]);
            let mut i: usize = 1;
            while i < subs.len()
                invariant
                    1 <= i <= subs@.len(),
                    subs@.len() == trees.len(),
                    forall|k: int| 0 <= k < subs@.len() ==> tree::hir_tree(#[trigger] subs@[k]) == trees[k],
                    tree::hir_tree(*expr) == HirTree::Alternation(trees),
                    total@ == hir_alternation_start(trees.take(i as int)),
                    total@ matches StartSet::Definite(s) ==> s != Set::<u8>::empty(),
                decreases subs@.len() - i,
            {
                assert(tree::hir_tree(subs@[i as int]) == trees[i as int]);
                assert(decreases_to!(tree::hir_tree(*expr) => tree::hir_tree(*expr)->Alternation_0[i as int]));
                let expr_start = regex_syntax_start(&subs[i]);
                proof {
                    if let (StartSet::Definite(a), StartSet::Definite(b)) = (total@, expr_start@) {
                        union_is_not_empty(a, b);
                    }
                }
                total = total.or(expr_start);
                assert(trees.take(i + 1).drop_last() =~= trees.take(i as int));
                i += 1;
            }
            assert(trees.take(i as int) =~= trees);
            total
        },
    }
}

/// The first byte of the UTF-8 encoding of `c`.
pub fn first_utf8_byte(c: char) -> (b: u8)
    ensures
        b == text::char_bytes(c)[0],
{
    let bytes = text::encode_char(c);
    proof {
        text::first_byte_of_char(c);
    }
    bytes[0]
}

/// The first character of `s`.
fn first_char(s: &str) -> (first: Option<char>)
    ensures
        first == (if s@.len() == 0 {
            None::<char>
        } else {
            Some(s@[0])
        }),
{
    let mut chars = s.chars();
    chars.next()
}

/// The first bytes of `chars`.
fn first_byte_set(chars: &Vec<char>) -> (set: ByteSet)
    ensures
        set@ == first_bytes(chars@),
{
    let mut set = ByteSet::new();
    let mut i: usize = 0;
    assert(set@ =~= first_bytes(chars@.take(0)));
    while i < chars.len()
        invariant
            i <= chars@.len(),
            set@ == first_bytes(chars@.take(i as int)),
        decreases chars@.len() - i,
    {
        set.insert(first_utf8_byte(chars[i]));
        proof {
            let some = chars@.take(i as int);
            let more = chars@.take(i + 1);
            assert forall|b: u8| set@.contains(b) == first_bytes(more).contains(b) by {
                assert(more[i as int] == chars@[i as int]);
                if first_bytes(some).contains(b) {
                    let k = choose|k: int|
                        0 <= k < some.len() && text::char_bytes(#[trigger] some[k])[0] == b;
                    assert(more[k] == some[k]);
                }
                if first_bytes(more).contains(b) {
                    let k = choose|k: int|
                        0 <= k < more.len() && text::char_bytes(#[trigger] more[k])[0] == b;
                    assert(k < i ==> some[k] == more[k]);
                }
            }
            assert(set@ =~= first_bytes(more));
        }
        i += 1;
    }
    assert(chars@.take(i as int) =~= chars@);
    set
}

/// What is known of the start of the matches of `expr`.
pub fn fancy_start(expr: &Expr, ctx: &HirCtx) -> (start: Start)
    ensures
        start@ == expr_start(*expr, *ctx),
        start@ matches StartSet::Definite(s) ==> s != Set::<u8>::empty(),
    decreases *expr,
{
    match expr {
        Expr::Empty => Start::nothing(),
        Expr::Assertion(_) => Start::nothing(),
        Expr::KeepOut => Start::nothing(),
        Expr::ContinueFromPreviousMatchEnd => Start::nothing(),
        Expr::Literal { val, casei } => {
            let first = match first_char(val.as_str()) {
                Some(first) => first,
                None => return Start::nothing(),
            };
            if *casei {
                match fold::case_folds(first) {
                    Some(chars) => {
                        let set = first_byte_set(&chars);
                        assert(set@.contains(text::char_bytes(chars@[0])[0]));
                        Start::Definite(set)
                    },
                    None => Start::Bail,
                }
            } else {
                let mut set = ByteSet::new();
                set.insert(first_utf8_byte(first));
                assert(set@.contains(text::char_bytes(first)[0]));
                Start::Definite(set)
            }
        },
        Expr::Delegate { .. } => match tree::delegate_hir(expr, ctx) {
            Some(hir) => regex_syntax_start(&hir),
            None => Start::Bail,
        },
        Expr::Concat(exprs) => {
            let mut set = ByteSet::new();
            let mut i: usize = 0;
            proof {
                assert(exprs@.skip(0) =~= exprs@);
                before_is_associative(set@, set@, concat_start(exprs@, *ctx));
            }
            while i < exprs.len()
                invariant
                    i <= exprs@.len(),
                    *expr == Expr::Concat(*exprs),
                    concat_start(exprs@, *ctx) == StartSet::MaybeEmpty(set@).before(
                        concat_start(exprs@.skip(i as int), *ctx),
                    ),
                decreases exprs@.len() - i,
            {
                proof {
                    assert(exprs@.skip(i as int)[0] == exprs@[i as int]);
                    assert(exprs@.skip(i as int).drop_first() =~= exprs@.skip(i + 1));
                    assert(decreases_to!(*expr => expr->Concat_0@[i as int]));
                }
                match fancy_start(&exprs[i], ctx) {
                    Start::Definite(mut s) => {
                        // We only care about the first byte so as soon as we hit a definite match
                        // we don't need to continue processing the rest
                        let ghost first = s@;
                        s.union(&set);
                        assert(s@ =~= set@.union(first));
                        proof {
                            union_is_not_empty(set@, first);
                        }
                        return Start::Definite(s);
                    },
                    Start::MaybeEmpty(s) => {
                        proof {
                            before_is_associative(
                                set@,
                                s@,
                                concat_start(exprs@.skip(i + 1), *ctx),
                            );
                        }
                        set.union(&s);
                    },
                    Start::Bail => {
                        // If we even get one bail, we bail everything
                        return Start::Bail;
                    },
                }
                i += 1;
            }
            proof {
                before_is_associative(set@, set@, StartSet::nothing());
            }
            Start::MaybeEmpty(set)
        },
        Expr::Alt(exprs) => {
            if exprs.len() == 0 {
                assert(alt_start(exprs@, *ctx) == StartSet::nothing());
                return Start::nothing();
            }
            assert(decreases_to!(*expr => expr->Alt_0@[0]));
            let mut total = fancy_start(&exprs[0], ctx);
            let mut i: usize = 1;
            while i < exprs.len()
                invariant
                    1 <= i <= exprs@.len(),
                    *expr == Expr::Alt(*exprs),
                    total@ == alt_start(exprs@.take(i as int), *ctx),
                    total@ matches StartSet::Definite(s) ==> s != Set::<u8>::empty(),
                decreases exprs@.len() - i,
            {
                assert(decreases_to!(*expr => expr->Alt_0@[i as int]));
                let expr_start = fancy_start(&exprs[i], ctx);
                proof {
                    if let (StartSet::Definite(a), StartSet::Definite(b)) = (total@, expr_start@) {
                        union_is_not_empty(a, b);
                    }
                }
                total = total.or(expr_start);
                assert(exprs@.take(i + 1).drop_last() =~= exprs@.take(i as int));
                i += 1;
            }
            assert(exprs@.take(i as int) =~= exprs@);
            total
        },
        Expr::Group(child) => fancy_start(child, ctx),
        Expr::AtomicGroup(child) => fancy_start(child, ctx),
        Expr::Repeat { child, lo, .. } => {
            let child_start = fancy_start(child, ctx);
            if *lo == 0 {
                // if we allow 0 reps then it's not definite
                child_start.optional()
            } else {
                child_start
            }
        },
        Expr::LookAround(child, lookaround) => match lookaround {
            LookAround::LookAhead => match fancy_start(child, ctx) {
                Start::Definite(set) => Start::Definite(set),
                _ => Start::nothing(),
            },
            _ => Start::nothing(),
        },
        _ => Start::Bail,
    }
}

/// The bytes of which every match of `expr` starts with one, or `None` when no such set can be
/// established.
pub fn byte_set_from_expr(expr: &Expr, options: &RegexOptions) -> (set: Option<ByteSet>)
    ensures
        match set {
            Some(s) => start_bytes_of(*expr, HirCtx::of(*options)) == Some(s@),
            None => start_bytes_of(*expr, HirCtx::of(*options)) is None,
        },
{
    let ctx = HirCtx::from_options(options);
    match fancy_start(expr, &ctx) {
        Start::Definite(set) => if set.is_empty() {
            None
        } else {
            Some(set)
        },
        _ => None,
    }
}

/// What `regex_syntax_start` says of a syntax tree holds of each of its matches. A match with definite
/// start bytes is not empty.
pub proof fn hir_start_holds_of_matches(hir: HirTree, hay: Seq<u8>, i: int, j: int)
    requires
        semantics::hir_can_match(hir, hay, i, j),
    ensures
        hir_start(hir).allows(hay, i, j),
        hir_start(hir) is Definite ==> i < j,
    decreases hir, 0nat,
{
    match hir {
        HirTree::Literal(bytes) => {
            if bytes.len() > 0 {
                assert(hay.subrange(i, j).len() > 0);
                assert(hay.subrange(i, j)[0] == hay[i]);
            }
        },
        HirTree::Unicode(ranges) => {
            let c = choose|c: char|
                fold::in_char_ranges(ranges, c) && hay.subrange(i, j) == #[trigger] text::char_bytes(c);
            text::first_byte_of_char(c);
            assert(hay.subrange(i, j)[0] == hay[i]);
            let k = choose|k: int| 0 <= k < ranges.len() && (#[trigger] ranges[k]).0 <= c <= ranges[k].1;
            assert(char_range_leads(ranges[k], hay[i]));
            assert(lead_bytes(ranges).contains(hay[i]));
        },
        HirTree::Bytes(ranges) => {
            assert(bytes_of_ranges(ranges).contains(hay[i]));
        },
        HirTree::Capture(sub) => {
            hir_start_holds_of_matches(*sub, hay, i, j);
        },
        HirTree::Repetition(min, sub) => {
            let n = choose|n: nat|
                #[trigger] semantics::is_count(min as int, n, usize::MAX as int)
                    && semantics::hir_repeats(*sub, n, hay, i, j);
            hir_start_holds_of_repeats(*sub, n, hay, i, j);
        },
        HirTree::Concat(subs) => {
            hir_start_holds_of_concats(subs, hay, i, j);
        },
        HirTree::Alternation(subs) => {
            let k = choose|k: int|
                0 <= k < subs.len() && semantics::hir_can_match(#[trigger] subs[k], hay, i, j);
            hir_start_holds_of_matches(subs[k], hay, i, j);
            hir_start_holds_of_alternations(subs, k, hay, i, j);
        },
        _ => {},
    }
}

proof fn hir_start_holds_of_repeats(sub: HirTree, n: nat, hay: Seq<u8>, i: int, j: int)
    requires
        semantics::hir_repeats(sub, n, hay, i, j),
    ensures
        hir_start(sub).optional().allows(hay, i, j),
        n > 0 ==> hir_start(sub).allows(hay, i, j),
        n > 0 && hir_start(sub) is Definite ==> i < j,
    decreases sub, n + 1,
{
    if n > 0 {
        let k = choose|k: int|
            #[trigger] semantics::between(i, k, j) && semantics::hir_can_match(sub, hay, i, k)
                && semantics::hir_repeats(sub, (n - 1) as nat, hay, k, j);
        hir_start_holds_of_matches(sub, hay, i, k);
        hir_start_holds_of_repeats(sub, (n - 1) as nat, hay, k, j);
    }
}

proof fn hir_start_holds_of_concats(subs: Seq<HirTree>, hay: Seq<u8>, i: int, j: int)
    requires
        semantics::hir_concat_can_match(subs, hay, i, j),
    ensures
        hir_concat_start(subs).allows(hay, i, j),
        hir_concat_start(subs) is Definite ==> i < j,
    decreases subs, 0nat,
{
    if subs.len() > 0 {
        let k = choose|k: int|
            #[trigger] semantics::between(i, k, j) && semantics::hir_can_match(subs[0], hay, i, k)
                && semantics::hir_concat_can_match(subs.drop_first(), hay, k, j);
        hir_start_holds_of_matches(subs[0], hay, i, k);
        hir_start_holds_of_concats(subs.drop_first(), hay, k, j);
    }
}

proof fn hir_start_holds_of_alternations(subs: Seq<HirTree>, k: int, hay: Seq<u8>, i: int, j: int)
    requires
        0 <= k < subs.len(),
        hir_start(subs[k]).allows(hay, i, j),
        hir_start(subs[k]) is Definite ==> i < j,
    ensures
        hir_alternation_start(subs).allows(hay, i, j),
        hir_alternation_start(subs) is Definite ==> i < j,
    decreases subs.len(),
{
    if subs.len() > 1 && k < subs.len() - 1 {
        assert(subs.drop_last()[k] == subs[k]);
        hir_start_holds_of_alternations(subs.drop_last(), k, hay, i, j);
    }
}

/// What `fancy_start` says of an expression holds of each of its matches.
pub proof fn start_holds_of_matches(expr: Expr, ctx: HirCtx, hay: Seq<u8>, i: int, j: int)
    requires
        semantics::can_match(expr, ctx, hay, i, j),
    ensures
        expr_start(expr, ctx).allows(hay, i, j),
    decreases expr, 0nat,
{
    match expr {
        Expr::Literal { val, casei } => {
            start_holds_of_literals(val@, casei, hay, i, j);
        },
        Expr::Delegate { .. } => {
            if let Some(hir) = tree::delegate_tree(expr, ctx) {
                hir_start_holds_of_matches(hir, hay, i, j);
            }
        },
        Expr::Group(child) => {
            start_holds_of_matches(*child, ctx, hay, i, j);
        },
        Expr::AtomicGroup(child) => {
            start_holds_of_matches(*child, ctx, hay, i, j);
        },
        Expr::Concat(children) => {
            start_holds_of_concats(children@, ctx, hay, i, j);
        },
        Expr::Alt(branches) => {
            let k = choose|k: int|
                0 <= k < branches@.len() && semantics::can_match(
                    #[trigger] branches@[k],
                    ctx,
                    hay,
                    i,
                    j,
                );
            start_holds_of_matches(branches@[k], ctx, hay, i, j);
            start_holds_of_alternations(branches@, k, ctx, hay, i, j);
        },
        Expr::Repeat { child, lo, hi, .. } => {
            let n = choose|n: nat|
                #[trigger] semantics::is_count(lo as int, n, hi as int) && semantics::repeats(
                    *child,
                    n,
                    ctx,
                    hay,
                    i,
                    j,
                );
            start_holds_of_repeats(*child, n, ctx, hay, i, j);
        },
        Expr::LookAround(child, LookAround::LookAhead) => {
            let k = choose|k: int|
                #[trigger] semantics::between(i, k, hay.len() as int) && semantics::can_match(
                    *child,
                    ctx,
                    hay,
                    i,
                    k,
                );
            start_holds_of_matches(*child, ctx, hay, i, k);
        },
        _ => {},
    }
}

proof fn start_holds_of_literals(val: Seq<char>, casei: bool, hay: Seq<u8>, i: int, j: int)
    requires
        semantics::literal_at(val, casei, hay, i, j),
    ensures
        literal_start(val, casei).allows(hay, i, j),
{
    let piece = hay.subrange(i, j);
    let t = choose|t: Seq<char>|
        #[trigger] semantics::spells(val, casei, t) && vstd::utf8::encode_utf8(t) == piece;
    if val.len() > 0 {
        let c = t[0];
        text::first_byte_of_char(c);
        assert(piece.len() > 0);
        assert(piece[0] == text::char_bytes(c)[0]);
        assert(hay[i] == piece[0]);
        if casei {
            if let Some(ranges) = fold::simple_fold_ranges(val[0]) {
                assert(fold::folds_to(val[0], c));
                fold::chars_of_ranges_members(ranges, c);
                let chars = fold::chars_of_ranges(ranges);
                let k = choose|k: int| 0 <= k < chars.len() && chars[k] == c;
                assert(text::char_bytes(chars[k])[0] == hay[i]);
                assert(first_bytes(chars).contains(hay[i]));
            }
        }
    } else {
        assert(t =~= Seq::<char>::empty());
        assert(piece.len() == 0);
    }
}

proof fn start_holds_of_repeats(expr: Expr, n: nat, ctx: HirCtx, hay: Seq<u8>, i: int, j: int)
    requires
        semantics::repeats(expr, n, ctx, hay, i, j),
    ensures
        expr_start(expr, ctx).optional().allows(hay, i, j),
        n > 0 ==> expr_start(expr, ctx).allows(hay, i, j),
    decreases expr, n + 1,
{
    if n > 0 {
        let k = choose|k: int|
            #[trigger] semantics::between(i, k, j) && semantics::can_match(expr, ctx, hay, i, k)
                && semantics::repeats(expr, (n - 1) as nat, ctx, hay, k, j);
        start_holds_of_matches(expr, ctx, hay, i, k);
        start_holds_of_repeats(expr, (n - 1) as nat, ctx, hay, k, j);
    }
}

proof fn start_holds_of_concats(exprs: Seq<Expr>, ctx: HirCtx, hay: Seq<u8>, i: int, j: int)
    requires
        semantics::concat_can_match(exprs, ctx, hay, i, j),
    ensures
        concat_start(exprs, ctx).allows(hay, i, j),
    decreases exprs, 0nat,
{
    if exprs.len() > 0 {
        let k = choose|k: int|
            #[trigger] semantics::between(i, k, j) && semantics::can_match(exprs[0], ctx, hay, i, k)
                && semantics::concat_can_match(exprs.drop_first(), ctx, hay, k, j);
        start_holds_of_matches(exprs[0], ctx, hay, i, k);
        start_holds_of_concats(exprs.drop_first(), ctx, hay, k, j);
    }
}

proof fn start_holds_of_alternations(
    exprs: Seq<Expr>,
    k: int,
    ctx: HirCtx,
    hay: Seq<u8>,
    i: int,
    j: int,
)
    requires
        0 <= k < exprs.len(),
        expr_start(exprs[k], ctx).allows(hay, i, j),
    ensures
        alt_start(exprs, ctx).allows(hay, i, j),
    decreases exprs.len(),
{
    if exprs.len() > 1 && k < exprs.len() - 1 {
        assert(exprs.drop_last()[k] == exprs[k]);
        start_holds_of_alternations(exprs.drop_last(), k, ctx, hay, i, j);
    }
}

/// Every match starts with a byte of the set that `byte_set_from_expr` gives: there is a byte where
/// it starts, and the set holds it.
pub proof fn matches_start_in_the_set(expr: Expr, ctx: HirCtx, hay: Seq<u8>, i: int, j: int)
    requires
        start_bytes_of(expr, ctx) is Some,
        semantics::can_match(expr, ctx, hay, i, j),
    ensures
        i < hay.len(),
        start_bytes_of(expr, ctx)->0.contains(hay[i]),
{
    start_holds_of_matches(expr, ctx, hay, i, j);
}

} // verus!
