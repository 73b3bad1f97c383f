//! The tree → document lowering: the house style, as code. A walk of the tree
//! emits each construct by its house style — necks and relations spaced,
//! argument lists hugging their parens, aggregate braces spaced inside,
//! operator chains flat, a directive a space past its keyword, the `#script`
//! body exact — while weaving every trivia comment to the anchor and slot the
//! plan gives it, so a re-parse recovers the same non-whitespace sequence. A
//! group per bracketed construct stays flat when it fits and explodes one
//! element per line when it does not.

use vstd::prelude::*;
use vstd::multiset::Multiset;

use crate::doc::{Doc, lemma_texts_seq_append, lemma_texts_seq_push, texts, texts_seq};
use crate::emit::{Floor, Wish, floor_to_doc};
use crate::layout::{as_group, brace_group, bracket_body, bracket_group, group_nest, is_group_of};
use crate::syntax::{SyntaxKind, TokenRole};
use crate::text::chars_of;
use crate::tree::{Element, Node, Plan, Tok, ids};

verus! {

/// The separator the house style places before the next emitted element,
/// weakest to strongest: a comment that owes the next element a separator
/// raises the style's gap to at least what the comment owes.
#[derive(Clone, Copy, PartialEq, Eq, Debug, Structural)]
pub enum Gap {
    /// Nothing — the first element of the output.
    Nothing,
    /// Abut, unless the two texts would fuse: then a space.
    Tight,
    /// A hugging width break: nothing when its group is flat, a newline
    /// when broken.
    Wrap,
    /// A space the style wants.
    Space,
    /// A width break: a space when its group is flat, a newline when
    /// broken.
    Soft,
    /// An unconditional newline.
    Hard,
    /// A single blank line, kept as one.
    Blank,
}

/// A gap's strength.
pub open spec fn strength(g: Gap) -> nat {
    match g {
        Gap::Nothing => 0,
        Gap::Tight => 1,
        Gap::Wrap => 2,
        Gap::Space => 3,
        Gap::Soft => 4,
        Gap::Hard => 5,
        Gap::Blank => 6,
    }
}

fn strength_of(g: Gap) -> (r: u8)
    ensures
        r == strength(g),
{
    match g {
        Gap::Nothing => 0,
        Gap::Tight => 1,
        Gap::Wrap => 2,
        Gap::Space => 3,
        Gap::Soft => 4,
        Gap::Hard => 5,
        Gap::Blank => 6,
    }
}

/// The stronger of two gaps.
pub fn stronger(a: Gap, b: Gap) -> (r: Gap)
    ensures
        r == if strength(a) >= strength(b) {
            a
        } else {
            b
        },
{
    if strength_of(a) >= strength_of(b) {
        a
    } else {
        b
    }
}

/// The two source facts the lowering consults: whether an empty line stands
/// between two elements in the source, and the fusion floor between two
/// texts, the first emitted for the token with the given identity — the
/// least separator that keeps them from lexing as one.
pub struct Oracle<B: Fn(usize, usize) -> bool, F: Fn(usize, &str, &str) -> Floor> {
    blank_between: B,
    floor_between: F,
}

impl<B: Fn(usize, usize) -> bool, F: Fn(usize, &str, &str) -> Floor> Oracle<B, F> {
    /// Both facts can be asked of any arguments.
    #[verifier::type_invariant]
    spec fn ready(self) -> bool {
        &&& forall|a: usize, b: usize| call_requires(self.blank_between, (a, b))
        &&& forall|i: usize, l: &str, r: &str| call_requires(self.floor_between, (i, l, r))
    }

    /// The blank-line fact the oracle asks.
    pub closed spec fn blank_fn(self) -> B {
        self.blank_between
    }

    /// The fusion-floor fact the oracle asks.
    pub closed spec fn floor_fn(self) -> F {
        self.floor_between
    }

    /// The oracle over the two facts.
    pub fn new(blank_between: B, floor_between: F) -> (o: Oracle<B, F>)
        requires
            forall|a: usize, b: usize| call_requires(blank_between, (a, b)),
            forall|i: usize, l: &str, r: &str| call_requires(floor_between, (i, l, r)),
        ensures
            o.blank_fn() == blank_between,
            o.floor_fn() == floor_between,
    {
        Oracle { blank_between, floor_between }
    }

    /// Whether an empty line stands between the elements `prev` and `cur`.
    pub fn blank(&self, prev: usize, cur: usize) -> (r: bool)
        ensures
            call_ensures(self.blank_fn(), (prev, cur), r),
    {
        proof {
            use_type_invariant(self);
        }
        (self.blank_between)(prev, cur)
    }

    /// The fusion floor between `left`, emitted for token `id`, and `right`.
    pub fn floor(&self, id: usize, left: &str, right: &str) -> (r: Floor)
        ensures
            call_ensures(self.floor_fn(), (id, left, right), r),
    {
        proof {
            use_type_invariant(self);
        }
        (self.floor_between)(id, left, right)
    }
}

/// The bracket pair a term frame owns, if any: a theory tuple or function,
/// an argument list and a pool hug parens, an annotation and a theory list
/// brackets, a theory set braces, an absolute value bars.
pub open spec fn bracket_pair(kind: SyntaxKind) -> Option<(SyntaxKind, SyntaxKind)> {
    match kind {
        SyntaxKind::Arguments | SyntaxKind::Pool | SyntaxKind::TheoryTuple
        | SyntaxKind::TheoryFunction => Some((SyntaxKind::LParen, SyntaxKind::RParen)),
        SyntaxKind::Annotation | SyntaxKind::TheoryList => Some(
            (SyntaxKind::LBracket, SyntaxKind::RBracket),
        ),
        SyntaxKind::TheorySet => Some((SyntaxKind::LBrace, SyntaxKind::RBrace)),
        SyntaxKind::AbsTerm => Some((SyntaxKind::Pipe, SyntaxKind::Pipe)),
        _ => None,
    }
}

/// The bracket pair a term frame owns, if any.
pub fn brackets(kind: SyntaxKind) -> (r: Option<(SyntaxKind, SyntaxKind)>)
    ensures
        r == bracket_pair(kind),
{
    match kind {
        SyntaxKind::Arguments | SyntaxKind::Pool | SyntaxKind::TheoryTuple
        | SyntaxKind::TheoryFunction => Some((SyntaxKind::LParen, SyntaxKind::RParen)),
        SyntaxKind::Annotation | SyntaxKind::TheoryList => Some(
            (SyntaxKind::LBracket, SyntaxKind::RBracket),
        ),
        SyntaxKind::TheorySet => Some((SyntaxKind::LBrace, SyntaxKind::RBrace)),
        SyntaxKind::AbsTerm => Some((SyntaxKind::Pipe, SyntaxKind::Pipe)),
        _ => None,
    }
}

/// Whether a frame owns a bracket pair to wrap its interior in.
pub fn is_bracket(kind: SyntaxKind) -> (r: bool)
    ensures
        r == bracket_pair(kind) is Some,
{
    brackets(kind).is_some()
}

/// The frames that separate their elements with `,`/`;` hugging the
/// element they follow — the term lists.
pub open spec fn is_list_kind(kind: SyntaxKind) -> bool {
    kind == SyntaxKind::Tuple || kind == SyntaxKind::Arguments || kind == SyntaxKind::Pool || kind
        == SyntaxKind::AbsTerm || kind == SyntaxKind::Annotation || kind == SyntaxKind::TheorySet
        || kind == SyntaxKind::TheoryList || kind == SyntaxKind::TheoryTuple || kind
        == SyntaxKind::TheoryFunction
}

/// Whether a frame separates its elements with `,`/`;` that hug the element
/// they follow — a term list — rather than spacing every child.
pub fn is_list(kind: SyntaxKind) -> (r: bool)
    ensures
        r == is_list_kind(kind),
{
    matches!(
        kind,
        SyntaxKind::Tuple | SyntaxKind::Arguments | SyntaxKind::Pool | SyntaxKind::AbsTerm
            | SyntaxKind::Annotation | SyntaxKind::TheorySet | SyntaxKind::TheoryList
            | SyntaxKind::TheoryTuple | SyntaxKind::TheoryFunction
    )
}

/// The gap a frame places after an element: a theory operator is always
/// spaced; a term operator only at bracket depth 0; every other join is
/// tight.
pub open spec fn element_gap_of(kind: SyntaxKind, depth: int) -> Gap {
    if kind == SyntaxKind::TheoryOpterm {
        Gap::Space
    } else if kind == SyntaxKind::BinaryTerm && depth == 0 {
        Gap::Space
    } else {
        Gap::Tight
    }
}

/// The gap a frame places after an element, as [`element_gap_of`] states.
pub fn element_gap(kind: SyntaxKind, depth: usize) -> (r: Gap)
    ensures
        r == element_gap_of(kind, depth as int),
{
    match kind {
        SyntaxKind::TheoryOpterm => Gap::Space,
        SyntaxKind::BinaryTerm if depth == 0 => Gap::Space,
        _ => Gap::Tight,
    }
}

/// The gap after a pre-brace child of an aggregate or theory definition: a
/// guard (a node) and a theory definition's name are spaced from what
/// follows; an aggregate keyword hugs its brace.
pub open spec fn pre_brace_gap_of(child: Element) -> Gap {
    match child {
        Element::Node(_) => Gap::Space,
        Element::Token(t) => if t.kind == SyntaxKind::Ident {
            Gap::Space
        } else {
            Gap::Tight
        },
    }
}

/// The gap after a pre-brace child, as [`pre_brace_gap_of`] states.
pub fn pre_brace_gap(child: &Element) -> (r: Gap)
    ensures
        r == pre_brace_gap_of(*child),
{
    match child {
        Element::Node(_) => Gap::Space,
        Element::Token(t) => if t.kind == SyntaxKind::Ident {
            Gap::Space
        } else {
            Gap::Tight
        },
    }
}

/// The text a significant token is emitted as: its canonical spelling, or
/// its verbatim text when spellings are preserved.
pub fn spell(token: &Tok, preserve: bool) -> (r: String)
    ensures
        r@ == if preserve {
            token.text@
        } else {
            token.spelled@
        },
{
    if preserve {
        token.text.clone()
    } else {
        token.spelled.clone()
    }
}

/// Whether `v` holds `x`.
fn holds(v: &Vec<usize>, x: usize) -> (r: bool)
    ensures
        r == v@.contains(x),
{
    let mut k: usize = 0;
    while k < v.len()
        invariant
            k <= v@.len(),
            forall|j: int| 0 <= j < k ==> v@[j] != x,
        decreases v.len() - k,
    {
        if v[k] == x {
            assert(v@[k as int] == x);
            return true;
        }
        k = k + 1;
    }
    false
}

/// Whether `s` ends with a newline.
fn ends_with_newline(s: &str) -> (r: bool)
    ensures
        r == (s@.len() > 0 && s@.last() == '\n'),
{
    let cs = chars_of(s);
    cs.len() > 0 && cs[cs.len() - 1] == '\n'
}

/// A documentation comment as the walk emits it: its text as written,
/// whatever the spelling mode.
pub open spec fn as_written(t: Tok) -> Tok {
    Tok { spelled: t.text, ..t }
}

/// A `#script` body as the walk emits it: its text verbatim, whatever the
/// spelling mode.
pub open spec fn verbatim(t: Tok) -> Tok {
    Tok { text: t.spelled, ..t }
}

/// What one token child adds to the texts the walk
/// emits: a significant token itself; a documentation comment as written;
/// within a `#script` statement, a non-empty body verbatim; nothing for
/// layout, a trivia comment, or an empty body.
pub open spec fn piece(in_script: bool, t: Tok) -> Seq<Tok> {
    if t.kind == SyntaxKind::Whitespace || t.role == TokenRole::Trivia {
        Seq::empty()
    } else if t.role == TokenRole::Documentation {
        seq![as_written(t)]
    } else if in_script && t.kind == SyntaxKind::ScriptBody {
        if t.spelled@.len() > 0 {
            seq![verbatim(t)]
        } else {
            Seq::empty()
        }
    } else {
        seq![t]
    }
}

/// The term families, lowered as one subtree by the term walk.
pub open spec fn is_term_kind(k: SyntaxKind) -> bool {
    ||| k == SyntaxKind::Arguments
    ||| k == SyntaxKind::Annotation
    ||| k == SyntaxKind::BinaryTerm
    ||| k == SyntaxKind::UnaryTerm
    ||| k == SyntaxKind::Pool
    ||| k == SyntaxKind::Tuple
    ||| k == SyntaxKind::FunctionTerm
    ||| k == SyntaxKind::ExternalTerm
    ||| k == SyntaxKind::AbsTerm
    ||| k == SyntaxKind::ConstantTerm
    ||| k == SyntaxKind::VariableTerm
    ||| k == SyntaxKind::SpliceTerm
    ||| k == SyntaxKind::TheorySet
    ||| k == SyntaxKind::TheoryList
    ||| k == SyntaxKind::TheoryTuple
    ||| k == SyntaxKind::TheoryFunction
    ||| k == SyntaxKind::TheoryOpterm
}

/// The significant tokens of a term subtree, in source
/// order.
pub open spec fn term_toks(n: Node) -> Seq<Tok>
    decreases n, 1nat, 0int,
{
    term_seq(n, n.children@.len() as int)
}

/// The significant tokens among the first `k` children
/// of a term node.
pub open spec fn term_seq(n: Node, k: int) -> Seq<Tok>
    decreases n, 0nat, k,
{
    if k <= 0 || k > n.children@.len() {
        Seq::empty()
    } else {
        term_seq(n, k - 1) + match n.children@[k - 1] {
            Element::Token(t) => piece(false, t),
            Element::Node(m) => term_toks(m),
        }
    }
}

/// The tokens of a subtree the walk emits a text for, in source order:
/// each significant token, each documentation comment (as written), and a
/// non-empty `#script` body (verbatim).
pub open spec fn walk_toks(n: Node) -> Seq<Tok>
    decreases n, 1nat, 0int,
{
    if is_term_kind(n.kind) {
        term_toks(n)
    } else {
        walk_seq(n, n.children@.len() as int)
    }
}

/// The tokens the walk emits for the first `k` children of `n`.
pub open spec fn walk_seq(n: Node, k: int) -> Seq<Tok>
    decreases n, 0nat, k,
{
    if k <= 0 || k > n.children@.len() {
        Seq::empty()
    } else {
        walk_seq(n, k - 1) + match n.children@[k - 1] {
            Element::Token(t) => piece(n.kind == SyntaxKind::ScriptStatement, t),
            Element::Node(m) => walk_toks(m),
        }
    }
}

/// The tokens one child of `n` adds to the walk.
pub open spec fn walk_step(n: Node, c: Element) -> Seq<Tok> {
    match c {
        Element::Token(t) => piece(n.kind == SyntaxKind::ScriptStatement, t),
        Element::Node(m) => walk_toks(m),
    }
}

/// The tokens one child of a term node adds to the term walk.
pub open spec fn term_step(c: Element) -> Seq<Tok> {
    match c {
        Element::Token(t) => piece(false, t),
        Element::Node(m) => term_toks(m),
    }
}

/// The tokens the walk emits for one significant child: a token itself,
/// or a node's subtree.
pub open spec fn child_toks(c: Element) -> Seq<Tok> {
    match c {
        Element::Token(t) => seq![t],
        Element::Node(m) => walk_toks(m),
    }
}

/// The tokens the walk emits for the first `k` top-level children.
pub open spec fn program_seq(root: Node, k: int) -> Seq<Tok>
    decreases k,
{
    if k <= 0 || k > root.children@.len() {
        Seq::empty()
    } else {
        program_seq(root, k - 1) + match root.children@[k - 1] {
            Element::Token(_) => Seq::empty(),
            Element::Node(m) => walk_toks(m),
        }
    }
}

/// Every token of a program the walk emits a text for, in source order:
/// the significant tokens, the documentation comments and the non-empty
/// `#script` bodies.
pub open spec fn program_toks(root: Node) -> Seq<Tok> {
    program_seq(root, root.children@.len() as int)
}

/// The tokens of a subtree's document, in the order its document holds
/// their texts: a rule's documentation lines, then its head, then its
/// nested tail; an aggregate's part before its braces, its opening part,
/// its interior, its closing part, then what follows the group; a term's
/// opening part, interior and closing part; any other node's children in
/// source order.
pub open spec fn doc_toks(n: Node) -> Seq<Tok>
    decreases n, 2nat, 0int,
{
    if is_term_kind(n.kind) {
        term_doc(n)
    } else if n.kind == SyntaxKind::Rule || n.kind == SyntaxKind::WeakConstraint {
        let f = rule_fold(n, n.children@.len() as int);
        f.0 + f.1 + f.2
    } else if is_aggregate_kind(n.kind) {
        let f = agg_fold(n, n.children@.len() as int);
        f.0 + f.1 + f.2 + f.3 + f.4
    } else {
        doc_seq(n, n.children@.len() as int)
    }
}

/// The document order of the first `k` children of a node lowered child
/// after child.
pub open spec fn doc_seq(n: Node, k: int) -> Seq<Tok>
    decreases n, 0nat, k,
{
    if k <= 0 || k > n.children@.len() {
        Seq::empty()
    } else {
        doc_seq(n, k - 1) + match n.children@[k - 1] {
            Element::Token(t) => piece(n.kind == SyntaxKind::ScriptStatement, t),
            Element::Node(m) => doc_toks(m),
        }
    }
}

/// What one child adds to the document order of a node lowered child
/// after child.
pub open spec fn doc_step(n: Node, c: Element) -> Seq<Tok> {
    match c {
        Element::Token(t) => piece(n.kind == SyntaxKind::ScriptStatement, t),
        Element::Node(m) => doc_toks(m),
    }
}

/// What a significant child places: a token itself, a node its subtree.
pub open spec fn child_doc(c: Element) -> Seq<Tok> {
    match c {
        Element::Token(t) => seq![t],
        Element::Node(m) => doc_toks(m),
    }
}

/// A term's document order.
pub open spec fn term_doc(n: Node) -> Seq<Tok>
    decreases n, 1nat, 0int,
{
    let f = term_fold(n, n.children@.len() as int);
    f.0 + f.1 + f.2
}

/// The first `k` children of a term placed by its frame: its opening
/// part, its interior, its closing part, and whether its open bracket has
/// been met.
pub open spec fn term_fold(n: Node, k: int) -> (Seq<Tok>, Seq<Tok>, Seq<Tok>, bool)
    decreases n, 0nat, k,
{
    if k <= 0 || k > n.children@.len() {
        (Seq::empty(), Seq::empty(), Seq::empty(), false)
    } else {
        let f = term_fold(n, k - 1);
        match n.children@[k - 1] {
            Element::Token(t) => if t.kind == SyntaxKind::Whitespace || t.role == TokenRole::Trivia {
                f
            } else if t.role == TokenRole::Documentation {
                (f.0, f.1.push(as_written(t)), f.2, f.3)
            } else if to_open(n.kind, f.3) {
                (f.0.push(t), f.1, f.2, f.3 || t.kind == (bracket_pair(n.kind)->0).0)
            } else if to_close(n.kind, f.3, t) {
                (f.0, f.1, f.2.push(t), f.3)
            } else {
                (f.0, f.1.push(t), f.2, f.3)
            },
            Element::Node(m) => (f.0, f.1 + term_doc(m), f.2, f.3),
        }
    }
}

/// The first `k` children of a rule placed: its documentation lines, its
/// head, its tail, and whether its body has been met.
pub open spec fn rule_fold(n: Node, k: int) -> (Seq<Tok>, Seq<Tok>, Seq<Tok>, bool)
    decreases n, 0nat, k,
{
    if k <= 0 || k > n.children@.len() {
        (Seq::empty(), Seq::empty(), Seq::empty(), false)
    } else {
        let f = rule_fold(n, k - 1);
        match n.children@[k - 1] {
            Element::Token(t) => if t.kind == SyntaxKind::Whitespace || t.role == TokenRole::Trivia {
                f
            } else if t.role == TokenRole::Documentation {
                (f.0.push(as_written(t)), f.1, f.2, f.3)
            } else if t.kind == SyntaxKind::Dot && f.3 {
                (f.0, f.1, f.2.push(t), f.3)
            } else {
                (f.0, f.1.push(t), f.2, f.3)
            },
            Element::Node(m) => if m.kind == SyntaxKind::Body {
                (f.0, f.1, f.2 + doc_toks(m), true)
            } else if m.kind == SyntaxKind::Annotation && f.3 {
                (f.0, f.1, f.2 + doc_toks(m), f.3)
            } else {
                (f.0, f.1 + doc_toks(m), f.2, f.3)
            },
        }
    }
}

/// Where an aggregate places a significant child whose tokens are `d`,
/// in the parts `f` (before the braces, opening, interior, closing, after
/// the group) and the flags (inside the braces, past them).
pub open spec fn agg_place(
    f: (Seq<Tok>, Seq<Tok>, Seq<Tok>, Seq<Tok>, Seq<Tok>, bool, bool),
    c: Element,
    d: Seq<Tok>,
) -> (Seq<Tok>, Seq<Tok>, Seq<Tok>, Seq<Tok>, Seq<Tok>, bool, bool) {
    if !f.5 {
        if elem_kind(c) == SyntaxKind::LBrace {
            (f.0, f.1 + d, f.2, f.3, f.4, true, f.6)
        } else {
            (f.0 + d, f.1, f.2, f.3, f.4, f.5, f.6)
        }
    } else if !f.6 {
        if elem_kind(c) == SyntaxKind::RBrace {
            (f.0, f.1, f.2, f.3 + d, f.4, f.5, true)
        } else {
            (f.0, f.1, f.2 + d, f.3, f.4, f.5, f.6)
        }
    } else if c is Node {
        (f.0, f.1, f.2, f.3, f.4 + d, f.5, f.6)
    } else {
        (f.0, f.1, f.2, f.3 + d, f.4, f.5, f.6)
    }
}

/// The first `k` children of an aggregate placed.
pub open spec fn agg_fold(n: Node, k: int) -> (Seq<Tok>, Seq<Tok>, Seq<Tok>, Seq<Tok>, Seq<Tok>, bool, bool)
    decreases n, 0nat, k,
{
    if k <= 0 || k > n.children@.len() {
        (Seq::empty(), Seq::empty(), Seq::empty(), Seq::empty(), Seq::empty(), false, false)
    } else {
        let f = agg_fold(n, k - 1);
        let c = n.children@[k - 1];
        match c {
            Element::Token(t) => if t.kind == SyntaxKind::Whitespace || t.role == TokenRole::Trivia {
                f
            } else if t.role == TokenRole::Documentation {
                (f.0.push(as_written(t)), f.1, f.2, f.3, f.4, f.5, f.6)
            } else {
                agg_place(f, c, seq![t])
            },
            Element::Node(m) => agg_place(f, c, doc_toks(m)),
        }
    }
}

/// The document order of the first `k` top-level children of a program.
pub open spec fn program_doc(root: Node, k: int) -> Seq<Tok>
    decreases k,
{
    if k <= 0 || k > root.children@.len() {
        Seq::empty()
    } else {
        program_doc(root, k - 1) + match root.children@[k - 1] {
            Element::Token(_) => Seq::empty(),
            Element::Node(m) => doc_toks(m),
        }
    }
}

/// The text the walk emits for a significant token: its verbatim text when
/// spellings are preserved, else its canonical spelling.
pub open spec fn spelled_as(t: Tok, preserve: bool) -> Seq<char> {
    if preserve {
        t.text@
    } else {
        t.spelled@
    }
}

/// The texts a run of tokens is emitted as, in order.
pub open spec fn spellings(ts: Seq<Tok>, preserve: bool) -> Seq<Seq<char>>
    decreases ts.len(),
{
    if ts.len() == 0 {
        Seq::empty()
    } else {
        spellings(ts.drop_last(), preserve).push(spelled_as(ts.last(), preserve))
    }
}

proof fn lemma_spellings_append(a: Seq<Tok>, b: Seq<Tok>, preserve: bool)
    ensures
        spellings(a + b, preserve) == spellings(a, preserve) + spellings(b, preserve),
    decreases b.len(),
{
    if b.len() == 0 {
        assert(a + b =~= a);
        assert(spellings(a, preserve) + spellings(b, preserve) =~= spellings(a, preserve));
    } else {
        lemma_spellings_append(a, b.drop_last(), preserve);
        assert((a + b).drop_last() =~= a + b.drop_last());
        assert((a + b).last() == b.last());
        assert(spellings(a + b, preserve) =~= spellings(a, preserve) + spellings(b, preserve));
    }
}

proof fn lemma_spellings_one(t: Tok, preserve: bool)
    ensures
        spellings(seq![t], preserve) == seq![spelled_as(t, preserve)],
{
    let one = seq![t];
    assert(one.drop_last() =~= Seq::<Tok>::empty());
    assert(spellings(Seq::<Tok>::empty(), preserve) == Seq::<Seq<char>>::empty());
    assert(one.last() == t);
    assert(spellings(one, preserve) =~= seq![spelled_as(t, preserve)]);
}

/// `f` places each text of `x` on an equal text of `y`, keeping their order.
pub open spec fn places(f: spec_fn(int) -> int, x: Seq<Seq<char>>, y: Seq<Seq<char>>) -> bool {
    &&& forall|i: int| 0 <= i < x.len() ==> 0 <= #[trigger] f(i) < y.len() && y[f(i)] == x[i]
    &&& forall|i: int, j: int| 0 <= i < j < x.len() ==> #[trigger] f(i) < #[trigger] f(j)
}

/// The texts `x` occur in `y` in the same order, other texts possibly
/// between them.
pub open spec fn embeds(x: Seq<Seq<char>>, y: Seq<Seq<char>>) -> bool {
    exists|f: spec_fn(int) -> int| #[trigger] places(f, x, y)
}

proof fn lemma_embeds_refl(x: Seq<Seq<char>>)
    ensures
        embeds(x, x),
{
    let f = |i: int| i;
    assert(places(f, x, x));
}

proof fn lemma_embeds_trans(x: Seq<Seq<char>>, y: Seq<Seq<char>>, z: Seq<Seq<char>>)
    requires
        embeds(x, y),
        embeds(y, z),
    ensures
        embeds(x, z),
{
    let f = choose|f: spec_fn(int) -> int| places(f, x, y);
    let g = choose|g: spec_fn(int) -> int| places(g, y, z);
    let h = |i: int| g(f(i));
    assert forall|i: int| 0 <= i < x.len() implies 0 <= #[trigger] h(i) < z.len() && z[h(i)] == x[i] by {
        assert(0 <= f(i) < y.len());
        assert(0 <= g(f(i)) < z.len());
    }
    assert forall|i: int, j: int| 0 <= i < j < x.len() implies #[trigger] h(i) < #[trigger] h(j) by {
        assert(f(i) < f(j));
        assert(0 <= f(i) < y.len() && 0 <= f(j) < y.len());
        assert(g(f(i)) < g(f(j)));
    }
    assert(places(h, x, z));
}

proof fn lemma_embeds_concat(
    x1: Seq<Seq<char>>,
    y1: Seq<Seq<char>>,
    x2: Seq<Seq<char>>,
    y2: Seq<Seq<char>>,
)
    requires
        embeds(x1, y1),
        embeds(x2, y2),
    ensures
        embeds(x1 + x2, y1 + y2),
{
    let f = choose|f: spec_fn(int) -> int| places(f, x1, y1);
    let g = choose|g: spec_fn(int) -> int| places(g, x2, y2);
    let n = x1.len() as int;
    let m = y1.len() as int;
    let h = |i: int| if i < n {
        f(i)
    } else {
        m + g(i - n)
    };
    let x = x1 + x2;
    let y = y1 + y2;
    assert forall|i: int| 0 <= i < x.len() implies 0 <= #[trigger] h(i) < y.len() && y[h(i)] == x[i] by {
        if i < n {
            assert(0 <= f(i) < y1.len());
        } else {
            assert(0 <= g(i - n) < y2.len());
        }
    }
    assert forall|i: int, j: int| 0 <= i < j < x.len() implies #[trigger] h(i) < #[trigger] h(j) by {
        if j < n {
            assert(f(i) < f(j));
        } else if i < n {
            assert(0 <= f(i) < y1.len());
            assert(0 <= g(j - n));
        } else {
            assert(g(i - n) < g(j - n));
        }
    }
    assert(places(h, x, y));
}

proof fn lemma_embeds_empty(y: Seq<Seq<char>>)
    ensures
        embeds(Seq::empty(), y),
{
    let f = |i: int| 0int;
    assert(places(f, Seq::empty(), y));
}

/// Texts in order stay in order among more texts on either side.
proof fn lemma_embeds_within(x: Seq<Seq<char>>, y: Seq<Seq<char>>, a: Seq<Seq<char>>, c: Seq<Seq<char>>)
    requires
        embeds(x, y),
    ensures
        embeds(x, a + y + c),
{
    lemma_embeds_empty(a);
    lemma_embeds_empty(c);
    lemma_embeds_concat(Seq::empty(), a, x, y);
    assert(Seq::<Seq<char>>::empty() + x =~= x);
    lemma_embeds_concat(x, a + y, Seq::empty(), c);
    assert(x + Seq::<Seq<char>>::empty() =~= x);
}

/// Texts held in order occur as often in what holds them.
proof fn lemma_embeds_counts(x: Seq<Seq<char>>, y: Seq<Seq<char>>)
    requires
        embeds(x, y),
    ensures
        x.to_multiset().subset_of(y.to_multiset()),
    decreases x.len(),
{
    broadcast use vstd::multiset::group_multiset_axioms;
    broadcast use vstd::seq_lib::group_to_multiset_ensures;

    if x.len() > 0 {
        let f = choose|f: spec_fn(int) -> int| places(f, x, y);
        let n = x.len() - 1;
        let p = f(n);
        assert(0 <= p < y.len() && y[p] == x[n]);
        let x0 = x.drop_last();
        let y0 = y.take(p);
        assert(places(f, x0, y0)) by {
            assert forall|i: int| 0 <= i < x0.len() implies 0 <= #[trigger] f(i) < y0.len() && y0[f(i)] == x0[i] by {
                assert(f(i) < f(n));
            }
        }
        lemma_embeds_counts(x0, y0);
        assert(x =~= x0.push(x[n]));
        assert(y =~= y0 + seq![y[p]] + y.skip(p + 1));
        vstd::seq_lib::lemma_multiset_commutative(y0 + seq![y[p]], y.skip(p + 1));
        vstd::seq_lib::lemma_multiset_commutative(y0, seq![y[p]]);
        assert forall|v: Seq<char>| #[trigger] x.to_multiset().count(v) <= y.to_multiset().count(v) by {
            assert(x0.push(x[n]).to_multiset() =~= x0.to_multiset().insert(x[n]));
            assert(seq![y[p]].to_multiset() =~= Multiset::singleton(y[p]));
        }
    }
}

/// `after`'s texts hold `before`'s, then the texts `m`, in that order,
/// other texts possibly between them.
pub open spec fn grows(before: Seq<Doc>, after: Seq<Doc>, m: Seq<Seq<char>>) -> bool {
    embeds(texts_seq(before) + m, texts_seq(after))
}

proof fn lemma_grows_trans(
    a: Seq<Doc>,
    b: Seq<Doc>,
    c: Seq<Doc>,
    m1: Seq<Seq<char>>,
    m2: Seq<Seq<char>>,
)
    requires
        grows(a, b, m1),
        grows(b, c, m2),
    ensures
        grows(a, c, m1 + m2),
        m1 =~= Seq::empty() ==> grows(a, c, m2),
        m2 =~= Seq::empty() ==> grows(a, c, m1),
{
    lemma_embeds_refl(m2);
    lemma_embeds_concat(texts_seq(a) + m1, texts_seq(b), m2, m2);
    lemma_embeds_trans(texts_seq(a) + m1 + m2, texts_seq(b) + m2, texts_seq(c));
    assert(texts_seq(a) + m1 + m2 =~= texts_seq(a) + (m1 + m2));
    if m1 =~= Seq::empty() {
        assert(m1 + m2 =~= m2);
    }
    if m2 =~= Seq::empty() {
        assert(m1 + m2 =~= m1);
    }
}

proof fn lemma_grows_refl(a: Seq<Doc>)
    ensures
        grows(a, a, Seq::empty()),
{
    assert(texts_seq(a) + Seq::<Seq<char>>::empty() =~= texts_seq(a));
    lemma_embeds_refl(texts_seq(a));
}

proof fn lemma_grows_push(a: Seq<Doc>, d: Doc)
    ensures
        grows(a, a.push(d), texts(d)),
        grows(a, a.push(d), Seq::empty()),
{
    lemma_texts_seq_push(a, d);
    lemma_embeds_refl(texts_seq(a.push(d)));
    lemma_embeds_refl(texts_seq(a));
    lemma_embeds_empty(texts(d));
    lemma_embeds_concat(texts_seq(a), texts_seq(a), Seq::empty(), texts(d));
    assert(texts_seq(a) + Seq::<Seq<char>>::empty() =~= texts_seq(a));
}

proof fn lemma_grows_weaken(a: Seq<Doc>, b: Seq<Doc>, m: Seq<Seq<char>>, w: Seq<Seq<char>>)
    requires
        grows(a, b, m),
        embeds(w, m),
    ensures
        grows(a, b, w),
{
    lemma_embeds_refl(texts_seq(a));
    lemma_embeds_concat(texts_seq(a), texts_seq(a), w, m);
    lemma_embeds_trans(texts_seq(a) + w, texts_seq(a) + m, texts_seq(b));
}

/// One step of a walk: what the texts held before the step, with what the
/// step added, the texts hold after it.
proof fn lemma_step(
    o_start: Seq<Doc>,
    o_mid: Seq<Doc>,
    o_end: Seq<Doc>,
    prev: Seq<Tok>,
    step: Seq<Tok>,
    preserve: bool,
)
    requires
        grows(o_start, o_mid, spellings(prev, preserve)),
        grows(o_mid, o_end, spellings(step, preserve)),
    ensures
        grows(o_start, o_end, spellings(prev + step, preserve)),
{
    lemma_spellings_append(prev, step, preserve);
    lemma_grows_trans(o_start, o_mid, o_end, spellings(prev, preserve), spellings(step, preserve));
}

proof fn lemma_spellings_empty(preserve: bool)
    ensures
        spellings(Seq::<Tok>::empty(), preserve) == Seq::<Seq<char>>::empty(),
{
}

proof fn lemma_grows_base(x: Seq<Doc>, m: Seq<Seq<char>>)
    requires
        grows(Seq::empty(), x, m),
    ensures
        embeds(m, texts_seq(x)),
{
    assert(texts_seq(Seq::<Doc>::empty()) == Seq::<Seq<char>>::empty());
    assert(texts_seq(Seq::<Doc>::empty()) + m =~= m);
}

/// A run grown from nothing by `m`, put after texts that hold `x` in
/// order, holds `x` then `m` in order.
proof fn lemma_grows_then(x: Seq<Seq<char>>, y: Seq<Seq<char>>, p: Seq<Doc>, m: Seq<Seq<char>>)
    requires
        embeds(x, y),
        grows(Seq::empty(), p, m),
    ensures
        embeds(x + m, y + texts_seq(p)),
{
    lemma_grows_base(p, m);
    lemma_embeds_concat(x, y, m, texts_seq(p));
}

/// Appending one document that holds the texts of a run to another run.
fn push_doc(out: &mut Vec<Doc>, d: Doc)
    ensures
        final(out)@ == old(out)@.push(d),
        texts_seq(final(out)@) == texts_seq(old(out)@) + texts(d),
        grows(old(out)@, final(out)@, texts(d)),
        grows(old(out)@, final(out)@, Seq::empty()),
{
    proof {
        lemma_grows_push(out@, d);
        lemma_texts_seq_push(out@, d);
    }
    out.push(d);
}

/// The separator the term walk asks before a significant token of a frame
/// of `kind` whose running gap is `gap`: a close bracket, and a `,`/`;` of
/// a term list, hug what precedes them; any other token takes the running
/// gap.
pub open spec fn term_asked(kind: SyntaxKind, opened: bool, gap: Gap, t: Tok) -> Gap {
    if to_open(kind, opened) {
        gap
    } else if to_close(kind, opened, t) {
        Gap::Tight
    } else if is_list_kind(kind) && (t.kind == SyntaxKind::Comma || t.kind == SyntaxKind::Semicolon) {
        Gap::Tight
    } else {
        gap
    }
}

/// The frame's running gap after a significant token, at bracket depth
/// `depth`: nothing between an open bracket and what follows it, a close
/// bracket keeps it, a list's `,`/`;` breaks as a line at depth 1 or less
/// and as a soft line deeper, and after an element the gap the element
/// table gives.
pub open spec fn term_next_gap(kind: SyntaxKind, opened: bool, gap: Gap, t: Tok, depth: int) -> Gap {
    if to_open(kind, opened) {
        Gap::Tight
    } else if to_close(kind, opened, t) {
        gap
    } else if is_list_kind(kind) && (t.kind == SyntaxKind::Comma || t.kind == SyntaxKind::Semicolon) {
        if depth <= 1 {
            Gap::Soft
        } else {
            Gap::Wrap
        }
    } else {
        element_gap_of(kind, depth)
    }
}

/// The bracket depth after a significant token of a frame: one deeper
/// after its open bracket, one shallower at its close bracket.
pub open spec fn term_depth(kind: SyntaxKind, opened: bool, t: Tok, depth: usize) -> usize {
    if to_open(kind, opened) && t.kind == (bracket_pair(kind)->0).0 {
        if depth < usize::MAX {
            (depth + 1) as usize
        } else {
            depth
        }
    } else if to_close(kind, opened, t) {
        if depth > 0 {
            (depth - 1) as usize
        } else {
            0
        }
    } else {
        depth
    }
}

/// The term walk over the first `k` children of `n`, entered with the gap
/// `gap` at bracket depth `depth`: the separators it asks, in walk order,
/// then the frame's running gap, the bracket depth, and whether the frame's
/// open bracket has been met, after them. A documentation line takes the
/// running gap; a significant token what [`term_asked`] gives, leaving the
/// gap [`term_next_gap`] gives; a nested term is walked under the running
/// gap and leaves the element gap.
pub open spec fn term_run(n: Node, k: int, gap: Gap, depth: usize) -> (Seq<Gap>, Gap, usize, bool)
    decreases n, k,
{
    if k <= 0 || k > n.children@.len() {
        (Seq::empty(), gap, depth, false)
    } else {
        let r = term_run(n, k - 1, gap, depth);
        match n.children@[k - 1] {
            Element::Token(t) => if t.kind == SyntaxKind::Whitespace || t.role == TokenRole::Trivia {
                r
            } else if t.role == TokenRole::Documentation {
                (r.0.push(r.1), element_gap_of(n.kind, r.2 as int), r.2, r.3)
            } else {
                let d = term_depth(n.kind, r.3, t, r.2);
                (
                    r.0.push(term_asked(n.kind, r.3, r.1, t)),
                    term_next_gap(n.kind, r.3, r.1, t, d as int),
                    d,
                    r.3 || (to_open(n.kind, r.3) && t.kind == (bracket_pair(n.kind)->0).0),
                )
            },
            Element::Node(m) => {
                let w = term_run(m, m.children@.len() as int, r.1, r.2);
                (r.0 + w.0, element_gap_of(n.kind, w.2 as int), w.2, r.3)
            },
        }
    }
}

/// One frame of the term walk: one open bracket context or one flat term
/// node, accumulating its lowered children.
struct Frame {
    kind: SyntaxKind,
    id: usize,
    /// The separator before the next significant child.
    gap: Gap,
    /// The open bracket token, with its separator — a bracket frame only.
    open: Vec<Doc>,
    /// The elements and their separators.
    interior: Vec<Doc>,
    /// The close bracket token — a bracket frame only.
    close: Vec<Doc>,
    /// Whether the open bracket has been seen (the abs bars share a kind).
    opened: bool,
}

/// The frame's documents, in the order its document holds them.
spec fn frame_docs(f: Frame) -> Seq<Doc> {
    f.open@ + f.interior@ + f.close@
}

/// Only a bracket frame fills its bracket slots.
spec fn frame_ok(f: Frame) -> bool {
    bracket_pair(f.kind) is None ==> f.open@.len() == 0 && f.close@.len() == 0
}

/// A significant token goes to the frame's opening part: a bracket frame
/// not yet opened files everything up to and including its open bracket
/// there.
pub open spec fn to_open(kind: SyntaxKind, opened: bool) -> bool {
    bracket_pair(kind) is Some && !opened
}

/// A significant token goes to the frame's closing part: the close bracket
/// of an opened bracket frame.
pub open spec fn to_close(kind: SyntaxKind, opened: bool, token: Tok) -> bool {
    bracket_pair(kind) matches Some(p) && opened && token.kind == p.1
}

/// The frame's document: a bracket frame groups its interior between its
/// brackets; a flat frame concatenates its children.
fn finish(frame: Frame) -> (d: Doc)
    requires
        frame_ok(frame),
    ensures
        texts(d) == texts_seq(frame_docs(frame)),
{
    let ghost all = frame_docs(frame);
    let ghost o = frame.open@;
    let ghost n = frame.interior@;
    let ghost c = frame.close@;
    proof {
        lemma_texts_seq_append(o, n);
        lemma_texts_seq_append(o + n, c);
    }
    if is_bracket(frame.kind) {
        bracket_group(frame.open, frame.interior, frame.close)
    } else {
        proof {
            assert(all =~= n);
        }
        Doc::Concat(frame.interior)
    }
}

/// The walk's state: the spelling mode, the comment plan, the last
/// significant token emitted and its text (the fusion floor's left side),
/// the last element emitted of any kind (the reference for a source-derived
/// break), the separator a just-emitted comment owes what follows, the
/// bracket depth that decides separator and operator spacing, and the
/// comments already emitted where the walk met them.
struct Lowering<B: Fn(usize, usize) -> bool, F: Fn(usize, &str, &str) -> Floor> {
    preserve: bool,
    plan: Plan,
    oracle: Oracle<B, F>,
    last: Option<(usize, String)>,
    prev_element: Option<usize>,
    pending: Option<Gap>,
    bracket_depth: usize,
    woven: Vec<usize>,
    /// The tokens emitted so far, in order: significant tokens, documentation
    /// comments as written, `#script` bodies verbatim.
    log: Ghost<Seq<Tok>>,
    /// The separator asked before each text of the log, in the same order.
    gaps: Ghost<Seq<Gap>>,
}

/// The separator a gap stands for: the gap the style asks, raised to the
/// separator a just-emitted comment owes.
spec fn owed_gap(pending: Option<Gap>, gap: Gap) -> Gap {
    match pending {
        Some(owed) => if strength(gap) >= strength(owed) {
            gap
        } else {
            owed
        },
        None => gap,
    }
}

/// `d` is the separator a fusion floor gives under a wish: nothing where the
/// floor permits abutment and the style wants it, else a single space.
spec fn floor_sep(d: Doc, floor: Floor, wish: Wish) -> bool {
    if floor == Floor::Nothing && wish == Wish::Abut {
        d matches Doc::Concat(v) && v@.len() == 0
    } else {
        d matches Doc::Text(t) && t@ == seq![' ']
    }
}

/// `g` is the break before `cur` measured from `prev`: nothing before the
/// first element, a blank line where the oracle finds an empty line between
/// them, else a plain line.
spec fn gap_for<B: Fn(usize, usize) -> bool, F: Fn(usize, &str, &str) -> Floor>(
    oracle: Oracle<B, F>,
    prev: Option<usize>,
    cur: usize,
    g: Gap,
) -> bool {
    match prev {
        None => g == Gap::Nothing,
        Some(p) => (g == Gap::Blank && call_ensures(oracle.blank_fn(), (p, cur), true)) || (g
            == Gap::Hard && call_ensures(oracle.blank_fn(), (p, cur), false)),
    }
}

/// `o1` is `o0` with the separator that the walk in state `s` places for
/// `gap` before the text `next`: none for no gap; for an abutting or spaced
/// gap, the fusion floor's separator against the last significant text, if
/// there is one; else the break the gap names.
spec fn separated<B: Fn(usize, usize) -> bool, F: Fn(usize, &str, &str) -> Floor>(
    s: Lowering<B, F>,
    o0: Seq<Doc>,
    o1: Seq<Doc>,
    gap: Gap,
    next: Seq<char>,
) -> bool {
    let g = owed_gap(s.pending, gap);
    match g {
        Gap::Nothing => o1 == o0,
        Gap::Tight | Gap::Space => match s.last {
            None => o1 == o0,
            Some(last) => exists|l: &str, r: &str, f: Floor|
                #[trigger] call_ensures(s.oracle.floor_fn(), (last.0, l, r), f) && l@ == last.1@
                    && r@ == next && o1.len() == o0.len() + 1 && o1.drop_last() == o0 && floor_sep(
                    o1.last(),
                    f,
                    if g == Gap::Space {
                        Wish::Space
                    } else {
                        Wish::Abut
                    },
                ),
        },
        Gap::Wrap => o1 == o0.push(Doc::SoftLine),
        Gap::Soft => o1 == o0.push(Doc::Line),
        Gap::Hard => o1 == o0.push(Doc::HardLine),
        Gap::Blank => o1 == o0.push(Doc::BlankLine),
    }
}

/// `s1` is `s0` with the owed separator paid: nothing else changes.
spec fn paid<B: Fn(usize, usize) -> bool, F: Fn(usize, &str, &str) -> Floor>(
    s0: Lowering<B, F>,
    s1: Lowering<B, F>,
) -> bool {
    &&& s1.preserve == s0.preserve
    &&& s1.plan == s0.plan
    &&& s1.oracle == s0.oracle
    &&& s1.last == s0.last
    &&& s1.prev_element == s0.prev_element
    &&& s1.pending is None
    &&& s1.bracket_depth == s0.bracket_depth
    &&& s1.woven == s0.woven
    &&& s1.log == s0.log
    &&& s1.gaps == s0.gaps
}

/// The separators asked before the texts already logged stay as they were,
/// and one more is asked for each text the walk logs.
spec fn kept<B: Fn(usize, usize) -> bool, F: Fn(usize, &str, &str) -> Floor>(
    s0: Lowering<B, F>,
    s1: Lowering<B, F>,
) -> bool {
    &&& s0.gaps@.len() <= s1.gaps@.len()
    &&& s1.gaps@.len() - s0.gaps@.len() == s1.log@.len() - s0.log@.len()
    &&& forall|i: int| 0 <= i < s0.gaps@.len() ==> #[trigger] s1.gaps@[i] == s0.gaps@[i]
}

/// `s1` is `s0` once the element `id` is emitted verbatim and owes what
/// follows `owed`: nothing else changes but the comments woven.
spec fn marked<B: Fn(usize, usize) -> bool, F: Fn(usize, &str, &str) -> Floor>(
    s0: Lowering<B, F>,
    s1: Lowering<B, F>,
    id: usize,
    owed: Gap,
) -> bool {
    &&& s1.preserve == s0.preserve
    &&& s1.plan == s0.plan
    &&& s1.oracle == s0.oracle
    &&& s1.last == s0.last
    &&& s1.prev_element == Some(id)
    &&& s1.pending == Some(owed)
    &&& s1.bracket_depth == s0.bracket_depth
}

/// What a comment owes what follows: a line comment a break, a block
/// comment a space.
spec fn comment_owes(token: Tok) -> Gap {
    if token.kind == SyntaxKind::BlockComment {
        Gap::Space
    } else {
        Gap::Hard
    }
}

/// `o1` is `o0` with the comment `token` emitted by the walk in state `s`
/// under `gap`: its separator, then its content.
spec fn commented<B: Fn(usize, usize) -> bool, F: Fn(usize, &str, &str) -> Floor>(
    s: Lowering<B, F>,
    o0: Seq<Doc>,
    o1: Seq<Doc>,
    token: Tok,
    gap: Gap,
) -> bool {
    &&& o1.len() > 0
    &&& separated(s, o0, o1.drop_last(), gap, token.spelled@)
    &&& o1.last() == Doc::Text(token.spelled)
}

/// The walk goes from `(s0, o0)` to `(s1, o1)` by emitting the comment
/// `token` on the break measured from the element last emitted.
spec fn woven_at<B: Fn(usize, usize) -> bool, F: Fn(usize, &str, &str) -> Floor>(
    s0: Lowering<B, F>,
    s1: Lowering<B, F>,
    o0: Seq<Doc>,
    o1: Seq<Doc>,
    token: Tok,
) -> bool {
    &&& exists|g: Gap|
        #[trigger] gap_for(s0.oracle, s0.prev_element, token.id, g) && commented(s0, o0, o1, token, g)
    &&& marked(s0, s1, token.id, comment_owes(token))
}

/// The comment `id` dangles in `parent` under `plan`.
spec fn dangles_in(plan: Plan, parent: usize, id: usize) -> bool {
    parent < plan.dangling@.len() && plan.dangling@[parent as int]@.contains(id)
}

/// The comments of the plan's run for `anchor` in `runs`, or none.
spec fn run_of(runs: Seq<Vec<Tok>>, anchor: usize) -> Seq<Tok> {
    if anchor < runs.len() {
        runs[anchor as int]@
    } else {
        Seq::empty()
    }
}

/// From `(s, o)`, weaving the leading run `run` from its `k`-th comment on
/// — `fresh` while none has been emitted — can end in `(s2, o2)`: a comment
/// already woven is skipped; the first emitted keeps the break measured from
/// the element last emitted, each later one goes on its own line.
spec fn led<B: Fn(usize, usize) -> bool, F: Fn(usize, &str, &str) -> Floor>(
    s: Lowering<B, F>,
    o: Seq<Doc>,
    run: Seq<Tok>,
    k: int,
    fresh: bool,
    s2: Lowering<B, F>,
    o2: Seq<Doc>,
) -> bool
    decreases run.len() - k,
{
    if k < 0 || k >= run.len() {
        s2 == s && o2 == o
    } else if s.woven@.contains(run[k].id) {
        led(s, o, run, k + 1, fresh, s2, o2)
    } else {
        exists|g: Gap, s1: Lowering<B, F>, o1: Seq<Doc>|
            #![trigger commented(s, o, o1, run[k], g), marked(s, s1, run[k].id, comment_owes(run[k]))]
            (if fresh {
                gap_for(s.oracle, s.prev_element, run[k].id, g)
            } else {
                g == Gap::Hard
            }) && commented(s, o, o1, run[k], g) && marked(s, s1, run[k].id, comment_owes(run[k]))
                && s1.woven == s.woven && led(s1, o1, run, k + 1, false, s2, o2)
    }
}

/// From `(s, o)`, weaving the trailing run `run` from its `k`-th comment on
/// can end in `(s2, o2)`: each comment emitted a space after what precedes
/// it.
spec fn trailed<B: Fn(usize, usize) -> bool, F: Fn(usize, &str, &str) -> Floor>(
    s: Lowering<B, F>,
    o: Seq<Doc>,
    run: Seq<Tok>,
    k: int,
    s2: Lowering<B, F>,
    o2: Seq<Doc>,
) -> bool
    decreases run.len() - k,
{
    if k < 0 || k >= run.len() {
        s2 == s && o2 == o
    } else {
        exists|s1: Lowering<B, F>, o1: Seq<Doc>|
            #![trigger commented(s, o, o1, run[k], Gap::Space), marked(s, s1, run[k].id, comment_owes(run[k]))]
            commented(s, o, o1, run[k], Gap::Space) && marked(s, s1, run[k].id, comment_owes(run[k]))
                && s1.woven == s.woven && trailed(s1, o1, run, k + 1, s2, o2)
    }
}

/// A child the walk emits something for: a node, a documentation line or a
/// significant token — anything but layout and a trivia comment.
pub open spec fn counts(c: Element) -> bool {
    match c {
        Element::Token(t) => t.kind != SyntaxKind::Whitespace && t.role != TokenRole::Trivia,
        Element::Node(_) => true,
    }
}

/// Some child of `n` before the `j`-th counts.
pub open spec fn counted_before(n: Node, j: int) -> bool {
    exists|k: int| 0 <= k < j && counts(#[trigger] n.children@[k])
}

/// The separator a rule asks before its own token child `t`, the `j`-th: a
/// documentation line goes on a line of its own (the first under the gap
/// the rule was given); the dot after the body hugs it; the first element
/// takes the rule's gap; the neck is spaced; any other token hugs what
/// precedes it.
pub open spec fn rule_token_gap(n: Node, j: int, t: Tok, first_gap: Gap) -> Gap {
    if t.role == TokenRole::Documentation {
        if counted_before(n, j) {
            Gap::Hard
        } else {
            first_gap
        }
    } else if t.kind == SyntaxKind::Dot && has_body_upto(n, j) {
        Gap::Tight
    } else if !counted_before(n, j) {
        first_gap
    } else if t.kind == SyntaxKind::Neck || t.kind == SyntaxKind::WeakNeck {
        Gap::Space
    } else {
        Gap::Tight
    }
}

/// In `gaps`, from `base` on, the `j`-th child of the rule `n`, if a token
/// the walk emits, was asked the separator the rule's table gives; its
/// entry follows those of the children before it.
pub open spec fn rule_gap_at(n: Node, first_gap: Gap, base: int, gaps: Seq<Gap>, j: int) -> bool {
    match n.children@[j] {
        Element::Token(t) => counts(n.children@[j]) ==> base + walk_seq(n, j).len() < gaps.len()
            && gaps[base + walk_seq(n, j).len()] == rule_token_gap(n, j, t, first_gap),
        Element::Node(_) => true,
    }
}

/// The rule's table holds for its first `k` children.
pub open spec fn rule_gaps_upto(n: Node, first_gap: Gap, base: int, gaps: Seq<Gap>, k: int) -> bool {
    forall|j: int| 0 <= j < k ==> #[trigger] rule_gap_at(n, first_gap, base, gaps, j)
}

/// The gap the aggregate walk holds for its next child after the first `k`
/// children of `n`, starting from `first_gap`: nothing after a
/// documentation line or the opening brace; after another child before the
/// braces, the pre-brace gap; inside the braces a line after a `;` and
/// nothing after an element; the closing brace and what follows keep it.
pub open spec fn agg_gap(n: Node, k: int, first_gap: Gap) -> Gap
    decreases k,
{
    if k <= 0 || k > n.children@.len() {
        first_gap
    } else {
        let g = agg_gap(n, k - 1, first_gap);
        let f = agg_fold(n, k - 1);
        let c = n.children@[k - 1];
        if !counts(c) {
            g
        } else if c matches Element::Token(t) && t.role == TokenRole::Documentation {
            Gap::Tight
        } else if !f.5 {
            if elem_kind(c) == SyntaxKind::LBrace {
                Gap::Tight
            } else {
                pre_brace_gap_of(c)
            }
        } else if !f.6 {
            if elem_kind(c) == SyntaxKind::RBrace {
                g
            } else if elem_kind(c) == SyntaxKind::Semicolon {
                Gap::Soft
            } else {
                Gap::Tight
            }
        } else {
            g
        }
    }
}

/// The separator an aggregate asks before its own token child `t`, the
/// `j`-th: the held gap, except that the closing brace and a `;` hug what
/// precedes them, and so does a token after the braces (the dot).
pub open spec fn agg_token_gap(n: Node, j: int, t: Tok, first_gap: Gap) -> Gap {
    let f = agg_fold(n, j);
    let g = agg_gap(n, j, first_gap);
    if t.role == TokenRole::Documentation || !f.5 {
        g
    } else if !f.6 {
        if t.kind == SyntaxKind::RBrace || t.kind == SyntaxKind::Semicolon {
            Gap::Tight
        } else {
            g
        }
    } else {
        Gap::Tight
    }
}

/// In `gaps`, from `base` on, the `j`-th child of the aggregate `n`, if a
/// token the walk emits, was asked the separator the aggregate's table
/// gives; its entry follows those of the children before it.
pub open spec fn agg_gap_at(n: Node, first_gap: Gap, base: int, gaps: Seq<Gap>, j: int) -> bool {
    match n.children@[j] {
        Element::Token(t) => counts(n.children@[j]) ==> base + walk_seq(n, j).len() < gaps.len()
            && gaps[base + walk_seq(n, j).len()] == agg_token_gap(n, j, t, first_gap),
        Element::Node(_) => true,
    }
}

/// The aggregate's table holds for its first `k` children.
pub open spec fn agg_gaps_upto(n: Node, first_gap: Gap, base: int, gaps: Seq<Gap>, k: int) -> bool {
    forall|j: int| 0 <= j < k ==> #[trigger] agg_gap_at(n, first_gap, base, gaps, j)
}

/// The gap a node hands its `k`-th child, a node, when entered with
/// `first_gap`: a rule hands its body a line, an annotation a space, its
/// first element its own gap and any other a hug; an aggregate the gap it
/// holds, a hug to its closing brace and a `;`, a space to what follows its
/// braces; any other node what its table asks.
#[verifier::opaque]
pub open spec fn entry_gap(n: Node, first_gap: Gap, k: int) -> Gap {
    let c = n.children@[k];
    if n.kind == SyntaxKind::Rule || n.kind == SyntaxKind::WeakConstraint {
        if elem_kind(c) == SyntaxKind::Body {
            Gap::Soft
        } else if elem_kind(c) == SyntaxKind::Annotation {
            Gap::Space
        } else if !counted_before(n, k) {
            first_gap
        } else {
            Gap::Tight
        }
    } else if is_aggregate_kind(n.kind) {
        let f = agg_fold(n, k);
        let g = agg_gap(n, k, first_gap);
        if !f.5 {
            g
        } else if !f.6 {
            if elem_kind(c) == SyntaxKind::RBrace || elem_kind(c) == SyntaxKind::Semicolon {
                Gap::Tight
            } else {
                g
            }
        } else {
            Gap::Space
        }
    } else {
        seq_asked(n.kind, seq_state(n, k, first_gap), c)
    }
}

/// One bracket deeper, short of the largest depth.
pub open spec fn deeper(d: usize) -> usize {
    if d < usize::MAX {
        (d + 1) as usize
    } else {
        d
    }
}

/// One bracket shallower, short of depth zero.
pub open spec fn shallower(d: usize) -> usize {
    if d > 0 {
        (d - 1) as usize
    } else {
        0
    }
}

/// The bracket depth the `k`-th child of `n` is entered at when the walk
/// stands at `d`: an aggregate's closing brace one shallower.
pub open spec fn child_depth(n: Node, k: int, d: usize) -> usize {
    let c = n.children@[k];
    if is_aggregate_kind(n.kind) && agg_fold(n, k).5 && !agg_fold(n, k).6 && counts(c) && !is_doc(c)
        && elem_kind(c) == SyntaxKind::RBrace {
        shallower(d)
    } else {
        d
    }
}

/// The bracket depth after the first `k` children of `n`, entered with
/// `first_gap` at depth `depth`: a node child's own walk in turn, and an
/// aggregate one deeper past its opening brace and one shallower at its
/// closing brace.
pub open spec fn depth_run(n: Node, k: int, first_gap: Gap, depth: usize) -> usize
    decreases n, 0nat, k,
{
    if k <= 0 || k > n.children@.len() {
        depth
    } else {
        let c = n.children@[k - 1];
        let e = child_depth(n, k - 1, depth_run(n, k - 1, first_gap, depth));
        let e2 = match c {
            Element::Node(m) => depth_after(m, entry_gap(n, first_gap, k - 1), e),
            Element::Token(_) => e,
        };
        if is_aggregate_kind(n.kind) && !agg_fold(n, k - 1).5 && counts(c) && !is_doc(c) && elem_kind(c)
            == SyntaxKind::LBrace {
            deeper(e2)
        } else {
            e2
        }
    }
}

/// The bracket depth after the walk of the subtree `n`, entered with
/// `first_gap` at depth `depth`.
pub open spec fn depth_after(n: Node, first_gap: Gap, depth: usize) -> usize
    decreases n, 1nat, 0int,
{
    if is_term_kind(n.kind) {
        term_run(n, n.children@.len() as int, first_gap, depth).2
    } else {
        depth_run(n, n.children@.len() as int, first_gap, depth)
    }
}

proof fn lemma_term_depth_indep(n: Node, k: int, g1: Gap, g2: Gap, d: usize)
    ensures
        term_run(n, k, g1, d).2 == term_run(n, k, g2, d).2,
        term_run(n, k, g1, d).3 == term_run(n, k, g2, d).3,
    decreases n, k,
{
    if k > 0 && k <= n.children@.len() {
        lemma_term_depth_indep(n, k - 1, g1, g2, d);
        if let Element::Node(m) = n.children@[k - 1] {
            let r1 = term_run(n, k - 1, g1, d);
            let r2 = term_run(n, k - 1, g2, d);
            lemma_term_depth_indep(m, m.children@.len() as int, r1.1, r2.1, r1.2);
        }
    }
}

proof fn lemma_depth_run_indep(n: Node, k: int, g1: Gap, g2: Gap, d: usize)
    ensures
        depth_run(n, k, g1, d) == depth_run(n, k, g2, d),
    decreases n, 0nat, k,
{
    if k > 0 && k <= n.children@.len() {
        lemma_depth_run_indep(n, k - 1, g1, g2, d);
        if let Element::Node(m) = n.children@[k - 1] {
            let e = child_depth(n, k - 1, depth_run(n, k - 1, g1, d));
            lemma_depth_after_indep(m, entry_gap(n, g1, k - 1), entry_gap(n, g2, k - 1), e);
        }
    }
}

/// The bracket depth after a subtree does not depend on the gap it was
/// entered with.
proof fn lemma_depth_after_indep(n: Node, g1: Gap, g2: Gap, d: usize)
    ensures
        depth_after(n, g1, d) == depth_after(n, g2, d),
    decreases n, 1nat, 0int,
{
    if is_term_kind(n.kind) {
        lemma_term_depth_indep(n, n.children@.len() as int, g1, g2, d);
    } else {
        lemma_depth_run_indep(n, n.children@.len() as int, g1, g2, d);
    }
}

/// The separators `seg`, asked for the texts of the subtree `n` entered
/// with the gap `first_gap`, in walk order, follow the house style's
/// tables: the own tokens of a rule, of an aggregate and of any other node
/// walked child after child were asked what its table gives, and each node
/// child, entered with the gap its table hands it at the bracket depth the
/// walk has reached, fits in turn; a term subtree's are those its term walk
/// asks from that gap at the bracket depth `depth` it is entered at.
pub open spec fn gaps_fit(n: Node, first_gap: Gap, depth: usize, seg: Seq<Gap>) -> bool
    decreases n,
{
    if is_term_kind(n.kind) {
        seg == term_run(n, n.children@.len() as int, first_gap, depth).0
    } else {
        &&& seg.len() == walk_seq(n, n.children@.len() as int).len()
        &&& (n.kind == SyntaxKind::Rule || n.kind == SyntaxKind::WeakConstraint) ==> rule_gaps_upto(
            n,
            first_gap,
            0,
            seg,
            n.children@.len() as int,
        )
        &&& is_aggregate_kind(n.kind) ==> agg_gaps_upto(n, first_gap, 0, seg, n.children@.len() as int)
        &&& !(n.kind == SyntaxKind::Rule || n.kind == SyntaxKind::WeakConstraint) && !is_aggregate_kind(
            n.kind,
        ) ==> seq_gaps_upto(n, first_gap, 0, seg, n.children@.len() as int)
        &&& forall|k: int|
            0 <= k < n.children@.len() ==> match #[trigger] n.children@[k] {
                Element::Node(m) => walk_seq(n, k + 1).len() <= seg.len() && gaps_fit(
                    m,
                    entry_gap(n, first_gap, k),
                    child_depth(n, k, depth_run(n, k, first_gap, depth)),
                    seg.subrange(walk_seq(n, k).len() as int, walk_seq(n, k + 1).len() as int),
                ),
                Element::Token(_) => true,
            }
    }
}

/// In `gaps`, from `base` on, the separators asked for the `k`-th child of
/// `n` (entered with `first_gap`), if a node, fit it under the gap `n`
/// hands it; they stand where the walk order puts them.
pub open spec fn child_fit(n: Node, first_gap: Gap, depth: usize, k: int, base: int, gaps: Seq<Gap>) -> bool {
    match n.children@[k] {
        Element::Node(m) => base + walk_seq(n, k + 1).len() <= gaps.len() && gaps_fit(
            m,
            entry_gap(n, first_gap, k),
            child_depth(n, k, depth_run(n, k, first_gap, depth)),
            gaps.subrange(base + walk_seq(n, k).len(), base + walk_seq(n, k + 1).len()),
        ),
        Element::Token(_) => true,
    }
}

/// The first `k` children of `n` fit, from `base` on in `gaps`.
pub open spec fn fits_upto(n: Node, first_gap: Gap, depth: usize, base: int, gaps: Seq<Gap>, k: int) -> bool {
    forall|j: int| 0 <= j < k ==> #[trigger] child_fit(n, first_gap, depth, j, base, gaps)
}

proof fn lemma_fit_step(n: Node, first_gap: Gap, depth: usize, base: int, g0: Seq<Gap>, g1: Seq<Gap>, i: int)
    requires
        0 <= i < n.children@.len(),
        0 <= base,
        fits_upto(n, first_gap, depth, base, g0, i),
        g0.len() <= g1.len(),
        forall|x: int| 0 <= x < g0.len() ==> #[trigger] g1[x] == g0[x],
        g0.len() == base + walk_seq(n, i).len(),
        g1.len() == base + walk_seq(n, i + 1).len(),
        n.children@[i] matches Element::Node(m) ==> gaps_fit(
            m,
            entry_gap(n, first_gap, i),
            child_depth(n, i, depth_run(n, i, first_gap, depth)),
            g1.subrange(g0.len() as int, g1.len() as int),
        ),
    ensures
        fits_upto(n, first_gap, depth, base, g1, i + 1),
{
    assert forall|j: int| 0 <= j < i + 1 implies #[trigger] child_fit(n, first_gap, depth, j, base, g1) by {
        if j < i {
            assert(child_fit(n, first_gap, depth, j, base, g0));
            if let Element::Node(m) = n.children@[j] {
                let a = base + walk_seq(n, j).len();
                let b = base + walk_seq(n, j + 1).len();
                assert(g1.subrange(a, b) =~= g0.subrange(a, b));
            }
        }
    }
}

proof fn lemma_fit_close(n: Node, base: int, gaps: Seq<Gap>, g: Gap, depth: usize)
    requires
        !is_term_kind(n.kind),
        0 <= base,
        fits_upto(n, g, depth, base, gaps, n.children@.len() as int),
        gaps.len() == base + walk_seq(n, n.children@.len() as int).len(),
        n.kind == SyntaxKind::Rule || n.kind == SyntaxKind::WeakConstraint ==> rule_gaps_upto(
            n,
            g,
            base,
            gaps,
            n.children@.len() as int,
        ),
        is_aggregate_kind(n.kind) ==> agg_gaps_upto(n, g, base, gaps, n.children@.len() as int),
        !(n.kind == SyntaxKind::Rule || n.kind == SyntaxKind::WeakConstraint) && !is_aggregate_kind(
            n.kind,
        ) ==> seq_gaps_upto(n, g, base, gaps, n.children@.len() as int),
    ensures
        gaps_fit(n, g, depth, gaps.subrange(base, gaps.len() as int)),
{
    let seg = gaps.subrange(base, gaps.len() as int);
    assert forall|k: int| 0 <= k < n.children@.len() implies match #[trigger] n.children@[k] {
        Element::Node(m) => walk_seq(n, k + 1).len() <= seg.len() && gaps_fit(
            m,
            entry_gap(n, g, k),
            child_depth(n, k, depth_run(n, k, g, depth)),
            seg.subrange(walk_seq(n, k).len() as int, walk_seq(n, k + 1).len() as int),
        ),
        Element::Token(_) => true,
    } by {
        assert(child_fit(n, g, depth, k, base, gaps));
        if let Element::Node(m) = n.children@[k] {
            let a = walk_seq(n, k).len() as int;
            let b = walk_seq(n, k + 1).len() as int;
            assert(seg.subrange(a, b) =~= gaps.subrange(base + a, base + b));
        }
    }
    if n.kind == SyntaxKind::Rule || n.kind == SyntaxKind::WeakConstraint {
        assert forall|j: int| 0 <= j < n.children@.len() implies #[trigger] rule_gap_at(n, g, 0, seg, j) by {
            assert(rule_gap_at(n, g, base, gaps, j));
        }
        assert(rule_gaps_upto(n, g, 0, seg, n.children@.len() as int));
    }
    if is_aggregate_kind(n.kind) {
        assert forall|j: int| 0 <= j < n.children@.len() implies #[trigger] agg_gap_at(n, g, 0, seg, j) by {
            assert(agg_gap_at(n, g, base, gaps, j));
        }
        assert(agg_gaps_upto(n, g, 0, seg, n.children@.len() as int));
    }
    if !(n.kind == SyntaxKind::Rule || n.kind == SyntaxKind::WeakConstraint) && !is_aggregate_kind(n.kind) {
        assert forall|j: int| 0 <= j < n.children@.len() implies #[trigger] seq_gap_at(n, g, 0, seg, j) by {
            assert(seq_gap_at(n, g, base, gaps, j));
        }
        assert(seq_gaps_upto(n, g, 0, seg, n.children@.len() as int));
    }
}

/// The gap a statement is entered with: nothing for the first, else a line
/// break or a single blank line.
pub open spec fn statement_break(g: Gap) -> bool {
    g == Gap::Nothing || g == Gap::Hard || g == Gap::Blank
}

/// The bracket depth at which the walk enters the `k`-th top-level child of
/// a program: zero for the first, then where each statement before it left
/// the depth.
pub open spec fn program_depth(root: Node, k: int) -> usize
    decreases k,
{
    if k <= 0 || k > root.children@.len() {
        0
    } else {
        let d = program_depth(root, k - 1);
        match root.children@[k - 1] {
            Element::Node(m) => depth_after(m, Gap::Nothing, d),
            Element::Token(_) => d,
        }
    }
}

/// In `gaps`, from `base` on, the separators asked for the `j`-th top-level
/// child of a program, if a statement, fit it entered with a statement
/// break at the depth the walk has reached; they stand where the walk order
/// puts them.
pub open spec fn stmt_fit(root: Node, j: int, base: int, gaps: Seq<Gap>) -> bool {
    match root.children@[j] {
        Element::Node(m) => base + program_seq(root, j + 1).len() <= gaps.len() && exists|g: Gap|
            statement_break(g) && #[trigger] gaps_fit(
                m,
                g,
                program_depth(root, j),
                gaps.subrange(base + program_seq(root, j).len(), base + program_seq(root, j + 1).len()),
            ),
        Element::Token(_) => true,
    }
}

/// The first `k` top-level children of a program fit, from `base` on in
/// `gaps`.
pub open spec fn program_fit(root: Node, base: int, gaps: Seq<Gap>, k: int) -> bool {
    forall|j: int| 0 <= j < k ==> #[trigger] stmt_fit(root, j, base, gaps)
}

proof fn lemma_program_step(root: Node, base: int, g0: Seq<Gap>, g1: Seq<Gap>, i: int)
    requires
        0 <= i < root.children@.len(),
        0 <= base,
        program_fit(root, base, g0, i),
        g0.len() <= g1.len(),
        forall|x: int| 0 <= x < g0.len() ==> #[trigger] g1[x] == g0[x],
        g0.len() == base + program_seq(root, i).len(),
        g1.len() == base + program_seq(root, i + 1).len(),
        root.children@[i] matches Element::Node(m) ==> exists|g: Gap|
            statement_break(g) && #[trigger] gaps_fit(
                m,
                g,
                program_depth(root, i),
                g1.subrange(g0.len() as int, g1.len() as int),
            ),
    ensures
        program_fit(root, base, g1, i + 1),
{
    assert forall|j: int| 0 <= j < i + 1 implies #[trigger] stmt_fit(root, j, base, g1) by {
        if j < i {
            assert(stmt_fit(root, j, base, g0));
            if let Element::Node(m) = root.children@[j] {
                let a = base + program_seq(root, j).len();
                let b = base + program_seq(root, j + 1).len();
                assert(g1.subrange(a, b) =~= g0.subrange(a, b));
            }
        }
    }
}

/// The kinds whose children are spaced one from the next.
pub open spec fn is_spaced_chain(k: SyntaxKind) -> bool {
    k == SyntaxKind::Disjunction || k == SyntaxKind::Comparison || k == SyntaxKind::Guard || k
        == SyntaxKind::TheoryGuard
}

/// The kinds laid out as a spaced list: `,`/`;` hugging what precedes them,
/// a colon spaced on both sides.
pub open spec fn is_spaced_list(k: SyntaxKind) -> bool {
    k == SyntaxKind::Condition || k == SyntaxKind::BodyAggregateElement || k
        == SyntaxKind::HeadAggregateElement || k == SyntaxKind::OptimizeElement || k
        == SyntaxKind::Edge || k == SyntaxKind::TheoryElement || k == SyntaxKind::OpDefinition || k
        == SyntaxKind::AtomDefinition
}

/// The directive statements.
pub open spec fn is_directive(k: SyntaxKind) -> bool {
    k == SyntaxKind::ShowStatement || k == SyntaxKind::ProgramStatement || k
        == SyntaxKind::ConstStatement || k == SyntaxKind::ExternalStatement || k
        == SyntaxKind::EdgeStatement || k == SyntaxKind::ProjectStatement || k
        == SyntaxKind::DefinedStatement || k == SyntaxKind::IncludeStatement || k
        == SyntaxKind::HeuristicStatement
}

/// The gap between the children of a node walked child after child: spaced
/// in a spaced chain, else tight.
pub open spec fn children_between(k: SyntaxKind) -> Gap {
    if is_spaced_chain(k) {
        Gap::Space
    } else {
        Gap::Tight
    }
}

/// `c` is a documentation line.
pub open spec fn is_doc(c: Element) -> bool {
    c matches Element::Token(t) && t.role == TokenRole::Documentation
}

/// The separator a node walked child after child — any node but a rule, an
/// aggregate and a term — asks before its child `c`, in the state `st`
/// (the held gap, and whether no element has been met yet): the held gap,
/// except that a body's own tokens hug what precedes them; a colon is
/// spaced in a chain, a spaced list and a directive; a `,`/`;` hugs in a
/// spaced list; a directive's dot hugs and its `=` and annotation are
/// spaced; a `#script` body is emitted as it stands; a theory atom's guard
/// is spaced.
pub open spec fn seq_asked(k: SyntaxKind, st: (Gap, bool), c: Element) -> Gap {
    let e = elem_kind(c);
    if is_doc(c) {
        st.0
    } else if k == SyntaxKind::Body {
        if c is Token {
            Gap::Tight
        } else {
            st.0
        }
    } else if is_spaced_list(k) {
        if c is Token && (e == SyntaxKind::Comma || e == SyntaxKind::Semicolon) {
            Gap::Tight
        } else if c is Token && e == SyntaxKind::Colon {
            Gap::Space
        } else {
            st.0
        }
    } else if is_directive(k) {
        if st.1 {
            st.0
        } else if e == SyntaxKind::Dot {
            Gap::Tight
        } else if e == SyntaxKind::Annotation || e == SyntaxKind::Eq || e == SyntaxKind::Colon {
            Gap::Space
        } else {
            st.0
        }
    } else if k == SyntaxKind::ScriptStatement {
        if c is Token && e == SyntaxKind::ScriptBody {
            Gap::Nothing
        } else {
            st.0
        }
    } else if k == SyntaxKind::TheoryAtom {
        if e == SyntaxKind::TheoryGuard {
            Gap::Space
        } else {
            st.0
        }
    } else if c is Token && e == SyntaxKind::Colon {
        Gap::Space
    } else {
        st.0
    }
}

/// The state after the child `c` of such a node: the gap it holds next,
/// and whether no element has been met yet.
pub open spec fn seq_next(k: SyntaxKind, st: (Gap, bool), c: Element) -> (Gap, bool) {
    let e = elem_kind(c);
    if is_doc(c) {
        if k == SyntaxKind::Body {
            (Gap::Soft, st.1)
        } else if is_spaced_list(k) {
            (Gap::Space, st.1)
        } else if is_directive(k) {
            st
        } else if k == SyntaxKind::ScriptStatement || k == SyntaxKind::TheoryAtom {
            (Gap::Tight, st.1)
        } else {
            (children_between(k), st.1)
        }
    } else if k == SyntaxKind::Body {
        (Gap::Soft, false)
    } else if is_spaced_list(k) {
        if c is Token && (e == SyntaxKind::Comma || e == SyntaxKind::Semicolon || e == SyntaxKind::Colon) {
            (Gap::Space, false)
        } else {
            (Gap::Tight, false)
        }
    } else if is_directive(k) {
        if st.1 || e == SyntaxKind::Eq || e == SyntaxKind::Colon || e == SyntaxKind::Comma || e
            == SyntaxKind::Semicolon {
            (Gap::Space, false)
        } else {
            (Gap::Tight, false)
        }
    } else if k == SyntaxKind::ScriptStatement {
        if c is Token && e == SyntaxKind::ScriptBody {
            (Gap::Nothing, false)
        } else {
            (Gap::Tight, false)
        }
    } else if k == SyntaxKind::TheoryAtom {
        (Gap::Tight, false)
    } else if c is Token && e == SyntaxKind::Colon {
        (Gap::Space, false)
    } else {
        (children_between(k), false)
    }
}

/// The state of such a node's walk after its first `k` children, entered
/// with `first_gap`.
pub open spec fn seq_state(n: Node, k: int, first_gap: Gap) -> (Gap, bool)
    decreases k,
{
    if k <= 0 || k > n.children@.len() {
        (first_gap, true)
    } else {
        let st = seq_state(n, k - 1, first_gap);
        let c = n.children@[k - 1];
        if counts(c) {
            seq_next(n.kind, st, c)
        } else {
            st
        }
    }
}

/// In `gaps`, from `base` on, the `j`-th child of such a node, if a token
/// the walk emits a text for, was asked the separator its table gives.
pub open spec fn seq_gap_at(n: Node, first_gap: Gap, base: int, gaps: Seq<Gap>, j: int) -> bool {
    match n.children@[j] {
        Element::Token(t) => counts(n.children@[j]) && piece(n.kind == SyntaxKind::ScriptStatement, t).len()
            > 0 ==> base + walk_seq(n, j).len() < gaps.len() && gaps[base + walk_seq(n, j).len()]
            == seq_asked(n.kind, seq_state(n, j, first_gap), n.children@[j]),
        Element::Node(_) => true,
    }
}

/// The table holds for the first `k` children of such a node.
pub open spec fn seq_gaps_upto(n: Node, first_gap: Gap, base: int, gaps: Seq<Gap>, k: int) -> bool {
    forall|j: int| 0 <= j < k ==> #[trigger] seq_gap_at(n, first_gap, base, gaps, j)
}

/// `c` is a rule's body.
pub open spec fn is_body_child(c: Element) -> bool {
    c matches Element::Node(n) && n.kind == SyntaxKind::Body
}

/// One of the first `k` children of `node` is its body.
pub open spec fn has_body_upto(node: Node, k: int) -> bool {
    exists|j: int| 0 <= j < k && is_body_child(#[trigger] node.children@[j])
}

/// `d` is a rule laid out as one group: a head whose last part nests the
/// body one level.
pub open spec fn rule_group(d: Doc) -> bool {
    exists|h: Seq<Doc>, body: Vec<Doc>|
        #[trigger] is_group_of(h.push(Doc::Nest(Box::new(Doc::Concat(body)))), d)
}

/// A child the aggregate walk places by its kind: not whitespace, not a
/// documentation line, not a trivia comment.
pub open spec fn routed(c: Element) -> bool {
    match c {
        Element::Token(t) => t.kind != SyntaxKind::Whitespace && t.role != TokenRole::Documentation
            && t.role != TokenRole::Trivia,
        Element::Node(_) => true,
    }
}

/// The kind of a child.
pub open spec fn elem_kind(c: Element) -> SyntaxKind {
    match c {
        Element::Token(t) => t.kind,
        Element::Node(n) => n.kind,
    }
}

/// `c` is a placed child of kind `k`.
pub open spec fn placed_as(c: Element, k: SyntaxKind) -> bool {
    routed(c) && elem_kind(c) == k
}

/// Child `a` of `node` opens its braces and child `b` closes them: the
/// first placed `{`, then the first placed `}` after it.
pub open spec fn brace_pair(node: Node, a: int, b: int) -> bool {
    &&& 0 <= a < b < node.children@.len()
    &&& placed_as(node.children@[a], SyntaxKind::LBrace)
    &&& placed_as(node.children@[b], SyntaxKind::RBrace)
    &&& forall|j: int| 0 <= j < a ==> !placed_as(#[trigger] node.children@[j], SyntaxKind::LBrace)
    &&& forall|j: int| a < j < b ==> !placed_as(#[trigger] node.children@[j], SyntaxKind::RBrace)
}

/// `d` is the spaced brace group over the opening part `op`, the interior
/// `it` and the closing part `cl`.
pub open spec fn braced(d: Doc, op: Seq<Doc>, it: Seq<Doc>, cl: Seq<Doc>) -> bool {
    if it.len() == 0 {
        d matches Doc::Concat(v) && v@ == op + cl
    } else {
        exists|w: Seq<Doc>| #[trigger] bracket_body(op, it, cl, Doc::Line, w) && is_group_of(w, d)
    }
}

/// Wherever `node` opens and closes its braces, `out` holds the spaced
/// brace group over them: its opening part holds the opening brace's
/// text, its closing part the closing brace's.
pub open spec fn braces_kept(node: Node, out: Seq<Doc>, preserve: bool) -> bool {
    forall|a: int, b: int|
        #[trigger] brace_pair(node, a, b) ==> exists|k: int, op: Seq<Doc>, it: Seq<Doc>, cl: Seq<Doc>|
            0 <= k < out.len() && #[trigger] braced(out[k], op, it, cl) && embeds(
                spellings(child_doc(node.children@[a]), preserve),
                texts_seq(op),
            ) && embeds(spellings(child_doc(node.children@[b]), preserve), texts_seq(cl))
}

/// The kinds lowered as a spaced brace group.
pub open spec fn is_aggregate_kind(k: SyntaxKind) -> bool {
    k == SyntaxKind::FunctionAggregate || k == SyntaxKind::SetAggregate || k
        == SyntaxKind::OptimizeStatement || k == SyntaxKind::TheoryDefinition || k
        == SyntaxKind::TermDefinition || k == SyntaxKind::TheoryElements
}

proof fn lemma_grows_keeps(before: Seq<Doc>, after: Seq<Doc>, m: Seq<Seq<char>>, x: Seq<Seq<char>>)
    requires
        grows(before, after, m),
        embeds(x, texts_seq(before)),
    ensures
        embeds(x, texts_seq(after)),
        embeds(m, texts_seq(after)),
{
    lemma_embeds_empty(m);
    lemma_embeds_concat(x, texts_seq(before), Seq::empty(), m);
    assert(x + Seq::<Seq<char>>::empty() =~= x);
    lemma_embeds_trans(x, texts_seq(before) + m, texts_seq(after));
    lemma_embeds_empty(texts_seq(before));
    lemma_embeds_refl(m);
    lemma_embeds_concat(Seq::empty(), texts_seq(before), m, m);
    assert(Seq::<Seq<char>>::empty() + m =~= m);
    lemma_embeds_trans(m, texts_seq(before) + m, texts_seq(after));
}

impl<B: Fn(usize, usize) -> bool, F: Fn(usize, &str, &str) -> Floor> Lowering<B, F> {
    /// The break between two source-order siblings: nothing before the
    /// first, one blank line where an empty line stands between them, else
    /// a plain line.
    fn break_between(&self, prev: Option<usize>, cur: usize) -> (g: Gap)
        ensures
            gap_for(self.oracle, prev, cur, g),
    {
        match prev {
            None => Gap::Nothing,
            Some(p) => if self.oracle.blank(p, cur) {
                Gap::Blank
            } else {
                Gap::Hard
            },
        }
    }

    /// The break before a comment, measured from the element the walk last
    /// emitted.
    fn break_before(&self, comment: usize) -> (g: Gap)
        ensures
            gap_for(self.oracle, self.prev_element, comment, g),
    {
        self.break_between(self.prev_element, comment)
    }

    /// Push the separator for `gap` before an element whose emitted text is
    /// `next`. A just-emitted comment owes what follows at least a break or
    /// a space, so the gap is raised to the stronger of the two. Only an
    /// abutting or spaced gap consults the fusion floor; a break clears it.
    fn separate(&mut self, out: &mut Vec<Doc>, gap: Gap, next: &str)
        ensures
            final(self).preserve == old(self).preserve,
            final(self).log == old(self).log,
            final(self).gaps == old(self).gaps,
            grows(old(out)@, final(out)@, Seq::empty()),
            paid(*old(self), *final(self)),
            separated(*old(self), old(out)@, final(out)@, gap, next@),
    {
        let ghost s0 = *self;
        let ghost asked = gap;
        let gap = match self.pending {
            Some(owed) => stronger(gap, owed),
            None => gap,
        };
        self.pending = None;
        let separator = match gap {
            Gap::Nothing => None,
            Gap::Tight | Gap::Space => match &self.last {
                Some((id, text)) => {
                    let wish = if gap == Gap::Space {
                        Wish::Space
                    } else {
                        Wish::Abut
                    };
                    let left = text.as_str();
                    let f = self.oracle.floor(*id, left, next);
                    let d = floor_to_doc(f, wish);
                    proof {
                        assert(call_ensures(s0.oracle.floor_fn(), (*id, left, next), f));
                        assert(floor_sep(d, f, wish));
                    }
                    Some(d)
                },
                None => None,
            },
            Gap::Wrap => Some(Doc::SoftLine),
            Gap::Soft => Some(Doc::Line),
            Gap::Hard => Some(Doc::HardLine),
            Gap::Blank => Some(Doc::BlankLine),
        };
        let ghost before = out@;
        match separator {
            Some(d) => {
                proof {
                    lemma_grows_push(before, d);
                }
                out.push(d);
                proof {
                    assert(out@.drop_last() =~= before);
                }
            },
            None => {
                proof {
                    lemma_grows_refl(before);
                }
            },
        }
        proof {
            assert(gap == owed_gap(s0.pending, asked));
        }
    }

    /// Emit a significant token by its spelling, preceded by the gap's
    /// separator; it becomes the fusion floor's new left side.
    fn tok(&mut self, out: &mut Vec<Doc>, token: &Tok, gap: Gap)
        ensures
            final(self).bracket_depth == old(self).bracket_depth,
            final(self).preserve == old(self).preserve,
            final(self).log@ == old(self).log@.push(*token),
            kept(*old(self), *final(self)),
            final(self).gaps@ == old(self).gaps@.push(gap),
            grows(old(out)@, final(out)@, seq![spelled_as(*token, old(self).preserve)]),
            final(out)@.len() > 0,
            final(out)@.last() matches Doc::Text(t) && t@ == spelled_as(*token, old(self).preserve),
            separated(*old(self), old(out)@, final(out)@.drop_last(), gap, spelled_as(*token, old(self).preserve)),
    {
        let text = spell(token, self.preserve);
        let ghost o0 = out@;
        self.separate(out, gap, text.as_str());
        let ghost o1 = out@;
        let d = Doc::Text(text.clone());
        let ghost gd = d;
        proof {
            lemma_grows_push(o1, gd);
            assert(texts(gd) == seq![spelled_as(*token, self.preserve)]);
        }
        out.push(d);
        proof {
            lemma_grows_trans(o0, o1, out@, Seq::empty(), texts(gd));
            assert(out@.drop_last() =~= o1);
        }
        self.last = Some((token.id, text));
        self.prev_element = Some(token.id);
        self.log = Ghost(self.log@.push(*token));
        self.gaps = Ghost(self.gaps@.push(gap));
    }

    /// Emit a documentation line verbatim, on its own line above its
    /// statement.
    fn doc_line(&mut self, out: &mut Vec<Doc>, token: &Tok, gap: Gap)
        ensures
            final(self).preserve == old(self).preserve,
            final(self).log@ == old(self).log@.push(as_written(*token)),
            kept(*old(self), *final(self)),
            final(self).gaps@ == old(self).gaps@.push(gap),
            grows(old(out)@, final(out)@, Seq::empty()),
            grows(old(out)@, final(out)@, spellings(seq![as_written(*token)], old(self).preserve)),
            marked(*old(self), *final(self), token.id, Gap::Hard),
            final(self).woven == old(self).woven,
            final(out)@.len() > 0,
            separated(*old(self), old(out)@, final(out)@.drop_last(), gap, token.text@),
            final(out)@.last() == Doc::Text(token.text),
    {
        let text = token.text.clone();
        let ghost o0 = out@;
        self.separate(out, gap, text.as_str());
        let ghost o1 = out@;
        let d = Doc::Text(text);
        proof {
            lemma_grows_push(o1, d);
        }
        out.push(d);
        proof {
            lemma_grows_trans(o0, o1, out@, Seq::empty(), Seq::empty());
            lemma_grows_trans(o0, o1, out@, Seq::empty(), texts(d));
            lemma_spellings_one(as_written(*token), self.preserve);
            assert(texts(d) == seq![token.text@]);
            assert(out@.drop_last() =~= o1);
        }
        self.prev_element = Some(token.id);
        self.pending = Some(Gap::Hard);
        self.log = Ghost(self.log@.push(as_written(*token)));
        self.gaps = Ghost(self.gaps@.push(gap));
    }

    /// Emit a trivia comment by its content: a line comment owes what
    /// follows a break; a block comment ends mid-line and owes only a space.
    fn comment(&mut self, out: &mut Vec<Doc>, token: &Tok, gap: Gap)
        ensures
            final(self).bracket_depth == old(self).bracket_depth,
            final(self).preserve == old(self).preserve,
            final(self).log == old(self).log,
            final(self).gaps == old(self).gaps,
            grows(old(out)@, final(out)@, Seq::empty()),
            marked(*old(self), *final(self), token.id, comment_owes(*token)),
            final(self).woven == old(self).woven,
            commented(*old(self), old(out)@, final(out)@, *token, gap),
    {
        let text = token.spelled.clone();
        let ghost o0 = out@;
        self.separate(out, gap, text.as_str());
        let ghost o1 = out@;
        let d = Doc::Text(text);
        proof {
            lemma_grows_push(o1, d);
        }
        out.push(d);
        proof {
            lemma_grows_trans(o0, o1, out@, Seq::empty(), Seq::empty());
            assert(out@.drop_last() =~= o1);
        }
        self.prev_element = Some(token.id);
        self.pending = Some(
            if token.kind == SyntaxKind::BlockComment {
                Gap::Space
            } else {
                Gap::Hard
            },
        );
    }

    /// Emit the comments leading `anchor`, each on its own line directly
    /// above it, the first keeping a single author blank before the run.
    fn weave_leading(&mut self, out: &mut Vec<Doc>, anchor: usize)
        ensures
            final(self).bracket_depth == old(self).bracket_depth,
            final(self).preserve == old(self).preserve,
            final(self).log == old(self).log,
            final(self).gaps == old(self).gaps,
            grows(old(out)@, final(out)@, Seq::empty()),
            led(
                *old(self),
                old(out)@,
                run_of(old(self).plan.leading@, anchor),
                0,
                true,
                *final(self),
                final(out)@,
            ),
    {
        let run = self.plan.leading(anchor);
        let mut emitted: usize = 0;
        let mut k: usize = 0;
        let ghost s_start = *self;
        let ghost start = self.log@;
        let ghost o_start = out@;
        let ghost mut fresh = true;
        proof {
            lemma_grows_refl(o_start);
            assert(run@ =~= run_of(s_start.plan.leading@, anchor));
        }
        while k < run.len()
            invariant
                self.log@ == start,
                self.gaps == old(self).gaps,
                self.bracket_depth == old(self).bracket_depth,
                self.preserve == old(self).preserve,
                o_start == old(out)@,
                s_start == *old(self),
                run@ == run_of(s_start.plan.leading@, anchor),
                grows(o_start, out@, Seq::empty()),
                k <= run@.len(),
                emitted <= k,
                fresh == (emitted == 0),
                forall|s2: Lowering<B, F>, o2: Seq<Doc>|
                    #[trigger] led(*self, out@, run@, k as int, fresh, s2, o2) ==> led(
                        s_start,
                        o_start,
                        run@,
                        0,
                        true,
                        s2,
                        o2,
                    ),
            decreases run.len() - k,
        {
            let c = &run[k];
            let ghost s_cur = *self;
            let ghost o_cur = out@;
            if !holds(&self.woven, c.id) {
                let gap = if emitted == 0 {
                    self.break_before(c.id)
                } else {
                    Gap::Hard
                };
                let ghost o1 = out@;
                self.comment(out, c, gap);
                proof {
                    lemma_grows_trans(o_start, o1, out@, Seq::empty(), Seq::empty());
                    assert forall|s2: Lowering<B, F>, o2: Seq<Doc>|
                        led(*self, out@, run@, k + 1, false, s2, o2) implies led(
                        s_start,
                        o_start,
                        run@,
                        0,
                        true,
                        s2,
                        o2,
                    ) by {
                        assert(commented(s_cur, o_cur, out@, run@[k as int], gap));
                        assert(marked(s_cur, *self, run@[k as int].id, comment_owes(run@[k as int])));
                        assert(led(s_cur, o_cur, run@, k as int, fresh, s2, o2));
                    }
                    fresh = false;
                }
                emitted = emitted + 1;
            } else {
                proof {
                    assert forall|s2: Lowering<B, F>, o2: Seq<Doc>|
                        led(*self, out@, run@, k + 1, fresh, s2, o2) implies led(
                        s_start,
                        o_start,
                        run@,
                        0,
                        true,
                        s2,
                        o2,
                    ) by {
                        assert(led(s_cur, o_cur, run@, k as int, fresh, s2, o2));
                    }
                }
            }
            k = k + 1;
        }
        proof {
            assert(led(*self, out@, run@, k as int, fresh, *self, out@));
        }
    }

    /// Emit a comment where the walk meets it, in source order, and record
    /// it so it is not emitted again at its anchor.
    fn weave_in_place(&mut self, out: &mut Vec<Doc>, token: &Tok)
        ensures
            final(self).preserve == old(self).preserve,
            final(self).log == old(self).log,
            final(self).gaps == old(self).gaps,
            grows(old(out)@, final(out)@, Seq::empty()),
            woven_at(*old(self), *final(self), old(out)@, final(out)@, *token),
            final(self).woven@ == old(self).woven@.push(token.id),
    {
        let gap = self.break_before(token.id);
        self.comment(out, token, gap);
        self.woven.push(token.id);
        proof {
            assert(gap_for(old(self).oracle, old(self).prev_element, token.id, gap));
        }
    }

    /// Emit the comments trailing `anchor`, on its line, a space between.
    fn weave_trailing(&mut self, out: &mut Vec<Doc>, anchor: usize)
        ensures
            final(self).bracket_depth == old(self).bracket_depth,
            final(self).preserve == old(self).preserve,
            final(self).log == old(self).log,
            final(self).gaps == old(self).gaps,
            grows(old(out)@, final(out)@, Seq::empty()),
            trailed(
                *old(self),
                old(out)@,
                run_of(old(self).plan.trailing@, anchor),
                0,
                *final(self),
                final(out)@,
            ),
    {
        let run = self.plan.trailing(anchor);
        let mut k: usize = 0;
        let ghost s_start = *self;
        let ghost start = self.log@;
        let ghost o_start = out@;
        proof {
            lemma_grows_refl(o_start);
            assert(run@ =~= run_of(s_start.plan.trailing@, anchor));
        }
        while k < run.len()
            invariant
                self.log@ == start,
                self.gaps == old(self).gaps,
                self.bracket_depth == old(self).bracket_depth,
                self.preserve == old(self).preserve,
                o_start == old(out)@,
                s_start == *old(self),
                run@ == run_of(s_start.plan.trailing@, anchor),
                grows(o_start, out@, Seq::empty()),
                k <= run@.len(),
                forall|s2: Lowering<B, F>, o2: Seq<Doc>|
                    #[trigger] trailed(*self, out@, run@, k as int, s2, o2) ==> trailed(
                        s_start,
                        o_start,
                        run@,
                        0,
                        s2,
                        o2,
                    ),
            decreases run.len() - k,
        {
            let ghost s_cur = *self;
            let ghost o_cur = out@;
            self.comment(out, &run[k], Gap::Space);
            proof {
                lemma_grows_trans(o_start, o_cur, out@, Seq::empty(), Seq::empty());
                assert forall|s2: Lowering<B, F>, o2: Seq<Doc>|
                    trailed(*self, out@, run@, k + 1, s2, o2) implies trailed(
                    s_start,
                    o_start,
                    run@,
                    0,
                    s2,
                    o2,
                ) by {
                    assert(commented(s_cur, o_cur, out@, run@[k as int], Gap::Space));
                    assert(marked(s_cur, *self, run@[k as int].id, comment_owes(run@[k as int])));
                    assert(trailed(s_cur, o_cur, run@, k as int, s2, o2));
                }
            }
            k = k + 1;
        }
        proof {
            assert(trailed(*self, out@, run@, k as int, *self, out@));
        }
    }

    /// Weave `token` if it dangles in `parent`, on its own line.
    fn weave_dangling(&mut self, out: &mut Vec<Doc>, parent: usize, token: &Tok)
        ensures
            final(self).preserve == old(self).preserve,
            final(self).log == old(self).log,
            final(self).gaps == old(self).gaps,
            grows(old(out)@, final(out)@, Seq::empty()),
            dangles_in(old(self).plan, parent, token.id) ==> woven_at(
                *old(self),
                *final(self),
                old(out)@,
                final(out)@,
                *token,
            ) && final(self).woven == old(self).woven,
            !dangles_in(old(self).plan, parent, token.id) ==> *final(self) == *old(self)
                && final(out)@ == old(out)@,
    {
        if self.plan.dangles(parent, token.id) {
            let gap = self.break_before(token.id);
            self.comment(out, token, gap);
            proof {
                assert(gap_for(old(self).oracle, old(self).prev_element, token.id, gap));
            }
        } else {
            proof {
                lemma_grows_refl(out@);
            }
        }
    }

    /// Weave a statement's trivia comment where the walk meets it: before
    /// the first significant element in source order, after it at its
    /// dangling slot.
    fn weave_statement_trivia(
        &mut self,
        out: &mut Vec<Doc>,
        parent: usize,
        token: &Tok,
        before_head: bool,
    )
        ensures
            final(self).preserve == old(self).preserve,
            final(self).log == old(self).log,
            final(self).gaps == old(self).gaps,
            grows(old(out)@, final(out)@, Seq::empty()),
            before_head ==> woven_at(*old(self), *final(self), old(out)@, final(out)@, *token)
                && final(self).woven@ == old(self).woven@.push(token.id),
            !before_head && dangles_in(old(self).plan, parent, token.id) ==> woven_at(
                *old(self),
                *final(self),
                old(out)@,
                final(out)@,
                *token,
            ) && final(self).woven == old(self).woven,
            !before_head && !dangles_in(old(self).plan, parent, token.id) ==> *final(self)
                == *old(self) && final(out)@ == old(out)@,
    {
        if before_head {
            self.weave_in_place(out, token);
        } else {
            self.weave_dangling(out, parent, token);
        }
    }

    /// Emit a significant token with the comments woven around it: those
    /// leading it on their own lines above, those trailing it after it.
    fn woven_tok(&mut self, out: &mut Vec<Doc>, token: &Tok, gap: Gap)
        ensures
            final(self).bracket_depth == old(self).bracket_depth,
            final(self).preserve == old(self).preserve,
            final(self).log@ == old(self).log@.push(*token),
            kept(*old(self), *final(self)),
            final(self).gaps@ == old(self).gaps@.push(gap),
            grows(old(out)@, final(out)@, spellings(seq![*token], old(self).preserve)),
    {
        let ghost o0 = out@;
        self.weave_leading(out, token.id);
        let ghost o1 = out@;
        self.tok(out, token, gap);
        let ghost o2 = out@;
        self.weave_trailing(out, token.id);
        proof {
            let m = seq![spelled_as(*token, self.preserve)];
            lemma_grows_trans(o0, o1, o2, Seq::empty(), m);
            lemma_grows_trans(o0, o2, out@, m, Seq::empty());
            lemma_spellings_one(*token, self.preserve);
        }
    }

    /// Lower a node with the comments woven around it.
    fn woven_node(&mut self, out: &mut Vec<Doc>, node: &Node, gap: Gap)
        ensures
            final(self).preserve == old(self).preserve,
            final(self).log@ == old(self).log@ + walk_toks(*node),
            kept(*old(self), *final(self)),
            grows(old(out)@, final(out)@, spellings(doc_toks(*node), old(self).preserve)),
            gaps_fit(
                *node,
                gap,
                old(self).bracket_depth,
                final(self).gaps@.subrange(old(self).gaps@.len() as int, final(self).gaps@.len() as int),
            ),
            final(self).bracket_depth == depth_after(*node, gap, old(self).bracket_depth),
        decreases node, 3nat,
    {
        let ghost o0 = out@;
        self.weave_leading(out, node.id);
        let ghost o1 = out@;
        self.node(out, node, gap);
        let ghost o2 = out@;
        self.weave_trailing(out, node.id);
        proof {
            let m = spellings(doc_toks(*node), self.preserve);
            lemma_grows_trans(o0, o1, o2, Seq::empty(), m);
            lemma_grows_trans(o0, o2, out@, m, Seq::empty());
        }
    }

    /// Emit a significant child with the comments woven around it.
    fn woven_child(&mut self, out: &mut Vec<Doc>, child: &Element, gap: Gap)
        ensures
            final(self).preserve == old(self).preserve,
            final(self).log@ == old(self).log@ + child_toks(*child),
            kept(*old(self), *final(self)),
            child is Token ==> final(self).gaps@ == old(self).gaps@.push(gap),
            grows(old(out)@, final(out)@, spellings(child_doc(*child), old(self).preserve)),
            child matches Element::Node(m) ==> gaps_fit(
                *m,
                gap,
                old(self).bracket_depth,
                final(self).gaps@.subrange(old(self).gaps@.len() as int, final(self).gaps@.len() as int),
            ) && final(self).bracket_depth == depth_after(*m, gap, old(self).bracket_depth),
            child is Token ==> final(self).bracket_depth == old(self).bracket_depth,
        decreases child, 2nat,
    {
        let id = child.id();
        let ghost o0 = out@;
        self.weave_leading(out, id);
        let ghost o1 = out@;
        self.emit_child(out, child, gap);
        let ghost o2 = out@;
        self.weave_trailing(out, id);
        proof {
            let m = spellings(child_doc(*child), self.preserve);
            lemma_grows_trans(o0, o1, o2, Seq::empty(), m);
            lemma_grows_trans(o0, o2, out@, m, Seq::empty());
        }
    }

    /// The program: each statement on its own line(s), a single author
    /// blank between two preserved as one, documentation and top-level
    /// comments woven to their anchors.
    fn program(&mut self, out: &mut Vec<Doc>, root: &Node)
        requires
            old(self).bracket_depth == 0,
        ensures
            final(self).preserve == old(self).preserve,
            final(self).log@ == old(self).log@ + program_toks(*root),
            kept(*old(self), *final(self)),
            grows(
                old(out)@,
                final(out)@,
                spellings(program_doc(*root, root.children@.len() as int), old(self).preserve),
            ),
            program_fit(*root, old(self).gaps@.len() as int, final(self).gaps@, root.children@.len() as int),
    {
        let mut i: usize = 0;
        let ghost start = self.log@;
        proof {
            lemma_grows_refl(out@);
        }
        while i < root.children.len()
            invariant
                self.log@ == start + program_seq(*root, i as int),
                kept(*old(self), *self),
                start == old(self).log@,
                program_fit(*root, old(self).gaps@.len() as int, self.gaps@, i as int),
                self.bracket_depth == program_depth(*root, i as int),
                self.preserve == old(self).preserve,
                grows(old(out)@, out@, spellings(program_doc(*root, i as int), old(self).preserve)),
                i <= root.children@.len(),
            decreases root.children.len() - i,
        {
            let ghost o_i = out@;
            let ghost gs0 = self.gaps@;
            let ghost ss0 = *self;
            let ghost step: Seq<Tok> = match root.children@[i as int] {
                Element::Token(_) => Seq::empty(),
                Element::Node(m) => walk_toks(m),
            };
            let ghost dstep: Seq<Tok> = match root.children@[i as int] {
                Element::Token(_) => Seq::empty(),
                Element::Node(m) => doc_toks(m),
            };
            proof {
                lemma_grows_refl(o_i);
            }
            match &root.children[i] {
                Element::Token(t) => {
                    if t.kind != SyntaxKind::Whitespace && t.role == TokenRole::Trivia {
                        if self.plan.dangles(root.id, t.id) {
                            let gap = self.break_between(self.prev_element, t.id);
                            self.comment(out, t, gap);
                        }
                    }
                },
                Element::Node(n) => {
                    let gap = self.break_between(self.prev_element, n.id);
                    self.woven_node(out, n, gap);
                    proof {
                        assert(statement_break(gap));
                        assert(gaps_fit(
                            *n,
                            gap,
                            ss0.bracket_depth,
                            self.gaps@.subrange(gs0.len() as int, self.gaps@.len() as int),
                        ));
                        lemma_depth_after_indep(*n, gap, Gap::Nothing, ss0.bracket_depth);
                    }
                },
            }
            proof {
                lemma_spellings_empty(self.preserve);
                lemma_step(old(out)@, o_i, out@, program_doc(*root, i as int), dstep, self.preserve);
                assert(program_doc(*root, i as int + 1) =~= program_doc(*root, i as int) + dstep);
                assert(program_seq(*root, i as int + 1) =~= program_seq(*root, i as int) + step);
                assert(self.log@ =~= start + program_seq(*root, i as int + 1));
                assert(kept(ss0, *self));
                assert(kept(*old(self), *self));
                lemma_program_step(*root, old(self).gaps@.len() as int, gs0, self.gaps@, i as int);
            }
            i = i + 1;
        }
    }

    /// Lower one node under the incoming `gap`, dispatching on its kind to
    /// the house style it earns.
    fn node(&mut self, out: &mut Vec<Doc>, node: &Node, gap: Gap)
        ensures
            final(self).preserve == old(self).preserve,
            final(self).log@ == old(self).log@ + walk_toks(*node),
            kept(*old(self), *final(self)),
            grows(old(out)@, final(out)@, spellings(doc_toks(*node), old(self).preserve)),
            (node.kind == SyntaxKind::Rule || node.kind == SyntaxKind::WeakConstraint) && has_body_upto(
                *node,
                node.children@.len() as int,
            ) ==> final(out)@.len() > 0 && rule_group(final(out)@.last()),
            is_aggregate_kind(node.kind) ==> braces_kept(*node, final(out)@, old(self).preserve),
            gaps_fit(
                *node,
                gap,
                old(self).bracket_depth,
                final(self).gaps@.subrange(old(self).gaps@.len() as int, final(self).gaps@.len() as int),
            ),
            final(self).bracket_depth == depth_after(*node, gap, old(self).bracket_depth),
        decreases node, 2nat,
    {
        match node.kind {
            SyntaxKind::Rule | SyntaxKind::WeakConstraint => self.rule(out, node, gap),
            SyntaxKind::Body => self.body(out, node, gap),
            SyntaxKind::Disjunction | SyntaxKind::Comparison | SyntaxKind::Guard
            | SyntaxKind::TheoryGuard => self.children(out, node, gap, Gap::Space),
            SyntaxKind::FunctionAggregate | SyntaxKind::SetAggregate
            | SyntaxKind::OptimizeStatement | SyntaxKind::TheoryDefinition
            | SyntaxKind::TermDefinition | SyntaxKind::TheoryElements => self.aggregate(
                out,
                node,
                gap,
            ),
            SyntaxKind::Condition | SyntaxKind::BodyAggregateElement
            | SyntaxKind::HeadAggregateElement | SyntaxKind::OptimizeElement | SyntaxKind::Edge
            | SyntaxKind::TheoryElement | SyntaxKind::OpDefinition
            | SyntaxKind::AtomDefinition => self.spaced_list(out, node, gap),
            SyntaxKind::ShowStatement | SyntaxKind::ProgramStatement
            | SyntaxKind::ConstStatement | SyntaxKind::ExternalStatement
            | SyntaxKind::EdgeStatement | SyntaxKind::ProjectStatement
            | SyntaxKind::DefinedStatement | SyntaxKind::IncludeStatement
            | SyntaxKind::HeuristicStatement => self.directive(out, node, gap),
            SyntaxKind::ScriptStatement => self.script(out, node, gap),
            SyntaxKind::Arguments | SyntaxKind::Annotation | SyntaxKind::BinaryTerm
            | SyntaxKind::UnaryTerm | SyntaxKind::Pool | SyntaxKind::Tuple
            | SyntaxKind::FunctionTerm | SyntaxKind::ExternalTerm | SyntaxKind::AbsTerm
            | SyntaxKind::ConstantTerm | SyntaxKind::VariableTerm | SyntaxKind::SpliceTerm
            | SyntaxKind::TheorySet | SyntaxKind::TheoryList | SyntaxKind::TheoryTuple
            | SyntaxKind::TheoryFunction | SyntaxKind::TheoryOpterm => {
                let ghost d0 = self.bracket_depth;
                let doc = self.term(node, gap);
                push_doc(out, doc);
                proof {
                    let r = term_run(*node, node.children@.len() as int, gap, d0);
                    assert(self.gaps@.subrange(old(self).gaps@.len() as int, self.gaps@.len() as int) =~= r.0);
                    lemma_grows_weaken(
                        old(out)@,
                        out@,
                        texts(doc),
                        spellings(term_doc(*node), self.preserve),
                    );
                }
            },
            SyntaxKind::TheoryAtom => self.theory_atom(out, node, gap),
            _ => self.children(out, node, gap, Gap::Tight),
        }
        proof {
            if !is_term_kind(node.kind) {
                assert(walk_toks(*node) == walk_seq(*node, node.children@.len() as int));
                lemma_fit_close(*node, old(self).gaps@.len() as int, self.gaps@, gap, old(self).bracket_depth);
            }
        }
    }

    /// Emit one significant child under `gap`: a token by its spelling, a
    /// node by its house style.
    fn emit_child(&mut self, out: &mut Vec<Doc>, child: &Element, gap: Gap)
        ensures
            final(self).preserve == old(self).preserve,
            final(self).log@ == old(self).log@ + child_toks(*child),
            kept(*old(self), *final(self)),
            child is Token ==> final(self).gaps@ == old(self).gaps@.push(gap),
            grows(old(out)@, final(out)@, spellings(child_doc(*child), old(self).preserve)),
            child matches Element::Node(m) ==> gaps_fit(
                *m,
                gap,
                old(self).bracket_depth,
                final(self).gaps@.subrange(old(self).gaps@.len() as int, final(self).gaps@.len() as int),
            ) && final(self).bracket_depth == depth_after(*m, gap, old(self).bracket_depth),
            child is Token ==> final(self).bracket_depth == old(self).bracket_depth,
        decreases child, 1nat,
    {
        match child {
            Element::Token(t) => {
                self.tok(out, t, gap);
                proof {
                    assert(self.log@ =~= old(self).log@ + seq![*t]);
                    lemma_spellings_one(*t, self.preserve);
                }
            },
            Element::Node(n) => self.node(out, n, gap),
        }
    }

    /// A rule or weak constraint: the head and neck, then the body (its
    /// terminating dot folded in so the fit counts it) nested one level,
    /// all one group. When the rule does not fit the neck breaks and the
    /// body drops to its own indented line.
    #[verifier::rlimit(50)]
    fn rule(&mut self, out: &mut Vec<Doc>, node: &Node, first_gap: Gap)
        requires
            node.kind == SyntaxKind::Rule || node.kind == SyntaxKind::WeakConstraint,
            node.kind != SyntaxKind::ScriptStatement,
        ensures
            final(self).preserve == old(self).preserve,
            final(self).log@ == old(self).log@ + walk_seq(*node, node.children@.len() as int),
            kept(*old(self), *final(self)),
            ({
                let f = rule_fold(*node, node.children@.len() as int);
                grows(old(out)@, final(out)@, spellings(f.0 + f.1 + f.2, old(self).preserve))
            }),
            has_body_upto(*node, node.children@.len() as int) ==> final(out)@.len() > 0
                && rule_group(final(out)@.last()),
            rule_gaps_upto(
                *node,
                first_gap,
                old(self).gaps@.len() as int,
                final(self).gaps@,
                node.children@.len() as int,
            ),
            fits_upto(
                *node,
                first_gap,
                old(self).bracket_depth,
                old(self).gaps@.len() as int,
                final(self).gaps@,
                node.children@.len() as int,
            ),
            final(self).bracket_depth == depth_run(
                *node,
                node.children@.len() as int,
                first_gap,
                old(self).bracket_depth,
            ),
        decreases node, 0nat,
    {
        let mut first = true;
        let mut head: Vec<Doc> = Vec::new();
        let mut tail: Vec<Doc> = Vec::new();
        let mut in_tail = false;
        let mut seen_neck = false;
        let mut head_seen = false;
        let mut i: usize = 0;
        let ghost start = self.log@;
        let ghost p = self.preserve;
        proof {
            lemma_grows_refl(out@);
            lemma_grows_refl(head@);
            lemma_grows_refl(tail@);
            lemma_spellings_empty(p);
        }
        while i < node.children.len()
            invariant
                self.log@ == start + walk_seq(*node, i as int),
                fits_upto(*node, first_gap, old(self).bracket_depth, old(self).gaps@.len() as int, self.gaps@, i as int),
                self.bracket_depth == depth_run(*node, i as int, first_gap, old(self).bracket_depth),
                node.kind == SyntaxKind::Rule || node.kind == SyntaxKind::WeakConstraint,
                kept(*old(self), *self),
                self.preserve == old(self).preserve,
                p == old(self).preserve,
                node.kind != SyntaxKind::ScriptStatement,
                i <= node.children@.len(),
                grows(old(out)@, out@, spellings(rule_fold(*node, i as int).0, p)),
                grows(Seq::empty(), head@, spellings(rule_fold(*node, i as int).1, p)),
                grows(Seq::empty(), tail@, spellings(rule_fold(*node, i as int).2, p)),
                in_tail == rule_fold(*node, i as int).3,
                !in_tail ==> rule_fold(*node, i as int).2 =~= Seq::<Tok>::empty(),
                in_tail == has_body_upto(*node, i as int),
                start == old(self).log@,
                first == !counted_before(*node, i as int),
                rule_gaps_upto(*node, first_gap, old(self).gaps@.len() as int, self.gaps@, i as int),
            decreases node.children.len() - i,
        {
            let ghost o_i = out@;
            let ghost h_i = head@;
            let ghost t_i = tail@;
            let ghost f0 = rule_fold(*node, i as int);
            let ghost gs0 = self.gaps@;
            let ghost ss0 = *self;
            let ghost entry = entry_gap(*node, first_gap, i as int);
            assert(node.children@[i as int] is Node ==> entry == (if elem_kind(node.children@[i as int]) == SyntaxKind::Body {
                    Gap::Soft
                } else if elem_kind(node.children@[i as int]) == SyntaxKind::Annotation {
                    Gap::Space
                } else if first {
                    first_gap
                } else {
                    Gap::Tight
                })) by {
                reveal(entry_gap);
            }
            let ghost step = walk_step(*node, node.children@[i as int]);
            let ghost mut d_out: Seq<Tok> = Seq::empty();
            let ghost mut d_head: Seq<Tok> = Seq::empty();
            let ghost mut d_tail: Seq<Tok> = Seq::empty();
            proof {
                lemma_grows_refl(o_i);
                lemma_grows_refl(h_i);
                lemma_grows_refl(t_i);
                lemma_spellings_empty(p);
            }
            match &node.children[i] {
                Element::Token(t) => {
                    if t.kind == SyntaxKind::Whitespace {
                    } else if t.role == TokenRole::Documentation {
                        self.doc_line(out, t, if first { first_gap } else { Gap::Hard });
                        first = false;
                        proof {
                            d_out = seq![as_written(*t)];
                        }
                    } else if t.role == TokenRole::Trivia {
                        if in_tail {
                            if self.plan.dangles(node.id, t.id) {
                                let gap = self.break_before(t.id);
                                self.comment(&mut tail, t, gap);
                            }
                        } else if seen_neck {
                            self.weave_dangling(&mut tail, node.id, t);
                        } else if !head_seen {
                            self.weave_in_place(out, t);
                        } else {
                            self.weave_dangling(&mut head, node.id, t);
                        }
                    } else if t.kind == SyntaxKind::Dot && in_tail {
                        self.woven_tok(&mut tail, t, Gap::Tight);
                        proof {
                            d_tail = seq![*t];
                        }
                    } else {
                        let neck = t.kind == SyntaxKind::Neck || t.kind == SyntaxKind::WeakNeck;
                        let gap = if first {
                            first_gap
                        } else if neck {
                            Gap::Space
                        } else {
                            Gap::Tight
                        };
                        self.woven_tok(&mut head, t, gap);
                        proof {
                            d_head = seq![*t];
                        }
                        seen_neck = seen_neck || neck;
                        head_seen = true;
                        first = false;
                    }
                },
                Element::Node(inner) => {
                    head_seen = true;
                    if inner.kind == SyntaxKind::Body {
                        let ghost t0 = tail@;
                        self.weave_leading(&mut tail, inner.id);
                        let ghost t1 = tail@;
                        self.body_inner(&mut tail, inner, Gap::Soft);
                        let ghost t2 = tail@;
                        proof {
                            assert(walk_toks(*inner) == walk_seq(
                                *inner,
                                inner.children@.len() as int,
                            ));
                            assert(doc_toks(*inner) == doc_seq(*inner, inner.children@.len() as int));
                        }
                        self.weave_trailing(&mut tail, inner.id);
                        proof {
                            lemma_fit_close(*inner, gs0.len() as int, self.gaps@, Gap::Soft, ss0.bracket_depth);
                            assert(self.bracket_depth == depth_after(*inner, Gap::Soft, ss0.bracket_depth));
                            let m = spellings(doc_toks(*inner), p);
                            lemma_grows_trans(t0, t1, t2, Seq::empty(), m);
                            lemma_grows_trans(t0, t2, tail@, m, Seq::empty());
                            d_tail = doc_toks(*inner);
                        }
                        in_tail = true;
                    } else if inner.kind == SyntaxKind::Annotation {
                        if in_tail {
                            self.woven_node(&mut tail, inner, Gap::Space);
                            proof {
                                d_tail = doc_toks(*inner);
                            }
                        } else {
                            self.woven_node(&mut head, inner, Gap::Space);
                            proof {
                                d_head = doc_toks(*inner);
                            }
                        }
                    } else {
                        self.woven_node(&mut head, inner, if first { first_gap } else { Gap::Tight });
                        proof {
                            d_head = doc_toks(*inner);
                        }
                    }
                    first = false;
                },
            }
            proof {
                let f1 = rule_fold(*node, i + 1);
                assert(f1.0 =~= f0.0 + d_out);
                assert(f1.1 =~= f0.1 + d_head);
                assert(f1.2 =~= f0.2 + d_tail);
                lemma_step(old(out)@, o_i, out@, f0.0, d_out, p);
                lemma_step(Seq::empty(), h_i, head@, f0.1, d_head, p);
                lemma_step(Seq::empty(), t_i, tail@, f0.2, d_tail, p);
                assert(walk_seq(*node, i as int + 1) =~= walk_seq(*node, i as int) + step);
                if is_body_child(node.children@[i as int]) {
                    assert(has_body_upto(*node, i + 1));
                } else {
                    assert(has_body_upto(*node, i + 1) == has_body_upto(*node, i as int)) by {
                        if has_body_upto(*node, i + 1) {
                            let j = choose|j: int| 0 <= j < i + 1 && is_body_child(#[trigger] node.children@[j]);
                            assert(j != i);
                        }
                    }
                }
                assert(self.log@ =~= start + walk_seq(*node, i as int + 1));
                assert(kept(ss0, *self));
                assert(kept(*old(self), *self));
                assert(child_depth(*node, i as int, ss0.bracket_depth) == ss0.bracket_depth);
                assert(depth_run(*node, i + 1, first_gap, old(self).bracket_depth) == match node.children@[i as int] {
                    Element::Node(m) => depth_after(m, entry, ss0.bracket_depth),
                    Element::Token(_) => ss0.bracket_depth,
                });
                lemma_fit_step(*node, first_gap, old(self).bracket_depth, old(self).gaps@.len() as int, gs0, self.gaps@, i as int);
                assert(counted_before(*node, i + 1) == (counted_before(*node, i as int) || counts(
                    node.children@[i as int],
                ))) by {
                    if counted_before(*node, i + 1) {
                        let k = choose|k: int| 0 <= k < i + 1 && counts(#[trigger] node.children@[k]);
                        if k < i {
                            assert(counted_before(*node, i as int));
                        }
                    }
                    if counts(node.children@[i as int]) {
                        assert(counts(node.children@[i as int]));
                    }
                }
                assert(kept(ss0, *self));
                assert(gs0.len() == old(self).gaps@.len() + walk_seq(*node, i as int).len());
                assert forall|j: int| 0 <= j < i + 1 implies #[trigger] rule_gap_at(
                    *node,
                    first_gap,
                    old(self).gaps@.len() as int,
                    self.gaps@,
                    j,
                ) by {
                    if j < i {
                        assert(rule_gap_at(*node, first_gap, old(self).gaps@.len() as int, gs0, j));
                    }
                }
            }
            i = i + 1;
        }
        let ghost fin = rule_fold(*node, node.children@.len() as int);
        let ghost o0 = out@;
        proof {
            lemma_spellings_append(fin.0, fin.1, p);
            lemma_spellings_append(fin.0 + fin.1, fin.2, p);
        }
        if in_tail {
            let ghost h0 = head@;
            let ghost t0 = tail@;
            let ghost tv = tail;
            let body = Doc::Concat(tail);
            proof {
                assert(texts(body) == texts_seq(t0));
            }
            let nested = Doc::Nest(Box::new(body));
            proof {
                assert(texts(nested) == texts(body));
            }
            push_doc(&mut head, nested);
            let group = as_group(head);
            let ghost g = group;
            push_doc(out, group);
            proof {
                assert(nested == Doc::Nest(Box::new(Doc::Concat(tv))));
                assert(is_group_of(h0.push(Doc::Nest(Box::new(Doc::Concat(tv)))), g));
                assert(out@.last() == g);
                lemma_grows_then(texts_seq(old(out)@) + spellings(fin.0, p), texts_seq(o0), h0, spellings(fin.1, p));
                lemma_grows_then(
                    texts_seq(old(out)@) + spellings(fin.0, p) + spellings(fin.1, p),
                    texts_seq(o0) + texts_seq(h0),
                    t0,
                    spellings(fin.2, p),
                );
                assert(texts_seq(h0.push(nested)) == texts_seq(h0) + texts(nested));
                assert(texts_seq(out@) =~= texts_seq(o0) + texts_seq(h0) + texts_seq(t0));
                assert(texts_seq(old(out)@) + spellings(fin.0 + fin.1 + fin.2, p) =~= texts_seq(old(out)@)
                    + spellings(fin.0, p) + spellings(fin.1, p) + spellings(fin.2, p));
            }
        } else {
            let ghost h0 = head@;
            out.append(&mut head);
            proof {
                assert(out@ =~= o0 + h0);
                lemma_texts_seq_append(o0, h0);
                lemma_grows_then(texts_seq(old(out)@) + spellings(fin.0, p), texts_seq(o0), h0, spellings(fin.1, p));
                lemma_spellings_empty(p);
                assert(spellings(fin.2, p) =~= Seq::<Seq<char>>::empty());
                assert(texts_seq(old(out)@) + spellings(fin.0 + fin.1 + fin.2, p) =~= texts_seq(old(out)@)
                    + spellings(fin.0, p) + spellings(fin.1, p));
            }
        }
    }

    /// A body-list as a group: flat when it fits, the neck on the head's
    /// line then one element per line indented one level when it does not.
    fn body(&mut self, out: &mut Vec<Doc>, node: &Node, first_gap: Gap)
        requires
            node.kind == SyntaxKind::Body,
        ensures
            final(self).preserve == old(self).preserve,
            final(self).log@ == old(self).log@ + walk_seq(*node, node.children@.len() as int),
            kept(*old(self), *final(self)),
            grows(
                old(out)@,
                final(out)@,
                spellings(doc_seq(*node, node.children@.len() as int), old(self).preserve),
            ),
            fits_upto(
                *node,
                first_gap,
                old(self).bracket_depth,
                old(self).gaps@.len() as int,
                final(self).gaps@,
                node.children@.len() as int,
            ),
            final(self).bracket_depth == depth_run(
                *node,
                node.children@.len() as int,
                first_gap,
                old(self).bracket_depth,
            ),
            seq_gaps_upto(*node, first_gap, old(self).gaps@.len() as int, final(self).gaps@, node.children@.len() as int),
        decreases node, 1nat,
    {
        let mut inner: Vec<Doc> = Vec::new();
        let ghost total = spellings(doc_seq(*node, node.children@.len() as int), self.preserve);
        let ghost o0 = out@;
        self.body_inner(&mut inner, node, first_gap);
        proof {
            lemma_grows_base(inner@, total);
            lemma_grows_refl(o0);
        }
        if inner.len() > 0 {
            let group = group_nest(inner);
            push_doc(out, group);
            proof {
                lemma_grows_weaken(o0, out@, texts(group), total);
            }
        } else {
            proof {
                assert(texts_seq(inner@) == Seq::<Seq<char>>::empty());
                if total.len() > 0 {
                    let f = choose|f: spec_fn(int) -> int| places(f, total, texts_seq(inner@));
                    assert(0 <= f(0) < texts_seq(inner@).len());
                }
                assert(total =~= Seq::<Seq<char>>::empty());
                assert(out@ == o0);
                assert(texts_seq(o0) + total =~= texts_seq(o0));
            }
        }
    }

    /// A body's elements, each break soft, the separators hugging the
    /// element they follow — not wrapped in a group, so a rule can fold its
    /// dot into the group its fit counts.
    fn body_inner(&mut self, inner: &mut Vec<Doc>, node: &Node, first_gap: Gap)
        requires
            node.kind == SyntaxKind::Body,
        ensures
            final(self).preserve == old(self).preserve,
            final(self).log@ == old(self).log@ + walk_seq(*node, node.children@.len() as int),
            kept(*old(self), *final(self)),
            grows(
                old(inner)@,
                final(inner)@,
                spellings(doc_seq(*node, node.children@.len() as int), old(self).preserve),
            ),
            fits_upto(
                *node,
                first_gap,
                old(self).bracket_depth,
                old(self).gaps@.len() as int,
                final(self).gaps@,
                node.children@.len() as int,
            ),
            final(self).bracket_depth == depth_run(
                *node,
                node.children@.len() as int,
                first_gap,
                old(self).bracket_depth,
            ),
            seq_gaps_upto(*node, first_gap, old(self).gaps@.len() as int, final(self).gaps@, node.children@.len() as int),
        decreases node, 0nat,
    {
        let mut gap = first_gap;
        let mut i: usize = 0;
        let ghost start = self.log@;
        proof {
            lemma_grows_refl(inner@);
            lemma_spellings_empty(self.preserve);
        }
        while i < node.children.len()
            invariant
                self.log@ == start + walk_seq(*node, i as int),
                fits_upto(*node, first_gap, old(self).bracket_depth, old(self).gaps@.len() as int, self.gaps@, i as int),
                self.bracket_depth == depth_run(*node, i as int, first_gap, old(self).bracket_depth),
                start == old(self).log@,
                gap == seq_state(*node, i as int, first_gap).0,
                node.kind == SyntaxKind::Body,
                seq_gaps_upto(*node, first_gap, old(self).gaps@.len() as int, self.gaps@, i as int),
                kept(*old(self), *self),
                self.preserve == old(self).preserve,
                node.kind != SyntaxKind::ScriptStatement,
                i <= node.children@.len(),
                grows(old(inner)@, inner@, spellings(doc_seq(*node, i as int), old(self).preserve)),
            decreases node.children.len() - i,
        {
            let ghost o_i = inner@;
            let ghost gs0 = self.gaps@;
            let ghost ss0 = *self;
            let ghost entry = entry_gap(*node, first_gap, i as int);
            assert(node.children@[i as int] is Node ==> entry == (gap)) by {
                reveal(entry_gap);
            }
            let ghost step = walk_step(*node, node.children@[i as int]);
            let ghost dstep = doc_step(*node, node.children@[i as int]);
            proof {
                lemma_grows_refl(o_i);
                lemma_spellings_empty(self.preserve);
            }
            match &node.children[i] {
                Element::Token(t) => {
                    if t.kind == SyntaxKind::Whitespace {
                    } else if t.role == TokenRole::Documentation {
                        self.doc_line(inner, t, gap);
                        gap = Gap::Soft;
                    } else if t.role == TokenRole::Trivia {
                        self.weave_dangling(inner, node.id, t);
                    } else {
                        self.woven_tok(inner, t, Gap::Tight);
                        gap = Gap::Soft;
                    }
                },
                Element::Node(n) => {
                    self.woven_node(inner, n, gap);
                    gap = Gap::Soft;
                },
            }
            proof {
                lemma_step(old(inner)@, o_i, inner@, doc_seq(*node, i as int), dstep, self.preserve);
                assert(doc_seq(*node, i as int + 1) =~= doc_seq(*node, i as int) + dstep);
                assert(walk_seq(*node, i as int + 1) =~= walk_seq(*node, i as int) + step);
                assert(self.log@ =~= start + walk_seq(*node, i as int + 1));
                assert(gs0.len() == old(self).gaps@.len() + walk_seq(*node, i as int).len());
                assert forall|j: int| 0 <= j < i + 1 implies #[trigger] seq_gap_at(
                    *node,
                    first_gap,
                    old(self).gaps@.len() as int,
                    self.gaps@,
                    j,
                ) by {
                    if j < i {
                        assert(seq_gap_at(*node, first_gap, old(self).gaps@.len() as int, gs0, j));
                    }
                }
                assert(kept(ss0, *self));
                assert(kept(*old(self), *self));
                lemma_fit_step(*node, first_gap, old(self).bracket_depth, old(self).gaps@.len() as int, gs0, self.gaps@, i as int);
            }
            i = i + 1;
        }
    }

    /// Walk a node's children under one `between` gap: `Space` for the
    /// chains it spaces, `Tight` for the faithful fallback. A condition
    /// colon is spaced on both sides.
    fn children(&mut self, out: &mut Vec<Doc>, node: &Node, first_gap: Gap, between: Gap)
        requires
            !is_spaced_list(node.kind) && !is_directive(node.kind) && node.kind != SyntaxKind::TheoryAtom
                && node.kind != SyntaxKind::Body,
            node.kind != SyntaxKind::ScriptStatement,
            between == children_between(node.kind),
            !(node.kind == SyntaxKind::Rule || node.kind == SyntaxKind::WeakConstraint)
                && !is_aggregate_kind(node.kind),
        ensures
            final(self).preserve == old(self).preserve,
            final(self).log@ == old(self).log@ + walk_seq(*node, node.children@.len() as int),
            kept(*old(self), *final(self)),
            grows(
                old(out)@,
                final(out)@,
                spellings(doc_seq(*node, node.children@.len() as int), old(self).preserve),
            ),
            fits_upto(
                *node,
                first_gap,
                old(self).bracket_depth,
                old(self).gaps@.len() as int,
                final(self).gaps@,
                node.children@.len() as int,
            ),
            final(self).bracket_depth == depth_run(
                *node,
                node.children@.len() as int,
                first_gap,
                old(self).bracket_depth,
            ),
            seq_gaps_upto(*node, first_gap, old(self).gaps@.len() as int, final(self).gaps@, node.children@.len() as int),
        decreases node, 0nat,
    {
        let mut gap = first_gap;
        let mut head_seen = false;
        let mut i: usize = 0;
        let ghost start = self.log@;
        proof {
            lemma_grows_refl(out@);
            lemma_spellings_empty(self.preserve);
        }
        while i < node.children.len()
            invariant
                self.log@ == start + walk_seq(*node, i as int),
                fits_upto(*node, first_gap, old(self).bracket_depth, old(self).gaps@.len() as int, self.gaps@, i as int),
                self.bracket_depth == depth_run(*node, i as int, first_gap, old(self).bracket_depth),
                start == old(self).log@,
                gap == seq_state(*node, i as int, first_gap).0,
                between == children_between(node.kind),
                !(node.kind == SyntaxKind::Rule || node.kind == SyntaxKind::WeakConstraint)
                    && !is_aggregate_kind(node.kind),
                seq_gaps_upto(*node, first_gap, old(self).gaps@.len() as int, self.gaps@, i as int),
                !is_spaced_list(node.kind) && !is_directive(node.kind) && node.kind != SyntaxKind::TheoryAtom
                    && node.kind != SyntaxKind::Body,
                kept(*old(self), *self),
                self.preserve == old(self).preserve,
                node.kind != SyntaxKind::ScriptStatement,
                i <= node.children@.len(),
                grows(old(out)@, out@, spellings(doc_seq(*node, i as int), old(self).preserve)),
            decreases node.children.len() - i,
        {
            let ghost o_i = out@;
            let ghost gs0 = self.gaps@;
            let ghost ss0 = *self;
            let ghost entry = entry_gap(*node, first_gap, i as int);
            assert(node.children@[i as int] is Node ==> entry == (gap)) by {
                reveal(entry_gap);
            }
            let ghost step = walk_step(*node, node.children@[i as int]);
            let ghost dstep = doc_step(*node, node.children@[i as int]);
            proof {
                lemma_grows_refl(o_i);
                lemma_spellings_empty(self.preserve);
            }
            match &node.children[i] {
                Element::Token(t) => {
                    if t.kind == SyntaxKind::Whitespace {
                    } else if t.role == TokenRole::Documentation {
                        self.doc_line(out, t, gap);
                        gap = between;
                    } else if t.role == TokenRole::Trivia {
                        self.weave_statement_trivia(out, node.id, t, !head_seen);
                    } else {
                        let colon = t.kind == SyntaxKind::Colon;
                        self.woven_tok(out, t, if colon { Gap::Space } else { gap });
                        head_seen = true;
                        gap = if colon {
                            Gap::Space
                        } else {
                            between
                        };
                    }
                },
                Element::Node(n) => {
                    head_seen = true;
                    self.woven_node(out, n, gap);
                    gap = between;
                },
            }
            proof {
                lemma_step(old(out)@, o_i, out@, doc_seq(*node, i as int), dstep, self.preserve);
                assert(doc_seq(*node, i as int + 1) =~= doc_seq(*node, i as int) + dstep);
                assert(walk_seq(*node, i as int + 1) =~= walk_seq(*node, i as int) + step);
                assert(self.log@ =~= start + walk_seq(*node, i as int + 1));
                assert(gs0.len() == old(self).gaps@.len() + walk_seq(*node, i as int).len());
                assert forall|j: int| 0 <= j < i + 1 implies #[trigger] seq_gap_at(
                    *node,
                    first_gap,
                    old(self).gaps@.len() as int,
                    self.gaps@,
                    j,
                ) by {
                    if j < i {
                        assert(seq_gap_at(*node, first_gap, old(self).gaps@.len() as int, gs0, j));
                    }
                }
                assert(kept(ss0, *self));
                assert(kept(*old(self), *self));
                lemma_fit_step(*node, first_gap, old(self).bracket_depth, old(self).gaps@.len() as int, gs0, self.gaps@, i as int);
            }
            i = i + 1;
        }
    }

    /// A term-rooted or argument-list subtree: a frame per node accumulates
    /// its lowered children; a bracket frame wraps its interior in a group
    /// that hugs its brackets and explodes one element per line when it
    /// does not fit, a flat frame concatenates. Separator and operator
    /// spacing follow the bracket depth, which the bracket frames raise as
    /// they open and lower as they close.
    #[verifier::rlimit(50)]
    fn term(&mut self, node: &Node, gap: Gap) -> (d: Doc)
        ensures
            final(self).preserve == old(self).preserve,
            final(self).log@ == old(self).log@ + term_toks(*node),
            kept(*old(self), *final(self)),
            embeds(spellings(term_doc(*node), old(self).preserve), texts(d)),
            final(self).gaps@ == old(self).gaps@ + term_run(
                *node,
                node.children@.len() as int,
                gap,
                old(self).bracket_depth,
            ).0,
            final(self).bracket_depth == term_run(
                *node,
                node.children@.len() as int,
                gap,
                old(self).bracket_depth,
            ).2,
        decreases node,
    {
        let mut frame = Frame {
            kind: node.kind,
            id: node.id,
            gap,
            open: Vec::new(),
            interior: Vec::new(),
            close: Vec::new(),
            opened: false,
        };
        let mut i: usize = 0;
        let ghost start = self.log@;
        let ghost p = self.preserve;
        proof {
            lemma_grows_refl(frame.open@);
            lemma_spellings_empty(self.preserve);
        }
        while i < node.children.len()
            invariant
                self.log@ == start + term_seq(*node, i as int),
                kept(*old(self), *self),
                self.preserve == old(self).preserve,
                p == old(self).preserve,
                i <= node.children@.len(),
                frame.kind == node.kind,
                frame.id == node.id,
                frame_ok(frame),
                frame.opened == term_fold(*node, i as int).3,
                self.gaps@ == old(self).gaps@ + term_run(*node, i as int, gap, old(self).bracket_depth).0,
                frame.gap == term_run(*node, i as int, gap, old(self).bracket_depth).1,
                self.bracket_depth == term_run(*node, i as int, gap, old(self).bracket_depth).2,
                frame.opened == term_run(*node, i as int, gap, old(self).bracket_depth).3,
                grows(Seq::empty(), frame.open@, spellings(term_fold(*node, i as int).0, p)),
                grows(Seq::empty(), frame.interior@, spellings(term_fold(*node, i as int).1, p)),
                grows(Seq::empty(), frame.close@, spellings(term_fold(*node, i as int).2, p)),
            decreases node.children.len() - i,
        {
            let ghost step = term_step(node.children@[i as int]);
            let ghost f0 = term_fold(*node, i as int);
            let ghost r0 = term_run(*node, i as int, gap, old(self).bracket_depth);
            let ghost gs0 = self.gaps@;
            let ghost o = frame.open@;
            let ghost c = frame.close@;
            let ghost i0 = frame.interior@;
            let ghost mut d_open: Seq<Tok> = Seq::empty();
            let ghost mut d_int: Seq<Tok> = Seq::empty();
            let ghost mut d_close: Seq<Tok> = Seq::empty();
            proof {
                lemma_grows_refl(o);
                lemma_grows_refl(c);
                lemma_grows_refl(i0);
                lemma_spellings_empty(p);
            }
            match &node.children[i] {
                Element::Token(t) => {
                    if t.kind == SyntaxKind::Whitespace {
                    } else if t.role == TokenRole::Documentation {
                        let g = frame.gap;
                        self.doc_line(&mut frame.interior, t, g);
                        frame.gap = element_gap(frame.kind, self.bracket_depth);
                        proof {
                            d_int = seq![as_written(*t)];
                        }
                    } else if t.role == TokenRole::Trivia {
                        if self.plan.dangles(frame.id, t.id) {
                            let g = self.break_before(t.id);
                            self.comment(&mut frame.interior, t, g);
                        }
                    } else {
                        let ghost fr = frame;
                        self.term_token(&mut frame, t);
                        proof {
                            if to_open(fr.kind, fr.opened) {
                                d_open = seq![*t];
                            } else if to_close(fr.kind, fr.opened, *t) {
                                d_close = seq![*t];
                            } else {
                                d_int = seq![*t];
                            }
                        }
                    }
                },
                Element::Node(inner) => {
                    self.weave_leading(&mut frame.interior, inner.id);
                    let ghost i1 = frame.interior@;
                    let doc = self.term(inner, frame.gap);
                    push_doc(&mut frame.interior, doc);
                    let ghost i2 = frame.interior@;
                    self.weave_trailing(&mut frame.interior, inner.id);
                    frame.gap = element_gap(frame.kind, self.bracket_depth);
                    proof {
                        let m = spellings(term_doc(*inner), p);
                        lemma_grows_weaken(i1, i2, texts(doc), m);
                        lemma_grows_trans(i0, i1, i2, Seq::empty(), m);
                        lemma_grows_trans(i0, i2, frame.interior@, m, Seq::empty());
                        d_int = term_doc(*inner);
                    }
                },
            }
            proof {
                let f1 = term_fold(*node, i + 1);
                assert(f1.0 =~= f0.0 + d_open);
                assert(f1.1 =~= f0.1 + d_int);
                assert(f1.2 =~= f0.2 + d_close);
                lemma_step(Seq::empty(), o, frame.open@, f0.0, d_open, p);
                lemma_step(Seq::empty(), i0, frame.interior@, f0.1, d_int, p);
                lemma_step(Seq::empty(), c, frame.close@, f0.2, d_close, p);
                assert(term_seq(*node, i as int + 1) =~= term_seq(*node, i as int) + step);
                assert(self.log@ =~= start + term_seq(*node, i as int + 1));
                let r1 = term_run(*node, i + 1, gap, old(self).bracket_depth);
                assert(gs0 == old(self).gaps@ + r0.0);
                assert(self.gaps@ =~= old(self).gaps@ + r1.0);
            }
            i = i + 1;
        }
        let ghost fin = term_fold(*node, node.children@.len() as int);
        let ghost o = frame.open@;
        let ghost n = frame.interior@;
        let ghost c = frame.close@;
        let d = finish(frame);
        proof {
            lemma_embeds_empty(Seq::<Seq<char>>::empty());
            lemma_grows_then(Seq::empty(), Seq::empty(), o, spellings(fin.0, p));
            lemma_grows_then(spellings(fin.0, p), texts_seq(o), n, spellings(fin.1, p));
            lemma_grows_then(spellings(fin.0, p) + spellings(fin.1, p), texts_seq(o) + texts_seq(n), c, spellings(fin.2, p));
            lemma_spellings_append(fin.0, fin.1, p);
            lemma_spellings_append(fin.0 + fin.1, fin.2, p);
            lemma_texts_seq_append(o, n);
            lemma_texts_seq_append(o + n, c);
            assert(Seq::<Seq<char>>::empty() + spellings(fin.0, p) =~= spellings(fin.0, p));
            assert(Seq::<Seq<char>>::empty() + texts_seq(o) =~= texts_seq(o));
        }
        d
    }

    /// Emit one significant token within `frame`: an open or close bracket
    /// into the frame's own slots; a `,`/`;` separator hugging the element
    /// it follows, its own break carried after it; or a leaf or operator
    /// token into the interior under the frame's running gap.
    fn term_token(&mut self, frame: &mut Frame, token: &Tok)
        requires
            frame_ok(*old(frame)),
        ensures
            final(self).preserve == old(self).preserve,
            final(self).log@ == old(self).log@.push(*token),
            kept(*old(self), *final(self)),
            final(frame).kind == old(frame).kind,
            final(frame).id == old(frame).id,
            frame_ok(*final(frame)),
            final(self).gaps@ == old(self).gaps@.push(
                term_asked(old(frame).kind, old(frame).opened, old(frame).gap, *token),
            ),
            final(self).bracket_depth == term_depth(
                old(frame).kind,
                old(frame).opened,
                *token,
                old(self).bracket_depth,
            ),
            final(frame).gap == term_next_gap(
                old(frame).kind,
                old(frame).opened,
                old(frame).gap,
                *token,
                final(self).bracket_depth as int,
            ),
            final(frame).opened == (old(frame).opened || (to_open(old(frame).kind, old(frame).opened)
                && token.kind == (bracket_pair(old(frame).kind)->0).0)),
            to_open(old(frame).kind, old(frame).opened) ==> {
                &&& grows(old(frame).open@, final(frame).open@, spellings(seq![*token], old(self).preserve))
                &&& final(frame).interior == old(frame).interior
                &&& final(frame).close == old(frame).close
            },
            to_close(old(frame).kind, old(frame).opened, *token) ==> {
                &&& grows(old(frame).close@, final(frame).close@, spellings(seq![*token], old(self).preserve))
                &&& final(frame).open == old(frame).open
                &&& final(frame).interior == old(frame).interior
            },
            !to_open(old(frame).kind, old(frame).opened) && !to_close(
                old(frame).kind,
                old(frame).opened,
                *token,
            ) ==> {
                &&& grows(
                    old(frame).interior@,
                    final(frame).interior@,
                    spellings(seq![*token], old(self).preserve),
                )
                &&& final(frame).open == old(frame).open
                &&& final(frame).close == old(frame).close
            },
    {
        let kind = frame.kind;
        let ghost o = frame.open@;
        let ghost n = frame.interior@;
        let ghost c = frame.close@;
        let ghost s = spellings(seq![*token], self.preserve);
        match brackets(kind) {
            Some((open, close)) => {
                if !frame.opened && token.kind != open {
                    let gap = frame.gap;
                    self.woven_tok(&mut frame.open, token, gap);
                    frame.gap = Gap::Tight;
                    return;
                }
                if !frame.opened && token.kind == open {
                    let gap = frame.gap;
                    self.woven_tok(&mut frame.open, token, gap);
                    frame.opened = true;
                    frame.gap = Gap::Tight;
                    self.bracket_depth = self.bracket_depth.saturating_add(1);
                    return;
                }
                if frame.opened && token.kind == close {
                    self.bracket_depth = self.bracket_depth.saturating_sub(1);
                    self.woven_tok(&mut frame.close, token, Gap::Tight);
                    return;
                }
            },
            None => {},
        }
        if is_list(kind) && (token.kind == SyntaxKind::Comma || token.kind == SyntaxKind::Semicolon) {
            self.woven_tok(&mut frame.interior, token, Gap::Tight);
            frame.gap = if self.bracket_depth <= 1 {
                Gap::Soft
            } else {
                Gap::Wrap
            };
            return;
        }
        let gap = frame.gap;
        self.woven_tok(&mut frame.interior, token, gap);
        frame.gap = element_gap(kind, self.bracket_depth);
    }

    /// An aggregate: a leading negation and the guards spaced, the keyword
    /// hugging its brace, the braces spaced inside, the elements
    /// `; `-separated, the whole exploding one element per line when it
    /// does not fit; a terminating dot folds into the group so its fit
    /// counts it, a right guard follows the group spaced.
    #[verifier::rlimit(50)]
    fn aggregate(&mut self, out: &mut Vec<Doc>, node: &Node, first_gap: Gap)
        requires
            is_aggregate_kind(node.kind),
            node.kind != SyntaxKind::ScriptStatement,
        ensures
            final(self).preserve == old(self).preserve,
            final(self).log@ == old(self).log@ + walk_seq(*node, node.children@.len() as int),
            kept(*old(self), *final(self)),
            ({
                let f = agg_fold(*node, node.children@.len() as int);
                grows(old(out)@, final(out)@, spellings(f.0 + f.1 + f.2 + f.3 + f.4, old(self).preserve))
            }),
            braces_kept(*node, final(out)@, old(self).preserve),
            agg_gaps_upto(
                *node,
                first_gap,
                old(self).gaps@.len() as int,
                final(self).gaps@,
                node.children@.len() as int,
            ),
            fits_upto(
                *node,
                first_gap,
                old(self).bracket_depth,
                old(self).gaps@.len() as int,
                final(self).gaps@,
                node.children@.len() as int,
            ),
            final(self).bracket_depth == depth_run(
                *node,
                node.children@.len() as int,
                first_gap,
                old(self).bracket_depth,
            ),
        decreases node, 0nat,
    {
        let mut open: Vec<Doc> = Vec::new();
        let mut interior: Vec<Doc> = Vec::new();
        let mut close: Vec<Doc> = Vec::new();
        let mut after_braces: Vec<Doc> = Vec::new();
        let mut inside = false;
        let mut done = false;
        let mut head_seen = false;
        let mut gap = first_gap;
        let mut i: usize = 0;
        let ghost start = self.log@;
        let ghost p = self.preserve;
        let ghost mut a_g: int = 0;
        let ghost mut b_g: int = 0;
        proof {
            lemma_grows_refl(out@);
            lemma_grows_refl(open@);
            lemma_spellings_empty(self.preserve);
        }
        while i < node.children.len()
            invariant
                self.log@ == start + walk_seq(*node, i as int),
                fits_upto(*node, first_gap, old(self).bracket_depth, old(self).gaps@.len() as int, self.gaps@, i as int),
                self.bracket_depth == depth_run(*node, i as int, first_gap, old(self).bracket_depth),
                is_aggregate_kind(node.kind),
                kept(*old(self), *self),
                self.preserve == old(self).preserve,
                p == old(self).preserve,
                node.kind != SyntaxKind::ScriptStatement,
                i <= node.children@.len(),
                grows(old(out)@, out@, spellings(agg_fold(*node, i as int).0, p)),
                grows(Seq::empty(), open@, spellings(agg_fold(*node, i as int).1, p)),
                grows(Seq::empty(), interior@, spellings(agg_fold(*node, i as int).2, p)),
                grows(Seq::empty(), close@, spellings(agg_fold(*node, i as int).3, p)),
                grows(Seq::empty(), after_braces@, spellings(agg_fold(*node, i as int).4, p)),
                inside == agg_fold(*node, i as int).5,
                done == agg_fold(*node, i as int).6,
                start == old(self).log@,
                gap == agg_gap(*node, i as int, first_gap),
                agg_gaps_upto(*node, first_gap, old(self).gaps@.len() as int, self.gaps@, i as int),
                !inside ==> !done,
                !inside ==> forall|j: int|
                    0 <= j < i ==> !placed_as(#[trigger] node.children@[j], SyntaxKind::LBrace),
                inside ==> {
                    &&& 0 <= a_g < i
                    &&& placed_as(node.children@[a_g], SyntaxKind::LBrace)
                    &&& forall|j: int|
                        0 <= j < a_g ==> !placed_as(#[trigger] node.children@[j], SyntaxKind::LBrace)
                    &&& embeds(spellings(child_doc(node.children@[a_g]), p), texts_seq(open@))
                },
                inside && !done ==> forall|j: int|
                    a_g < j < i ==> !placed_as(#[trigger] node.children@[j], SyntaxKind::RBrace),
                done ==> {
                    &&& a_g < b_g < i
                    &&& placed_as(node.children@[b_g], SyntaxKind::RBrace)
                    &&& forall|j: int|
                        a_g < j < b_g ==> !placed_as(#[trigger] node.children@[j], SyntaxKind::RBrace)
                    &&& embeds(spellings(child_doc(node.children@[b_g]), p), texts_seq(close@))
                },
            decreases node.children.len() - i,
        {
            let ghost o = out@;
            let ghost op = open@;
            let ghost it = interior@;
            let ghost cl = close@;
            let ghost af = after_braces@;
            let ghost f0 = agg_fold(*node, i as int);
            let ghost gs0 = self.gaps@;
            let ghost ss0 = *self;
            let ghost entry = entry_gap(*node, first_gap, i as int);
            assert(node.children@[i as int] is Node ==> entry == (if !inside {
                    gap
                } else if !done {
                    if elem_kind(node.children@[i as int]) == SyntaxKind::RBrace || elem_kind(
                        node.children@[i as int],
                    ) == SyntaxKind::Semicolon {
                        Gap::Tight
                    } else {
                        gap
                    }
                } else {
                    Gap::Space
                })) by {
                reveal(entry_gap);
            }
            let ghost step = walk_step(*node, node.children@[i as int]);
            let ghost mut d0: Seq<Tok> = Seq::empty();
            let ghost mut d1: Seq<Tok> = Seq::empty();
            let ghost mut d2: Seq<Tok> = Seq::empty();
            let ghost mut d3: Seq<Tok> = Seq::empty();
            let ghost mut d4: Seq<Tok> = Seq::empty();
            proof {
                lemma_grows_refl(o);
                lemma_grows_refl(op);
                lemma_grows_refl(it);
                lemma_grows_refl(cl);
                lemma_grows_refl(af);
                lemma_spellings_empty(p);
            }
            let child = &node.children[i];
            let trivia = match child {
                Element::Token(t) => t.kind != SyntaxKind::Whitespace && t.role == TokenRole::Trivia,
                Element::Node(_) => false,
            };
            match child {
                Element::Token(t) if t.kind == SyntaxKind::Whitespace => {},
                Element::Token(t) if t.role == TokenRole::Documentation => {
                    self.doc_line(out, t, gap);
                    gap = Gap::Tight;
                    proof {
                        d0 = seq![as_written(*t)];
                    }
                },
                Element::Token(t) if trivia => {
                    if head_seen {
                        if inside && !done {
                            self.weave_dangling(&mut interior, node.id, t);
                        } else if done {
                            self.weave_dangling(&mut close, node.id, t);
                            proof {
                                lemma_grows_keeps(cl, close@, Seq::empty(), spellings(child_doc(node.children@[b_g]), p));
                            }
                        } else {
                            self.weave_dangling(out, node.id, t);
                        }
                    } else {
                        self.weave_in_place(out, t);
                    }
                },
                _ => {
                    let kind = child.kind();
                    let ghost s = spellings(child_doc(*child), p);
                    if !inside {
                        head_seen = true;
                        if kind == SyntaxKind::LBrace {
                            self.woven_child(&mut open, child, gap);
                            proof {
                                lemma_embeds_empty(texts_seq(op));
                                lemma_grows_keeps(op, open@, s, Seq::empty());
                                a_g = i as int;
                                d1 = child_doc(*child);
                            }
                            inside = true;
                            self.bracket_depth = self.bracket_depth.saturating_add(1);
                            gap = Gap::Tight;
                        } else {
                            self.woven_child(out, child, gap);
                            proof {
                                d0 = child_doc(*child);
                            }
                            gap = pre_brace_gap(child);
                        }
                    } else if !done {
                        if kind == SyntaxKind::RBrace {
                            self.bracket_depth = self.bracket_depth.saturating_sub(1);
                            self.woven_child(&mut close, child, Gap::Tight);
                            proof {
                                lemma_embeds_empty(texts_seq(cl));
                                lemma_grows_keeps(cl, close@, s, Seq::empty());
                                b_g = i as int;
                                d3 = child_doc(*child);
                            }
                            done = true;
                        } else if kind == SyntaxKind::Semicolon {
                            self.woven_child(&mut interior, child, Gap::Tight);
                            proof {
                                d2 = child_doc(*child);
                            }
                            gap = Gap::Soft;
                        } else {
                            self.woven_child(&mut interior, child, gap);
                            proof {
                                d2 = child_doc(*child);
                            }
                            gap = Gap::Tight;
                        }
                    } else {
                        match child {
                            Element::Node(_) => {
                                self.woven_child(&mut after_braces, child, Gap::Space);
                                proof {
                                    d4 = child_doc(*child);
                                }
                            },
                            Element::Token(_) => {
                                self.woven_child(&mut close, child, Gap::Tight);
                                proof {
                                    lemma_grows_keeps(cl, close@, s, spellings(child_doc(node.children@[b_g]), p));
                                    d3 = child_doc(*child);
                                }
                            },
                        }
                    }
                },
            }
            proof {
                let f1 = agg_fold(*node, i + 1);
                assert(f1.0 =~= f0.0 + d0);
                assert(f1.1 =~= f0.1 + d1);
                assert(f1.2 =~= f0.2 + d2);
                assert(f1.3 =~= f0.3 + d3);
                assert(f1.4 =~= f0.4 + d4);
                lemma_step(old(out)@, o, out@, f0.0, d0, p);
                lemma_step(Seq::empty(), op, open@, f0.1, d1, p);
                lemma_step(Seq::empty(), it, interior@, f0.2, d2, p);
                lemma_step(Seq::empty(), cl, close@, f0.3, d3, p);
                lemma_step(Seq::empty(), af, after_braces@, f0.4, d4, p);
                assert(walk_seq(*node, i as int + 1) =~= walk_seq(*node, i as int) + step);
                assert(self.log@ =~= start + walk_seq(*node, i as int + 1));
                assert(kept(ss0, *self));
                assert(kept(*old(self), *self));
                lemma_fit_step(*node, first_gap, old(self).bracket_depth, old(self).gaps@.len() as int, gs0, self.gaps@, i as int);
                assert(kept(ss0, *self));
                assert(gs0.len() == old(self).gaps@.len() + walk_seq(*node, i as int).len());
                assert forall|j: int| 0 <= j < i + 1 implies #[trigger] agg_gap_at(
                    *node,
                    first_gap,
                    old(self).gaps@.len() as int,
                    self.gaps@,
                    j,
                ) by {
                    if j < i {
                        assert(agg_gap_at(*node, first_gap, old(self).gaps@.len() as int, gs0, j));
                    }
                }
            }
            i = i + 1;
        }
        let ghost fin = agg_fold(*node, node.children@.len() as int);
        let ghost o0 = out@;
        let ghost op = open@;
        let ghost it = interior@;
        let ghost cl = close@;
        let ghost af = after_braces@;
        let group = brace_group(open, interior, close);
        let ghost g = group;
        push_doc(out, group);
        let ghost o1 = out@;
        out.append(&mut after_braces);
        proof {
            assert(braced(g, op, it, cl));
            assert(out@[o0.len() as int] == g);
            assert forall|a: int, b: int| #[trigger] brace_pair(*node, a, b) implies exists|k: int, op2: Seq<Doc>, it2: Seq<Doc>, cl2: Seq<Doc>|
                0 <= k < out@.len() && #[trigger] braced(out@[k], op2, it2, cl2)
                    && embeds(spellings(child_doc(node.children@[a]), p), texts_seq(op2))
                    && embeds(spellings(child_doc(node.children@[b]), p), texts_seq(cl2)) by {
                if !inside {
                    assert(!placed_as(node.children@[a], SyntaxKind::LBrace));
                }
                if a < a_g {
                    assert(!placed_as(node.children@[a], SyntaxKind::LBrace));
                }
                if a_g < a {
                    assert(!placed_as(node.children@[a_g], SyntaxKind::LBrace));
                }
                if !done {
                    assert(!placed_as(node.children@[b], SyntaxKind::RBrace));
                }
                if b < b_g {
                    assert(!placed_as(node.children@[b], SyntaxKind::RBrace));
                }
                if b_g < b {
                    assert(!placed_as(node.children@[b_g], SyntaxKind::RBrace));
                }
                assert(braced(out@[o0.len() as int], op, it, cl));
            }
            assert(out@ =~= o1 + af);
            lemma_texts_seq_append(o1, af);
            assert(texts_seq(out@) =~= texts_seq(o0) + texts_seq(op) + texts_seq(it) + texts_seq(cl) + texts_seq(af));
            let x0 = texts_seq(old(out)@) + spellings(fin.0, p);
            lemma_grows_then(x0, texts_seq(o0), op, spellings(fin.1, p));
            lemma_grows_then(x0 + spellings(fin.1, p), texts_seq(o0) + texts_seq(op), it, spellings(fin.2, p));
            lemma_grows_then(x0 + spellings(fin.1, p) + spellings(fin.2, p), texts_seq(o0) + texts_seq(op) + texts_seq(it), cl, spellings(fin.3, p));
            lemma_grows_then(x0 + spellings(fin.1, p) + spellings(fin.2, p) + spellings(fin.3, p), texts_seq(o0) + texts_seq(op) + texts_seq(it) + texts_seq(cl), af, spellings(fin.4, p));
            lemma_spellings_append(fin.0, fin.1, p);
            lemma_spellings_append(fin.0 + fin.1, fin.2, p);
            lemma_spellings_append(fin.0 + fin.1 + fin.2, fin.3, p);
            lemma_spellings_append(fin.0 + fin.1 + fin.2 + fin.3, fin.4, p);
            assert(texts_seq(old(out)@) + spellings(fin.0 + fin.1 + fin.2 + fin.3 + fin.4, p) =~= x0 + spellings(fin.1, p) + spellings(fin.2, p) + spellings(fin.3, p) + spellings(fin.4, p));
        }
    }

    /// A spaced element list: each element after the first preceded by a
    /// space, the `,`/`;` hugging the element it follows, the condition `:`
    /// spaced on both sides.
    fn spaced_list(&mut self, out: &mut Vec<Doc>, node: &Node, first_gap: Gap)
        requires
            is_spaced_list(node.kind),
            node.kind != SyntaxKind::ScriptStatement,
        ensures
            final(self).preserve == old(self).preserve,
            final(self).log@ == old(self).log@ + walk_seq(*node, node.children@.len() as int),
            kept(*old(self), *final(self)),
            grows(
                old(out)@,
                final(out)@,
                spellings(doc_seq(*node, node.children@.len() as int), old(self).preserve),
            ),
            fits_upto(
                *node,
                first_gap,
                old(self).bracket_depth,
                old(self).gaps@.len() as int,
                final(self).gaps@,
                node.children@.len() as int,
            ),
            final(self).bracket_depth == depth_run(
                *node,
                node.children@.len() as int,
                first_gap,
                old(self).bracket_depth,
            ),
            seq_gaps_upto(*node, first_gap, old(self).gaps@.len() as int, final(self).gaps@, node.children@.len() as int),
        decreases node, 0nat,
    {
        let mut gap = first_gap;
        let mut i: usize = 0;
        let ghost start = self.log@;
        proof {
            lemma_grows_refl(out@);
            lemma_spellings_empty(self.preserve);
        }
        while i < node.children.len()
            invariant
                self.log@ == start + walk_seq(*node, i as int),
                fits_upto(*node, first_gap, old(self).bracket_depth, old(self).gaps@.len() as int, self.gaps@, i as int),
                self.bracket_depth == depth_run(*node, i as int, first_gap, old(self).bracket_depth),
                start == old(self).log@,
                gap == seq_state(*node, i as int, first_gap).0,
                seq_gaps_upto(*node, first_gap, old(self).gaps@.len() as int, self.gaps@, i as int),
                is_spaced_list(node.kind),
                kept(*old(self), *self),
                self.preserve == old(self).preserve,
                node.kind != SyntaxKind::ScriptStatement,
                i <= node.children@.len(),
                grows(old(out)@, out@, spellings(doc_seq(*node, i as int), old(self).preserve)),
            decreases node.children.len() - i,
        {
            let ghost o_i = out@;
            let ghost gs0 = self.gaps@;
            let ghost ss0 = *self;
            let ghost entry = entry_gap(*node, first_gap, i as int);
            assert(node.children@[i as int] is Node ==> entry == (gap)) by {
                reveal(entry_gap);
            }
            let ghost step = walk_step(*node, node.children@[i as int]);
            let ghost dstep = doc_step(*node, node.children@[i as int]);
            proof {
                lemma_grows_refl(o_i);
                lemma_spellings_empty(self.preserve);
            }
            let child = &node.children[i];
            match child {
                Element::Token(t) if t.kind == SyntaxKind::Whitespace => {},
                Element::Token(t) if t.role == TokenRole::Documentation => {
                    self.doc_line(out, t, gap);
                    gap = Gap::Space;
                },
                Element::Token(t) if t.role == TokenRole::Trivia => {
                    self.weave_dangling(out, node.id, t);
                },
                Element::Token(t) if t.kind == SyntaxKind::Comma || t.kind == SyntaxKind::Semicolon => {
                    self.woven_tok(out, t, Gap::Tight);
                    gap = Gap::Space;
                },
                Element::Token(t) if t.kind == SyntaxKind::Colon => {
                    self.woven_tok(out, t, Gap::Space);
                    gap = Gap::Space;
                },
                _ => {
                    self.woven_child(out, child, gap);
                    gap = Gap::Tight;
                },
            }
            proof {
                lemma_step(old(out)@, o_i, out@, doc_seq(*node, i as int), dstep, self.preserve);
                assert(doc_seq(*node, i as int + 1) =~= doc_seq(*node, i as int) + dstep);
                assert(walk_seq(*node, i as int + 1) =~= walk_seq(*node, i as int) + step);
                assert(self.log@ =~= start + walk_seq(*node, i as int + 1));
                assert(gs0.len() == old(self).gaps@.len() + walk_seq(*node, i as int).len());
                assert forall|j: int| 0 <= j < i + 1 implies #[trigger] seq_gap_at(
                    *node,
                    first_gap,
                    old(self).gaps@.len() as int,
                    self.gaps@,
                    j,
                ) by {
                    if j < i {
                        assert(seq_gap_at(*node, first_gap, old(self).gaps@.len() as int, gs0, j));
                    }
                }
                assert(kept(ss0, *self));
                assert(kept(*old(self), *self));
                lemma_fit_step(*node, first_gap, old(self).bracket_depth, old(self).gaps@.len() as int, gs0, self.gaps@, i as int);
            }
            i = i + 1;
        }
    }

    /// A directive: a single space after the keyword, the family's `=`/`:`
    /// spaced on both sides, the terminating dot hugging what precedes it,
    /// a trailing annotation spaced after the dot.
    fn directive(&mut self, out: &mut Vec<Doc>, node: &Node, first_gap: Gap)
        requires
            is_directive(node.kind),
            node.kind != SyntaxKind::ScriptStatement,
        ensures
            final(self).preserve == old(self).preserve,
            final(self).log@ == old(self).log@ + walk_seq(*node, node.children@.len() as int),
            kept(*old(self), *final(self)),
            grows(
                old(out)@,
                final(out)@,
                spellings(doc_seq(*node, node.children@.len() as int), old(self).preserve),
            ),
            fits_upto(
                *node,
                first_gap,
                old(self).bracket_depth,
                old(self).gaps@.len() as int,
                final(self).gaps@,
                node.children@.len() as int,
            ),
            final(self).bracket_depth == depth_run(
                *node,
                node.children@.len() as int,
                first_gap,
                old(self).bracket_depth,
            ),
            seq_gaps_upto(*node, first_gap, old(self).gaps@.len() as int, final(self).gaps@, node.children@.len() as int),
        decreases node, 0nat,
    {
        let mut running = first_gap;
        let mut first = true;
        let mut i: usize = 0;
        let ghost start = self.log@;
        proof {
            lemma_grows_refl(out@);
            lemma_spellings_empty(self.preserve);
        }
        while i < node.children.len()
            invariant
                self.log@ == start + walk_seq(*node, i as int),
                fits_upto(*node, first_gap, old(self).bracket_depth, old(self).gaps@.len() as int, self.gaps@, i as int),
                self.bracket_depth == depth_run(*node, i as int, first_gap, old(self).bracket_depth),
                start == old(self).log@,
                running == seq_state(*node, i as int, first_gap).0,
                first == seq_state(*node, i as int, first_gap).1,
                seq_gaps_upto(*node, first_gap, old(self).gaps@.len() as int, self.gaps@, i as int),
                is_directive(node.kind),
                kept(*old(self), *self),
                self.preserve == old(self).preserve,
                node.kind != SyntaxKind::ScriptStatement,
                i <= node.children@.len(),
                grows(old(out)@, out@, spellings(doc_seq(*node, i as int), old(self).preserve)),
            decreases node.children.len() - i,
        {
            let ghost o_i = out@;
            let ghost gs0 = self.gaps@;
            let ghost ss0 = *self;
            let ghost entry = entry_gap(*node, first_gap, i as int);
            assert(node.children@[i as int] is Node ==> entry == (if first {
                    running
                } else if elem_kind(node.children@[i as int]) == SyntaxKind::Dot {
                    Gap::Tight
                } else if elem_kind(node.children@[i as int]) == SyntaxKind::Annotation || elem_kind(
                    node.children@[i as int],
                ) == SyntaxKind::Eq || elem_kind(node.children@[i as int]) == SyntaxKind::Colon {
                    Gap::Space
                } else {
                    running
                })) by {
                reveal(entry_gap);
            }
            let ghost step = walk_step(*node, node.children@[i as int]);
            let ghost dstep = doc_step(*node, node.children@[i as int]);
            proof {
                lemma_grows_refl(o_i);
                lemma_spellings_empty(self.preserve);
            }
            let child = &node.children[i];
            match child {
                Element::Token(t) if t.kind == SyntaxKind::Whitespace => {},
                Element::Token(t) if t.role == TokenRole::Documentation => {
                    self.doc_line(out, t, running);
                },
                Element::Token(t) if t.role == TokenRole::Trivia => {
                    self.weave_statement_trivia(out, node.id, t, first);
                },
                _ => {
                    let kind = child.kind();
                    let before = if first {
                        running
                    } else if kind == SyntaxKind::Dot {
                        Gap::Tight
                    } else if kind == SyntaxKind::Annotation || kind == SyntaxKind::Eq || kind
                        == SyntaxKind::Colon {
                        Gap::Space
                    } else {
                        running
                    };
                    self.woven_child(out, child, before);
                    running = if first || kind == SyntaxKind::Eq || kind == SyntaxKind::Colon || kind
                        == SyntaxKind::Comma || kind == SyntaxKind::Semicolon {
                        Gap::Space
                    } else {
                        Gap::Tight
                    };
                    first = false;
                },
            }
            proof {
                lemma_step(old(out)@, o_i, out@, doc_seq(*node, i as int), dstep, self.preserve);
                assert(doc_seq(*node, i as int + 1) =~= doc_seq(*node, i as int) + dstep);
                assert(walk_seq(*node, i as int + 1) =~= walk_seq(*node, i as int) + step);
                assert(self.log@ =~= start + walk_seq(*node, i as int + 1));
                assert(gs0.len() == old(self).gaps@.len() + walk_seq(*node, i as int).len());
                assert forall|j: int| 0 <= j < i + 1 implies #[trigger] seq_gap_at(
                    *node,
                    first_gap,
                    old(self).gaps@.len() as int,
                    self.gaps@,
                    j,
                ) by {
                    if j < i {
                        assert(seq_gap_at(*node, first_gap, old(self).gaps@.len() as int, gs0, j));
                    }
                }
                assert(kept(ss0, *self));
                assert(kept(*old(self), *self));
                lemma_fit_step(*node, first_gap, old(self).bracket_depth, old(self).gaps@.len() as int, gs0, self.gaps@, i as int);
            }
            i = i + 1;
        }
    }

    /// A `#script(lang) … #end.` statement: the header through the `)`, the
    /// body's value exact, neither indented nor reflowed, its newlines
    /// content; `#end.` after it. A whitespace-only body is kept as a single
    /// space, so the body token survives a re-parse; a body that does not
    /// end its own line keeps a blank before `#end`.
    fn script(&mut self, out: &mut Vec<Doc>, node: &Node, first_gap: Gap)
        requires
            node.kind == SyntaxKind::ScriptStatement,
        ensures
            final(self).preserve == old(self).preserve,
            final(self).log@ == old(self).log@ + walk_seq(*node, node.children@.len() as int),
            kept(*old(self), *final(self)),
            grows(
                old(out)@,
                final(out)@,
                spellings(doc_seq(*node, node.children@.len() as int), old(self).preserve),
            ),
            fits_upto(
                *node,
                first_gap,
                old(self).bracket_depth,
                old(self).gaps@.len() as int,
                final(self).gaps@,
                node.children@.len() as int,
            ),
            final(self).bracket_depth == depth_run(
                *node,
                node.children@.len() as int,
                first_gap,
                old(self).bracket_depth,
            ),
            seq_gaps_upto(*node, first_gap, old(self).gaps@.len() as int, final(self).gaps@, node.children@.len() as int),
        decreases node, 0nat,
    {
        let mut gap = first_gap;
        let mut head_seen = false;
        let mut i: usize = 0;
        let ghost start = self.log@;
        proof {
            lemma_grows_refl(out@);
            lemma_spellings_empty(self.preserve);
        }
        while i < node.children.len()
            invariant
                self.log@ == start + walk_seq(*node, i as int),
                fits_upto(*node, first_gap, old(self).bracket_depth, old(self).gaps@.len() as int, self.gaps@, i as int),
                self.bracket_depth == depth_run(*node, i as int, first_gap, old(self).bracket_depth),
                start == old(self).log@,
                gap == seq_state(*node, i as int, first_gap).0,
                seq_gaps_upto(*node, first_gap, old(self).gaps@.len() as int, self.gaps@, i as int),
                node.kind == SyntaxKind::ScriptStatement,
                kept(*old(self), *self),
                self.preserve == old(self).preserve,
                node.kind == SyntaxKind::ScriptStatement,
                i <= node.children@.len(),
                grows(old(out)@, out@, spellings(doc_seq(*node, i as int), old(self).preserve)),
            decreases node.children.len() - i,
        {
            let ghost o_i = out@;
            let ghost gs0 = self.gaps@;
            let ghost ss0 = *self;
            let ghost entry = entry_gap(*node, first_gap, i as int);
            assert(node.children@[i as int] is Node ==> entry == (gap)) by {
                reveal(entry_gap);
            }
            let ghost step = walk_step(*node, node.children@[i as int]);
            let ghost dstep = doc_step(*node, node.children@[i as int]);
            proof {
                lemma_grows_refl(o_i);
                lemma_spellings_empty(self.preserve);
            }
            let child = &node.children[i];
            match child {
                Element::Token(t) if t.kind == SyntaxKind::Whitespace => {},
                Element::Token(t) if t.role == TokenRole::Documentation => {
                    self.doc_line(out, t, gap);
                    gap = Gap::Tight;
                },
                Element::Token(t) if t.role == TokenRole::Trivia => {
                    self.weave_statement_trivia(out, node.id, t, !head_seen);
                },
                Element::Token(t) if t.kind == SyntaxKind::ScriptBody => {
                    let value = t.spelled.clone();
                    if chars_of(value.as_str()).len() == 0 {
                        push_doc(out, Doc::Text(" ".to_owned()));
                    } else {
                        let inline = !ends_with_newline(value.as_str());
                        let d = Doc::Text(value);
                        let ghost gd = d;
                        push_doc(out, d);
                        let ghost o1 = out@;
                        proof {
                            lemma_spellings_one(verbatim(*t), self.preserve);
                            assert(texts(gd) == seq![t.spelled@]);
                        }
                        if inline {
                            push_doc(out, Doc::Text(" ".to_owned()));
                            proof {
                                lemma_grows_trans(o_i, o1, out@, texts(gd), Seq::empty());
                            }
                        }
                        self.log = Ghost(self.log@.push(verbatim(*t)));
                        self.gaps = Ghost(self.gaps@.push(Gap::Nothing));
                    }
                    self.last = None;
                    self.prev_element = Some(t.id);
                    gap = Gap::Nothing;
                    head_seen = true;
                },
                _ => {
                    head_seen = true;
                    self.woven_child(out, child, gap);
                    gap = Gap::Tight;
                },
            }
            proof {
                lemma_step(old(out)@, o_i, out@, doc_seq(*node, i as int), dstep, self.preserve);
                assert(doc_seq(*node, i as int + 1) =~= doc_seq(*node, i as int) + dstep);
                assert(walk_seq(*node, i as int + 1) =~= walk_seq(*node, i as int) + step);
                assert(self.log@ =~= start + walk_seq(*node, i as int + 1));
                assert(gs0.len() == old(self).gaps@.len() + walk_seq(*node, i as int).len());
                assert forall|j: int| 0 <= j < i + 1 implies #[trigger] seq_gap_at(
                    *node,
                    first_gap,
                    old(self).gaps@.len() as int,
                    self.gaps@,
                    j,
                ) by {
                    if j < i {
                        assert(seq_gap_at(*node, first_gap, old(self).gaps@.len() as int, gs0, j));
                    }
                }
                assert(kept(ss0, *self));
                assert(kept(*old(self), *self));
                lemma_fit_step(*node, first_gap, old(self).bracket_depth, old(self).gaps@.len() as int, gs0, self.gaps@, i as int);
            }
            i = i + 1;
        }
    }

    /// A theory atom: `&name(args){ elements }` hugs; only a guard after
    /// the `}` is spaced from it.
    fn theory_atom(&mut self, out: &mut Vec<Doc>, node: &Node, first_gap: Gap)
        requires
            node.kind == SyntaxKind::TheoryAtom,
            node.kind != SyntaxKind::ScriptStatement,
        ensures
            final(self).preserve == old(self).preserve,
            final(self).log@ == old(self).log@ + walk_seq(*node, node.children@.len() as int),
            kept(*old(self), *final(self)),
            grows(
                old(out)@,
                final(out)@,
                spellings(doc_seq(*node, node.children@.len() as int), old(self).preserve),
            ),
            fits_upto(
                *node,
                first_gap,
                old(self).bracket_depth,
                old(self).gaps@.len() as int,
                final(self).gaps@,
                node.children@.len() as int,
            ),
            final(self).bracket_depth == depth_run(
                *node,
                node.children@.len() as int,
                first_gap,
                old(self).bracket_depth,
            ),
            seq_gaps_upto(*node, first_gap, old(self).gaps@.len() as int, final(self).gaps@, node.children@.len() as int),
        decreases node, 0nat,
    {
        let mut gap = first_gap;
        let mut i: usize = 0;
        let ghost start = self.log@;
        proof {
            lemma_grows_refl(out@);
            lemma_spellings_empty(self.preserve);
        }
        while i < node.children.len()
            invariant
                self.log@ == start + walk_seq(*node, i as int),
                fits_upto(*node, first_gap, old(self).bracket_depth, old(self).gaps@.len() as int, self.gaps@, i as int),
                self.bracket_depth == depth_run(*node, i as int, first_gap, old(self).bracket_depth),
                start == old(self).log@,
                gap == seq_state(*node, i as int, first_gap).0,
                seq_gaps_upto(*node, first_gap, old(self).gaps@.len() as int, self.gaps@, i as int),
                node.kind == SyntaxKind::TheoryAtom,
                kept(*old(self), *self),
                self.preserve == old(self).preserve,
                node.kind != SyntaxKind::ScriptStatement,
                i <= node.children@.len(),
                grows(old(out)@, out@, spellings(doc_seq(*node, i as int), old(self).preserve)),
            decreases node.children.len() - i,
        {
            let ghost o_i = out@;
            let ghost gs0 = self.gaps@;
            let ghost ss0 = *self;
            let ghost entry = entry_gap(*node, first_gap, i as int);
            assert(node.children@[i as int] is Node ==> entry == (if elem_kind(node.children@[i as int]) == SyntaxKind::TheoryGuard {
                    Gap::Space
                } else {
                    gap
                })) by {
                reveal(entry_gap);
            }
            let ghost step = walk_step(*node, node.children@[i as int]);
            let ghost dstep = doc_step(*node, node.children@[i as int]);
            proof {
                lemma_grows_refl(o_i);
                lemma_spellings_empty(self.preserve);
            }
            let child = &node.children[i];
            match child {
                Element::Token(t) if t.kind == SyntaxKind::Whitespace => {},
                Element::Token(t) if t.role == TokenRole::Documentation => {
                    self.doc_line(out, t, gap);
                    gap = Gap::Tight;
                },
                Element::Token(t) if t.role == TokenRole::Trivia => {
                    self.weave_dangling(out, node.id, t);
                },
                _ => {
                    let before = if child.kind() == SyntaxKind::TheoryGuard {
                        Gap::Space
                    } else {
                        gap
                    };
                    self.woven_child(out, child, before);
                    gap = Gap::Tight;
                },
            }
            proof {
                lemma_step(old(out)@, o_i, out@, doc_seq(*node, i as int), dstep, self.preserve);
                assert(doc_seq(*node, i as int + 1) =~= doc_seq(*node, i as int) + dstep);
                assert(walk_seq(*node, i as int + 1) =~= walk_seq(*node, i as int) + step);
                assert(self.log@ =~= start + walk_seq(*node, i as int + 1));
                assert(gs0.len() == old(self).gaps@.len() + walk_seq(*node, i as int).len());
                assert forall|j: int| 0 <= j < i + 1 implies #[trigger] seq_gap_at(
                    *node,
                    first_gap,
                    old(self).gaps@.len() as int,
                    self.gaps@,
                    j,
                ) by {
                    if j < i {
                        assert(seq_gap_at(*node, first_gap, old(self).gaps@.len() as int, gs0, j));
                    }
                }
                assert(kept(ss0, *self));
                assert(kept(*old(self), *self));
                lemma_fit_step(*node, first_gap, old(self).bracket_depth, old(self).gaps@.len() as int, gs0, self.gaps@, i as int);
            }
            i = i + 1;
        }
    }
}

/// Lower a parsed program to a document: the house style over the tree,
/// canonically spelled (or verbatim when `preserve_spellings`), the fusion
/// floor under every abutment, every comment woven to its anchor and slot,
/// and the file's single trailing newline. Beside the document comes the
/// record of the walk: the identities of the tokens it emitted a text for,
/// in the order it emitted them — every significant token of the program,
/// every documentation comment and every non-empty `#script` body, each
/// once, in source order. Each of them stands in the document as a text of
/// its own: a significant token spelled as the mode asks, a documentation
/// comment as written, a `#script` body verbatim. Beside each identity the
/// record holds the separator the walk asked before that text — nothing, a
/// hug, a space, a soft line, a line, a hard line or a blank line — and
/// these follow the house style's tables statement by statement: a rule's,
/// an aggregate's, each term walk's and each other node's, each statement
/// entered with a statement break and each node within it with the gap and
/// at the bracket depth its parent's walk hands it, as [`program_fit`]
/// states. The walk's separator step, whose own contract
/// states it, places that separator before the text: a break as the gap
/// names it, a hug or a space as the fusion floor allows, raised where a
/// comment just emitted owes a stronger one.
pub fn lower<B: Fn(usize, usize) -> bool, F: Fn(usize, &str, &str) -> Floor>(
    root: &Node,
    plan: Plan,
    preserve_spellings: bool,
    oracle: Oracle<B, F>,
) -> (r: (Doc, Ghost<(Seq<usize>, Seq<Gap>)>))
    ensures
        r.0 matches Doc::Concat(v) && v@.len() > 0 && v@.last() == Doc::HardLine,
        r.1@.0 == ids(program_toks(*root)),
        r.1@.1.len() == program_toks(*root).len(),
        program_fit(*root, 0, r.1@.1, root.children@.len() as int),
        embeds(
            spellings(program_doc(*root, root.children@.len() as int), preserve_spellings),
            texts(r.0),
        ),
{
    let mut lowering = Lowering {
        preserve: preserve_spellings,
        plan,
        oracle,
        last: None,
        prev_element: None,
        pending: None,
        bracket_depth: 0,
        woven: Vec::new(),
        log: Ghost(Seq::empty()),
        gaps: Ghost(Seq::empty()),
    };
    let mut out: Vec<Doc> = Vec::new();
    lowering.program(&mut out, root);
    proof {
        assert(lowering.log@ =~= program_toks(*root));
    }
    let ghost o = out@;
    push_doc(&mut out, Doc::HardLine);
    proof {
        let m = spellings(program_doc(*root, root.children@.len() as int), preserve_spellings);
        lemma_grows_trans(Seq::empty(), o, out@, m, Seq::empty());
        lemma_grows_base(out@, m);
    }
    let doc = Doc::Concat(out);
    proof {
        assert(texts(doc) == texts_seq(out@));
    }
    (doc, Ghost((ids(lowering.log@), lowering.gaps@)))
}

} // verus!
