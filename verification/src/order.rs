//! Where the document puts each text: a statement in its ordinary shape
//! places its tokens' texts in source order.

use vstd::prelude::*;

use crate::lower::{
    agg_fold, agg_place, bracket_pair, counts, doc_seq, doc_toks, has_body_upto,
    is_aggregate_kind, is_body_child, is_doc, is_term_kind, piece, program_doc, program_seq,
    program_toks, rule_fold, term_doc, term_fold, term_seq, term_toks, walk_seq, walk_toks,
};
use crate::syntax::{SyntaxKind, TokenRole};
use crate::tree::{Element, Node};

verus! {

/// Documentation lines lead: none follows an element of the node.
pub open spec fn docs_lead(n: Node) -> bool {
    forall|j: int, k: int|
        0 <= j < k < n.children@.len() && is_doc(#[trigger] n.children@[k]) && counts(
            #[trigger] n.children@[j],
        ) ==> is_doc(n.children@[j])
}

/// Some element — a counted child other than a documentation line — stands
/// among the first `k` children of `n`.
pub open spec fn element_before(n: Node, k: int) -> bool {
    exists|j: int| 0 <= j < k && counts(#[trigger] n.children@[j]) && !is_doc(n.children@[j])
}

/// What may follow a rule's body: its dot, an annotation, another body.
pub open spec fn tail_child(c: Element) -> bool {
    match c {
        Element::Token(t) => t.kind == SyntaxKind::Dot,
        Element::Node(m) => m.kind == SyntaxKind::Annotation || m.kind == SyntaxKind::Body,
    }
}

/// A rule in its ordinary shape: its documentation lines lead, and after its
/// body stand only its dot and its annotations.
pub open spec fn rule_ordinary(n: Node) -> bool {
    &&& docs_lead(n)
    &&& forall|j: int, k: int|
        0 <= j < k < n.children@.len() && is_body_child(#[trigger] n.children@[j]) && counts(
            #[trigger] n.children@[k],
        ) ==> tail_child(n.children@[k])
}

proof fn lemma_rule_order_upto(n: Node, k: int)
    requires
        n.kind == SyntaxKind::Rule || n.kind == SyntaxKind::WeakConstraint,
        rule_ordinary(n),
        0 <= k <= n.children@.len(),
    ensures
        ({
            let f = rule_fold(n, k);
            &&& f.0 + f.1 + f.2 == doc_seq(n, k)
            &&& !f.3 ==> f.2.len() == 0
            &&& f.3 == has_body_upto(n, k)
            &&& !element_before(n, k) ==> f.1.len() == 0 && f.2.len() == 0
        }),
    decreases k,
{
    if k == 0 {
        assert(!has_body_upto(n, 0));
        assert(rule_fold(n, 0).0 + rule_fold(n, 0).1 + rule_fold(n, 0).2 =~= doc_seq(n, 0));
    } else {
        lemma_rule_order_upto(n, k - 1);
        let f0 = rule_fold(n, k - 1);
        let f1 = rule_fold(n, k);
        let c = n.children@[k - 1];
        assert(doc_seq(n, k) == doc_seq(n, k - 1) + match c {
            Element::Token(t) => piece(n.kind == SyntaxKind::ScriptStatement, t),
            Element::Node(m) => doc_toks(m),
        });
        if is_body_child(c) {
            assert(has_body_upto(n, k));
        } else {
            assert(has_body_upto(n, k) == has_body_upto(n, k - 1)) by {
                if has_body_upto(n, k) {
                    let j = choose|j: int| 0 <= j < k && is_body_child(#[trigger] n.children@[j]);
                    assert(j != k - 1);
                }
            }
        }
        if counts(c) && !is_doc(c) {
            assert(element_before(n, k));
        } else {
            assert(element_before(n, k) == element_before(n, k - 1)) by {
                if element_before(n, k) {
                    let j = choose|j: int|
                        0 <= j < k && counts(#[trigger] n.children@[j]) && !is_doc(n.children@[j]);
                    assert(j != k - 1);
                }
            }
        }
        if f0.3 && counts(c) {
            let b = choose|j: int| 0 <= j < k - 1 && is_body_child(#[trigger] n.children@[j]);
            assert(tail_child(c));
        }
        if is_doc(c) {
            if element_before(n, k - 1) {
                let j = choose|j: int|
                    0 <= j < k - 1 && counts(#[trigger] n.children@[j]) && !is_doc(n.children@[j]);
                assert(is_doc(n.children@[j]));
            }
        }
        match c {
            Element::Token(t) => {
                if t.kind == SyntaxKind::Whitespace || t.role == TokenRole::Trivia {
                    assert(f1.0 + f1.1 + f1.2 =~= doc_seq(n, k));
                } else if t.role == TokenRole::Documentation {
                    assert(f1.0 + f1.1 + f1.2 =~= doc_seq(n, k));
                } else if t.kind == SyntaxKind::Dot && f0.3 {
                    assert(f1.0 + f1.1 + f1.2 =~= doc_seq(n, k));
                } else {
                    assert(f1.0 + f1.1 + f1.2 =~= doc_seq(n, k));
                }
            },
            Element::Node(m) => {
                assert(f1.0 + f1.1 + f1.2 =~= doc_seq(n, k));
            },
        }
    }
}

/// An aggregate in its ordinary shape: its documentation lines lead, and
/// after its braces no token follows a node.
pub open spec fn agg_ordinary(n: Node) -> bool {
    &&& docs_lead(n)
    &&& forall|j: int, k: int|
        0 <= j < k < n.children@.len() && agg_fold(n, j).6 && #[trigger] n.children@[j] is Node
            && counts(#[trigger] n.children@[k]) && !is_doc(n.children@[k]) ==> n.children@[k] is Node
}

/// A node child after the braces stands among the first `k` children.
pub open spec fn node_after_braces(n: Node, k: int) -> bool {
    exists|j: int| 0 <= j < k && agg_fold(n, j).6 && #[trigger] n.children@[j] is Node
}

proof fn lemma_agg_order_upto(n: Node, k: int)
    requires
        is_aggregate_kind(n.kind),
        agg_ordinary(n),
        0 <= k <= n.children@.len(),
    ensures
        ({
            let f = agg_fold(n, k);
            &&& f.0 + f.1 + f.2 + f.3 + f.4 == doc_seq(n, k)
            &&& !f.5 ==> f.1.len() == 0 && f.2.len() == 0 && f.3.len() == 0 && f.4.len() == 0
            &&& !f.6 ==> f.3.len() == 0 && f.4.len() == 0
            &&& f.4.len() > 0 ==> node_after_braces(n, k)
            &&& f.5 ==> element_before(n, k)
        }),
    decreases k,
{
    if k == 0 {
        assert(agg_fold(n, 0).0 + agg_fold(n, 0).1 + agg_fold(n, 0).2 + agg_fold(n, 0).3 + agg_fold(
            n,
            0,
        ).4 =~= doc_seq(n, 0));
    } else {
        lemma_agg_order_upto(n, k - 1);
        let f0 = agg_fold(n, k - 1);
        let f1 = agg_fold(n, k);
        let c = n.children@[k - 1];
        assert(doc_seq(n, k) == doc_seq(n, k - 1) + match c {
            Element::Token(t) => piece(n.kind == SyntaxKind::ScriptStatement, t),
            Element::Node(m) => doc_toks(m),
        });
        if counts(c) && !is_doc(c) {
            assert(element_before(n, k));
        } else {
            assert(element_before(n, k) == element_before(n, k - 1)) by {
                if element_before(n, k) {
                    let j = choose|j: int|
                        0 <= j < k && counts(#[trigger] n.children@[j]) && !is_doc(n.children@[j]);
                    assert(j != k - 1);
                }
            }
        }
        if node_after_braces(n, k - 1) {
            let j = choose|j: int| 0 <= j < k - 1 && agg_fold(n, j).6 && #[trigger] n.children@[j] is Node;
            assert(node_after_braces(n, k));
            if counts(c) && !is_doc(c) {
                assert(c is Node);
            }
        }
        if f0.6 && c is Node {
            assert(node_after_braces(n, k));
        }
        if is_doc(c) && element_before(n, k - 1) {
            let j = choose|j: int|
                0 <= j < k - 1 && counts(#[trigger] n.children@[j]) && !is_doc(n.children@[j]);
            assert(is_doc(n.children@[j]));
        }
        match c {
            Element::Token(t) => {
                if t.kind == SyntaxKind::Whitespace || t.role == TokenRole::Trivia {
                    assert(f1 == f0);
                    assert(f1.0 + f1.1 + f1.2 + f1.3 + f1.4 =~= doc_seq(n, k));
                } else if t.role == TokenRole::Documentation {
                    assert(!f0.5);
                    assert(f1.0 + f1.1 + f1.2 + f1.3 + f1.4 =~= doc_seq(n, k));
                } else {
                    assert(f1 == agg_place(f0, c, seq![t]));
                    assert(piece(n.kind == SyntaxKind::ScriptStatement, t) == seq![t]);
                    if f0.6 {
                        assert(!node_after_braces(n, k - 1));
                        assert(f0.4.len() == 0);
                    }
                    assert(f1.0 + f1.1 + f1.2 + f1.3 + f1.4 =~= doc_seq(n, k));
                }
            },
            Element::Node(m) => {
                assert(f1 == agg_place(f0, c, doc_toks(m)));
                assert(f1.0 + f1.1 + f1.2 + f1.3 + f1.4 =~= doc_seq(n, k));
            },
        }
    }
}

/// A term in its ordinary shape: a bracketed term has only tokens before
/// its open bracket, no documentation line among them, and nothing after
/// its close bracket.
pub open spec fn term_ordinary_own(n: Node) -> bool {
    bracket_pair(n.kind) is Some ==> {
        &&& forall|k: int|
            0 <= k < n.children@.len() && !term_fold(n, k).3 && counts(#[trigger] n.children@[k])
                ==> n.children@[k] is Token && !is_doc(n.children@[k])
        &&& forall|k: int|
            0 <= k < n.children@.len() && term_fold(n, k).2.len() > 0 ==> !counts(
                #[trigger] n.children@[k],
            )
    }
}

/// A term subtree in its ordinary shape, all the way down.
pub open spec fn term_ordinary(n: Node) -> bool
    decreases n,
{
    &&& term_ordinary_own(n)
    &&& forall|k: int|
        0 <= k < n.children@.len() ==> match #[trigger] n.children@[k] {
            Element::Node(m) => term_ordinary(m),
            Element::Token(_) => true,
        }
}

proof fn lemma_term_order_upto(n: Node, k: int)
    requires
        term_ordinary_own(n),
        0 <= k <= n.children@.len(),
        forall|j: int|
            0 <= j < n.children@.len() ==> match #[trigger] n.children@[j] {
                Element::Node(m) => term_doc(m) == term_toks(m),
                Element::Token(_) => true,
            },
    ensures
        ({
            let f = term_fold(n, k);
            &&& f.0 + f.1 + f.2 == term_seq(n, k)
            &&& bracket_pair(n.kind) is Some && !f.3 ==> f.1.len() == 0 && f.2.len() == 0
            &&& bracket_pair(n.kind) is None ==> f.0.len() == 0 && f.2.len() == 0 && !f.3
        }),
    decreases k,
{
    if k == 0 {
        assert(term_fold(n, 0).0 + term_fold(n, 0).1 + term_fold(n, 0).2 =~= term_seq(n, 0));
    } else {
        lemma_term_order_upto(n, k - 1);
        let f0 = term_fold(n, k - 1);
        let f1 = term_fold(n, k);
        let c = n.children@[k - 1];
        assert(term_seq(n, k) == term_seq(n, k - 1) + match c {
            Element::Token(t) => piece(false, t),
            Element::Node(m) => term_toks(m),
        });
        if bracket_pair(n.kind) is Some && counts(c) {
            if f0.2.len() > 0 {
                assert(!counts(c));
            }
            if !f0.3 {
                assert(c is Token && !is_doc(c));
            }
        }
        match c {
            Element::Token(t) => {
                assert(f1.0 + f1.1 + f1.2 =~= term_seq(n, k));
            },
            Element::Node(m) => {
                assert(term_doc(m) == term_toks(m));
                assert(f1.0 + f1.1 + f1.2 =~= term_seq(n, k));
            },
        }
    }
}

proof fn lemma_term_order(n: Node)
    requires
        term_ordinary(n),
    ensures
        term_doc(n) == term_toks(n),
    decreases n,
{
    assert forall|j: int| 0 <= j < n.children@.len() implies match #[trigger] n.children@[j] {
        Element::Node(m) => term_doc(m) == term_toks(m),
        Element::Token(_) => true,
    } by {
        if let Element::Node(m) = n.children@[j] {
            lemma_term_order(m);
        }
    }
    lemma_term_order_upto(n, n.children@.len() as int);
}

/// A subtree in its ordinary shape, all the way down: each rule, aggregate
/// and term in it as its own shape asks.
pub open spec fn ordinary(n: Node) -> bool
    decreases n,
{
    if is_term_kind(n.kind) {
        term_ordinary(n)
    } else {
        &&& (n.kind == SyntaxKind::Rule || n.kind == SyntaxKind::WeakConstraint) ==> rule_ordinary(n)
        &&& is_aggregate_kind(n.kind) ==> agg_ordinary(n)
        &&& forall|k: int|
            0 <= k < n.children@.len() ==> match #[trigger] n.children@[k] {
                Element::Node(m) => ordinary(m),
                Element::Token(_) => true,
            }
    }
}

proof fn lemma_doc_seq_walk(n: Node, k: int)
    requires
        0 <= k <= n.children@.len(),
        forall|j: int|
            0 <= j < n.children@.len() ==> match #[trigger] n.children@[j] {
                Element::Node(m) => doc_toks(m) == walk_toks(m),
                Element::Token(_) => true,
            },
    ensures
        doc_seq(n, k) == walk_seq(n, k),
    decreases k,
{
    if k > 0 {
        lemma_doc_seq_walk(n, k - 1);
        if let Element::Node(m) = n.children@[k - 1] {
            assert(doc_toks(m) == walk_toks(m));
        }
        assert(doc_seq(n, k) =~= walk_seq(n, k));
    }
}

proof fn lemma_order(n: Node)
    requires
        ordinary(n),
    ensures
        doc_toks(n) == walk_toks(n),
    decreases n,
{
    if is_term_kind(n.kind) {
        lemma_term_order(n);
    } else {
        assert forall|j: int| 0 <= j < n.children@.len() implies match #[trigger] n.children@[j] {
            Element::Node(m) => doc_toks(m) == walk_toks(m),
            Element::Token(_) => true,
        } by {
            if let Element::Node(m) = n.children@[j] {
                lemma_order(m);
            }
        }
        lemma_doc_seq_walk(n, n.children@.len() as int);
        if n.kind == SyntaxKind::Rule || n.kind == SyntaxKind::WeakConstraint {
            lemma_rule_order_upto(n, n.children@.len() as int);
        } else if is_aggregate_kind(n.kind) {
            lemma_agg_order_upto(n, n.children@.len() as int);
        }
    }
}

proof fn lemma_program_order_upto(root: Node, k: int)
    requires
        0 <= k <= root.children@.len(),
        forall|j: int|
            0 <= j < root.children@.len() ==> match #[trigger] root.children@[j] {
                Element::Node(m) => ordinary(m),
                Element::Token(_) => true,
            },
    ensures
        program_doc(root, k) == program_seq(root, k),
    decreases k,
{
    if k > 0 {
        lemma_program_order_upto(root, k - 1);
        if let Element::Node(m) = root.children@[k - 1] {
            lemma_order(m);
        }
        assert(program_doc(root, k) =~= program_seq(root, k));
    }
}

/// In a program whose statements are in their ordinary shape — in each
/// rule, aggregate and term the documentation lines lead, after a rule's
/// body stand only its dot and annotations, after an aggregate's braces no
/// token follows a node, a bracketed term has only tokens before its open
/// bracket and nothing after its close bracket — the order in which the
/// lowered document holds the tokens' texts is their source order.
pub proof fn lemma_source_order(root: Node)
    requires
        forall|k: int|
            0 <= k < root.children@.len() ==> match #[trigger] root.children@[k] {
                Element::Node(m) => ordinary(m),
                Element::Token(_) => true,
            },
    ensures
        program_doc(root, root.children@.len() as int) == program_toks(root),
{
    lemma_program_order_upto(root, root.children@.len() as int);
}

} // verus!
