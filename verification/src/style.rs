//! Laws of the house style, stated over the separators the lowering asks
//! before each text.

use vstd::prelude::*;

use crate::lower::{
    Gap, agg_fold, agg_token_gap, counts, elem_kind, is_aggregate_kind, is_directive, is_doc,
    seq_asked, seq_state,
};
use crate::order::element_before;
use crate::syntax::SyntaxKind;
use crate::tree::{Element, Node, Tok};

verus! {

/// Before its braces, an aggregate, optimize statement or theory definition
/// hands its opening brace the gap its preceding element calls for: an
/// aggregate keyword (`#count`, `#sum`, `#minimize`, ...) or any other token
/// but a name hugs the brace; a guard, or a theory definition's name, is
/// spaced from it.
pub proof fn lemma_brace_after_keyword(n: Node, j: int, brace: Tok, first_gap: Gap)
    requires
        is_aggregate_kind(n.kind),
        0 < j < n.children@.len(),
        n.children@[j] == Element::Token(brace),
        brace.kind == SyntaxKind::LBrace,
        counts(n.children@[j]),
        !is_doc(n.children@[j]),
        counts(n.children@[j - 1]),
        !is_doc(n.children@[j - 1]),
        elem_kind(n.children@[j - 1]) != SyntaxKind::LBrace,
        !agg_fold(n, j - 1).5,
    ensures
        n.children@[j - 1] matches Element::Token(t) && t.kind != SyntaxKind::Ident ==> agg_token_gap(
            n,
            j,
            brace,
            first_gap,
        ) == Gap::Tight,
        !(n.children@[j - 1] matches Element::Token(t) && t.kind != SyntaxKind::Ident)
            ==> agg_token_gap(n, j, brace, first_gap) == Gap::Space,
{
    assert(!agg_fold(n, j).5);
}

/// In a directive, the walk is at its first element until an element — any
/// child but layout, a trivia comment or a documentation line — has been
/// met.
proof fn lemma_directive_first(n: Node, k: int, first_gap: Gap)
    requires
        is_directive(n.kind),
        0 <= k <= n.children@.len(),
    ensures
        seq_state(n, k, first_gap).1 == !element_before(n, k),
    decreases k,
{
    if k > 0 {
        lemma_directive_first(n, k - 1, first_gap);
        let c = n.children@[k - 1];
        if counts(c) && !is_doc(c) {
            assert(element_before(n, k));
        } else {
            assert(element_before(n, k) == element_before(n, k - 1)) by {
                if element_before(n, k) {
                    let j = choose|j: int|
                        0 <= j < k && counts(#[trigger] n.children@[j]) && !is_doc(n.children@[j]);
                    assert(j != k - 1);
                }
            }
        }
    }
}

/// Layout, trivia comments and documentation lines leave a directive's walk
/// where it was.
proof fn lemma_directive_skip(n: Node, j: int, k: int, first_gap: Gap)
    requires
        is_directive(n.kind),
        0 <= j <= k <= n.children@.len(),
        forall|l: int| j <= l < k ==> !counts(#[trigger] n.children@[l]) || is_doc(n.children@[l]),
    ensures
        seq_state(n, k, first_gap) == seq_state(n, j, first_gap),
    decreases k - j,
{
    if j < k {
        lemma_directive_skip(n, j, k - 1, first_gap);
        let c = n.children@[k - 1];
        assert(!counts(c) || is_doc(c));
    }
}

/// In a directive, a `=` past its first element is spaced on both sides:
/// the separator asked before it, and before the next element after it
/// unless that element is the terminating dot, is a space, whatever the
/// walk held before (`#const n = 8.`).
pub proof fn lemma_directive_eq_spaced(n: Node, j: int, k: int, first_gap: Gap)
    requires
        is_directive(n.kind),
        0 <= j < k < n.children@.len(),
        elem_kind(n.children@[j]) == SyntaxKind::Eq,
        n.children@[j] is Token,
        counts(n.children@[j]),
        !is_doc(n.children@[j]),
        element_before(n, j),
        counts(n.children@[k]),
        !is_doc(n.children@[k]),
        elem_kind(n.children@[k]) != SyntaxKind::Dot,
        forall|l: int| j < l < k ==> !counts(#[trigger] n.children@[l]) || is_doc(n.children@[l]),
    ensures
        seq_asked(n.kind, seq_state(n, j, first_gap), n.children@[j]) == Gap::Space,
        seq_asked(n.kind, seq_state(n, k, first_gap), n.children@[k]) == Gap::Space,
{
    lemma_directive_first(n, j, first_gap);
    lemma_directive_skip(n, j + 1, k, first_gap);
    assert(seq_state(n, j + 1, first_gap).0 == Gap::Space);
    assert(!seq_state(n, j + 1, first_gap).1);
}

} // verus!
