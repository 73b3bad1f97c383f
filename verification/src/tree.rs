//! The parsed program as the lowering reads it: a tree of nodes and tokens,
//! each element with an identity, each token with its role and the text the
//! formatter emits for it, and the comment placement plan — the comments
//! that lead or trail each anchor and dangle in each parent, in source order.
//! The parser that builds it, and the two source facts the lowering consults
//! (whether a blank line separates two elements; whether two texts would fuse
//! if set side by side), are the caller's.

use vstd::prelude::*;

use crate::syntax::{SyntaxKind, TokenRole};

verus! {

/// One token: its identity, kind and role, its verbatim text, and the text
/// the formatter emits for it — the canonical spelling of a significant
/// token, the content of a comment (a line comment without its trailing
/// horizontal white space), the value of a script body.
#[derive(Clone, Debug)]
pub struct Tok {
    pub id: usize,
    pub kind: SyntaxKind,
    pub role: TokenRole,
    pub text: String,
    pub spelled: String,
}

/// One element of the tree: a token or a node.
pub enum Element {
    Token(Tok),
    Node(Node),
}

/// One node: its identity, its kind, and its children in source order.
pub struct Node {
    pub id: usize,
    pub kind: SyntaxKind,
    pub children: Vec<Element>,
}

impl Element {
    /// The element's identity.
    pub fn id(&self) -> (r: usize)
        ensures
            r == match self {
                Element::Token(t) => t.id,
                Element::Node(n) => n.id,
            },
    {
        match self {
            Element::Token(t) => t.id,
            Element::Node(n) => n.id,
        }
    }

    /// The element's kind.
    pub fn kind(&self) -> (r: SyntaxKind)
        ensures
            r == match self {
                Element::Token(t) => t.kind,
                Element::Node(n) => n.kind,
            },
    {
        match self {
            Element::Token(t) => t.kind,
            Element::Node(n) => n.kind,
        }
    }
}

/// A copy of `t`, field by field.
fn copy_tok(t: &Tok) -> (r: Tok)
    ensures
        r == *t,
{
    Tok { id: t.id, kind: t.kind, role: t.role, text: t.text.clone(), spelled: t.spelled.clone() }
}

/// A copy of the run `v`, token by token.
fn copy_run(v: &Vec<Tok>) -> (r: Vec<Tok>)
    ensures
        r@ == v@,
{
    let mut r: Vec<Tok> = Vec::new();
    let mut k: usize = 0;
    while k < v.len()
        invariant
            k <= v@.len(),
            r@ == v@.take(k as int),
        decreases v.len() - k,
    {
        r.push(copy_tok(&v[k]));
        proof {
            assert(v@.take(k + 1) =~= v@.take(k as int).push(v@[k as int]));
        }
        k = k + 1;
    }
    proof {
        assert(v@.take(v@.len() as int) =~= v@);
    }
    r
}

/// The comment placement plan, indexed by element identity: the comments
/// leading and trailing each anchor, and the identities of the comments
/// dangling in each parent, each run in source order.
pub struct Plan {
    pub leading: Vec<Vec<Tok>>,
    pub trailing: Vec<Vec<Tok>>,
    pub dangling: Vec<Vec<usize>>,
}

impl Plan {
    /// The comments leading `anchor`; none for an anchor the plan does not
    /// cover.
    pub fn leading(&self, anchor: usize) -> (r: Vec<Tok>)
        ensures
            anchor >= self.leading@.len() ==> r@.len() == 0,
            anchor < self.leading@.len() ==> r@ == self.leading@[anchor as int]@,
    {
        if anchor < self.leading.len() {
            copy_run(&self.leading[anchor])
        } else {
            Vec::new()
        }
    }

    /// The comments trailing `anchor`; none for an anchor the plan does not
    /// cover.
    pub fn trailing(&self, anchor: usize) -> (r: Vec<Tok>)
        ensures
            anchor >= self.trailing@.len() ==> r@.len() == 0,
            anchor < self.trailing@.len() ==> r@ == self.trailing@[anchor as int]@,
    {
        if anchor < self.trailing.len() {
            copy_run(&self.trailing[anchor])
        } else {
            Vec::new()
        }
    }

    /// Whether the comment `token` dangles in `parent`.
    pub fn dangles(&self, parent: usize, token: usize) -> (r: bool)
        ensures
            r == (parent < self.dangling@.len() && self.dangling@[parent as int]@.contains(token)),
    {
        if parent >= self.dangling.len() {
            return false;
        }
        let run = &self.dangling[parent];
        let mut k: usize = 0;
        while k < run.len()
            invariant
                k <= run@.len(),
                parent < self.dangling@.len(),
                run@ == self.dangling@[parent as int]@,
                forall|j: int| 0 <= j < k ==> run@[j] != token,
            decreases run.len() - k,
        {
            if run[k] == token {
                assert(run@[k as int] == token);
                return true;
            }
            k = k + 1;
        }
        false
    }
}

/// Where a comment attaches to its anchor: before it, after it on its line,
/// or floating inside it.
#[derive(Clone, Copy, PartialEq, Eq, Debug, Structural)]
pub enum Slot {
    Leading,
    Trailing,
    Dangling,
}

/// One comment's attachment: the comment, its slot, and its anchor's
/// identity.
pub struct Attachment {
    pub comment: Tok,
    pub slot: Slot,
    pub anchor: usize,
}

/// The identities of a run of comments.
pub open spec fn ids(run: Seq<Tok>) -> Seq<usize> {
    run.map_values(|t: Tok| t.id)
}

/// The identities of the comments attached to `anchor` in `slot`, in order.
pub open spec fn placed(atts: Seq<Attachment>, slot: Slot, anchor: usize) -> Seq<usize> {
    atts.filter(|x: Attachment| x.slot == slot && x.anchor == anchor).map_values(
        |x: Attachment| x.comment.id,
    )
}

/// `size` empty runs.
fn empty_runs<T>(size: usize) -> (r: Vec<Vec<T>>)
    ensures
        r@.len() == size,
        forall|a: int| 0 <= a < size ==> (#[trigger] r@[a])@.len() == 0,
{
    let mut r: Vec<Vec<T>> = Vec::new();
    let mut k: usize = 0;
    while k < size
        invariant
            k <= size,
            r@.len() == k,
            forall|a: int| 0 <= a < k ==> (#[trigger] r@[a])@.len() == 0,
        decreases size - k,
    {
        r.push(Vec::new());
        k = k + 1;
    }
    r
}

proof fn lemma_placed_push(atts: Seq<Attachment>, x: Attachment, slot: Slot, anchor: usize)
    ensures
        placed(atts.push(x), slot, anchor) == if x.slot == slot && x.anchor == anchor {
            placed(atts, slot, anchor).push(x.comment.id)
        } else {
            placed(atts, slot, anchor)
        },
{
    let p = |y: Attachment| y.slot == slot && y.anchor == anchor;
    atts.lemma_filter_push(x, p);
    if p(x) {
        assert(atts.push(x).filter(p).map_values(|y: Attachment| y.comment.id) =~= atts.filter(
            p,
        ).map_values(|y: Attachment| y.comment.id).push(x.comment.id));
    }
}

/// Fold the attachments, in source order, into the placement plan for a
/// tree of `size` elements: each comment bucketed by its anchor and slot,
/// each run in the order the attachments come.
pub fn plan(size: usize, attachments: Vec<Attachment>) -> (p: Plan)
    ensures
        p.leading@.len() == size,
        p.trailing@.len() == size,
        p.dangling@.len() == size,
        forall|a: int|
            0 <= a < size ==> ids(#[trigger] p.leading@[a]@) == placed(
                attachments@,
                Slot::Leading,
                a as usize,
            ),
        forall|a: int|
            0 <= a < size ==> ids(#[trigger] p.trailing@[a]@) == placed(
                attachments@,
                Slot::Trailing,
                a as usize,
            ),
        forall|a: int|
            0 <= a < size ==> (#[trigger] p.dangling@[a])@ == placed(
                attachments@,
                Slot::Dangling,
                a as usize,
            ),
{
    let ghost all = attachments@;
    let mut leading: Vec<Vec<Tok>> = empty_runs(size);
    let mut trailing: Vec<Vec<Tok>> = empty_runs(size);
    let mut dangling: Vec<Vec<usize>> = empty_runs(size);
    let total = attachments.len();
    let mut rest = attachments;
    let mut i: usize = 0;
    proof {
        assert(all.take(0) =~= Seq::<Attachment>::empty());
        assert forall|a: int| 0 <= a < size implies ids(#[trigger] leading@[a]@) == placed(all.take(0), Slot::Leading, a as usize) by {
            assert(ids(leading@[a]@) =~= Seq::<usize>::empty());
            assert(placed(all.take(0), Slot::Leading, a as usize) =~= Seq::<usize>::empty());
        }
        assert forall|a: int| 0 <= a < size implies ids(#[trigger] trailing@[a]@) == placed(all.take(0), Slot::Trailing, a as usize) by {
            assert(ids(trailing@[a]@) =~= Seq::<usize>::empty());
            assert(placed(all.take(0), Slot::Trailing, a as usize) =~= Seq::<usize>::empty());
        }
        assert forall|a: int| 0 <= a < size implies (#[trigger] dangling@[a])@ == placed(all.take(0), Slot::Dangling, a as usize) by {
            assert(dangling@[a]@ =~= Seq::<usize>::empty());
            assert(placed(all.take(0), Slot::Dangling, a as usize) =~= Seq::<usize>::empty());
        }
    }
    while rest.len() > 0
        invariant
            i + rest@.len() == all.len(),
            all.len() == total,
            rest@ == all.skip(i as int),
            leading@.len() == size,
            trailing@.len() == size,
            dangling@.len() == size,
            forall|a: int|
                0 <= a < size ==> ids(#[trigger] leading@[a]@) == placed(
                    all.take(i as int),
                    Slot::Leading,
                    a as usize,
                ),
            forall|a: int|
                0 <= a < size ==> ids(#[trigger] trailing@[a]@) == placed(
                    all.take(i as int),
                    Slot::Trailing,
                    a as usize,
                ),
            forall|a: int|
                0 <= a < size ==> (#[trigger] dangling@[a])@ == placed(
                    all.take(i as int),
                    Slot::Dangling,
                    a as usize,
                ),
        decreases rest.len(),
    {
        let x = rest.remove(0);
        proof {
            assert(x == all[i as int]);
            assert(rest@ =~= all.skip(i + 1));
            assert(all.take(i + 1) =~= all.take(i as int).push(x));
            lemma_placed_push(all.take(i as int), x, Slot::Leading, x.anchor);
            lemma_placed_push(all.take(i as int), x, Slot::Trailing, x.anchor);
            lemma_placed_push(all.take(i as int), x, Slot::Dangling, x.anchor);
            assert forall|a: usize| a != x.anchor implies placed(all.take(i + 1), Slot::Leading, a)
                == placed(all.take(i as int), Slot::Leading, a) && placed(all.take(i + 1), Slot::Trailing, a)
                == placed(all.take(i as int), Slot::Trailing, a) && placed(all.take(i + 1), Slot::Dangling, a)
                == placed(all.take(i as int), Slot::Dangling, a) by {
                lemma_placed_push(all.take(i as int), x, Slot::Leading, a);
                lemma_placed_push(all.take(i as int), x, Slot::Trailing, a);
                lemma_placed_push(all.take(i as int), x, Slot::Dangling, a);
            }
        }
        let a = x.anchor;
        if a < size {
            match x.slot {
                Slot::Leading => {
                    let ghost before = leading@;
                    let mut run = leading.remove(a);
                    let ghost old_run = run@;
                    let id = x.comment.id;
                    run.push(x.comment);
                    leading.insert(a, run);
                    proof {
                        assert(ids(run@) =~= ids(old_run).push(id));
                        assert forall|b: int| 0 <= b < size implies ids(#[trigger] leading@[b]@) == placed(all.take(i + 1), Slot::Leading, b as usize) by {
                            if b != a {
                                assert(leading@[b] == before[b]);
                            }
                        }
                    }
                },
                Slot::Trailing => {
                    let ghost before = trailing@;
                    let mut run = trailing.remove(a);
                    let ghost old_run = run@;
                    let id = x.comment.id;
                    run.push(x.comment);
                    trailing.insert(a, run);
                    proof {
                        assert(ids(run@) =~= ids(old_run).push(id));
                        assert forall|b: int| 0 <= b < size implies ids(#[trigger] trailing@[b]@) == placed(all.take(i + 1), Slot::Trailing, b as usize) by {
                            if b != a {
                                assert(trailing@[b] == before[b]);
                            }
                        }
                    }
                },
                Slot::Dangling => {
                    let ghost before = dangling@;
                    let mut run = dangling.remove(a);
                    run.push(x.comment.id);
                    dangling.insert(a, run);
                    proof {
                        assert forall|b: int| 0 <= b < size implies (#[trigger] dangling@[b])@ == placed(all.take(i + 1), Slot::Dangling, b as usize) by {
                            if b != a {
                                assert(dangling@[b] == before[b]);
                            }
                        }
                    }
                },
            }
        }
        i = i + 1;
    }
    proof {
        assert(all.take(i as int) =~= all);
    }
    Plan { leading, trailing, dangling }
}

} // verus!
