//! The document shapes the house style is built from: a statement as a group
//! whose inter-statement break stands before it, never inside it; a body
//! nested one level; and a bracketed construct that hugs or spaces its
//! brackets and explodes one element per line when it does not fit.

use vstd::prelude::*;

use crate::doc::{layout, layout_seq, lemma_texts_seq_append, texts, texts_seq, Doc, Mode};

verus! {

/// Whether `d` is an unconditional break.
pub open spec fn is_hard(d: Doc) -> bool {
    d matches Doc::HardLine || d matches Doc::BlankLine
}

/// Whether `d` is an empty concatenation, which renders nothing.
pub open spec fn is_empty_concat(d: Doc) -> bool {
    d matches Doc::Concat(v) && v@.len() == 0
}

/// Whether `docs` begin, past any empty concatenations, with an unconditional
/// break.
pub open spec fn starts_hard(docs: Seq<Doc>) -> bool
    decreases docs.len(),
{
    if docs.len() == 0 {
        false
    } else if is_empty_concat(docs[0]) {
        starts_hard(docs.drop_first())
    } else {
        is_hard(docs[0])
    }
}

/// `after` is `before` with its leading unconditional break `taken` detached:
/// the break is found at the front, or at the front of a leading
/// concatenation (which is dropped once it is left empty); `taken` is `None`
/// when there is no leading break.
pub open spec fn took(before: Seq<Doc>, after: Seq<Doc>, taken: Option<Doc>) -> bool
    decreases before,
{
    if before.len() == 0 {
        after == before && taken is None
    } else {
        match before[0] {
            Doc::HardLine => taken == Some(before[0]) && after == before.drop_first(),
            Doc::BlankLine => taken == Some(before[0]) && after == before.drop_first(),
            Doc::Concat(inner) => if after.len() == before.len() {
                &&& after.drop_first() == before.drop_first()
                &&& after[0] matches Doc::Concat(kept)
                &&& kept@.len() > 0
                &&& took(inner@, kept@, taken)
            } else {
                &&& after == before.drop_first()
                &&& took(inner@, Seq::empty(), taken)
            },
            _ => taken is None && after == before,
        }
    }
}

/// `r` is `body` as a group, with any leading unconditional break standing
/// before the group rather than inside it.
pub open spec fn is_group_of(body: Seq<Doc>, r: Doc) -> bool {
    match r {
        Doc::Concat(v) => {
            &&& v@.len() == 2
            &&& v@[1] matches Doc::Group(g)
            &&& *g matches Doc::Concat(w)
            &&& took(body, w@, Some(v@[0]))
        },
        Doc::Group(g) => {
            &&& *g matches Doc::Concat(w)
            &&& took(body, w@, None)
        },
        _ => false,
    }
}

/// The body a bracketed group wraps: `open`, then the interior nested one
/// level and led by `brk` (unless the interior already begins with an
/// unconditional break), then `brk` again (unless `close` already begins with
/// one), then `close`.
pub open spec fn bracket_body(
    open: Seq<Doc>,
    interior: Seq<Doc>,
    close: Seq<Doc>,
    brk: Doc,
    w: Seq<Doc>,
) -> bool {
    let lead: Seq<Doc> = if starts_hard(interior) {
        Seq::empty()
    } else {
        seq![brk]
    };
    let tail: Seq<Doc> = if starts_hard(close) {
        Seq::empty()
    } else {
        seq![brk]
    };
    &&& w.len() == open.len() + 1 + tail.len() + close.len()
    &&& w.take(open.len() as int) == open
    &&& w[open.len() as int] matches Doc::Nest(n)
    &&& *n matches Doc::Concat(c)
    &&& c@ == lead + interior
    &&& w.skip(open.len() as int + 1) == tail + close
}

/// The layout of a sequence with an optional leading break before it.
pub open spec fn with_break(taken: Option<Doc>, rest: Seq<Doc>) -> Seq<Doc> {
    match taken {
        Some(b) => seq![b] + rest,
        None => rest,
    }
}

/// Detaching a leading break keeps every text: the break has none.
pub proof fn lemma_took_texts(before: Seq<Doc>, after: Seq<Doc>, taken: Option<Doc>)
    requires
        took(before, after, taken),
    ensures
        texts_seq(before) == texts_seq(after),
        taken matches Some(b) ==> texts(b) == Seq::<Seq<char>>::empty(),
    decreases before,
{
    broadcast use vstd::multiset::group_multiset_axioms;

    if before.len() > 0 {
        let rest = before.subrange(1, before.len() as int);
        assert(before.drop_first() =~= rest);
        match before[0] {
            Doc::HardLine => {
                assert(texts(before[0]) == Seq::<Seq<char>>::empty());
                assert(texts_seq(before) =~= texts_seq(rest));
            },
            Doc::BlankLine => {
                assert(texts(before[0]) == Seq::<Seq<char>>::empty());
                assert(texts_seq(before) =~= texts_seq(rest));
            },
            Doc::Concat(inner) => {
                assert(decreases_to!(before => before[0]));
                assert(texts(before[0]) == texts_seq(inner@));
                if after.len() == before.len() {
                    let kept = after[0]->Concat_0;
                    lemma_took_texts(inner@, kept@, taken);
                    assert(after.subrange(1, after.len() as int) =~= rest);
                    assert(texts(after[0]) == texts_seq(kept@));
                } else {
                    lemma_took_texts(inner@, Seq::empty(), taken);
                    assert(texts_seq(Seq::<Doc>::empty()) == Seq::<Seq<char>>::empty());
                    assert(texts_seq(before) =~= texts_seq(rest));
                }
            },
            _ => {},
        }
    }
}

/// A group holds exactly the texts of its body.
pub proof fn lemma_group_texts(body: Seq<Doc>, r: Doc)
    requires
        is_group_of(body, r),
    ensures
        texts(r) == texts_seq(body),
{
    broadcast use vstd::multiset::group_multiset_axioms;

    match r {
        Doc::Concat(v) => {
            let g = v@[1]->Group_0;
            let w = (*g)->Concat_0;
            lemma_took_texts(body, w@, Some(v@[0]));
            let tail = v@.subrange(1, 2);
            assert(tail.subrange(1, 1) =~= Seq::<Doc>::empty());
            assert(tail[0] == v@[1]);
            assert(texts_seq(Seq::<Doc>::empty()) == Seq::<Seq<char>>::empty());
            assert(texts_seq(tail) =~= texts(v@[1]));
            assert(texts(v@[1]) == texts(*g));
            assert(texts(*g) == texts_seq(w@));
            assert(texts(r) == texts_seq(v@));
            assert(texts_seq(v@) == texts(v@[0]) + texts_seq(tail));
            assert(texts(r) =~= texts(v@[0]) + texts_seq(tail));
        },
        Doc::Group(g) => {
            let w = (*g)->Concat_0;
            lemma_took_texts(body, w@, None);
            assert(texts(r) == texts(*g));
            assert(texts(*g) == texts_seq(w@));
        },
        _ => {},
    }
}

/// A bracketed body holds the texts of its brackets and its interior, and
/// nothing more when its break has no text.
pub proof fn lemma_bracket_texts(
    open: Seq<Doc>,
    interior: Seq<Doc>,
    close: Seq<Doc>,
    brk: Doc,
    w: Seq<Doc>,
)
    requires
        bracket_body(open, interior, close, brk, w),
        texts(brk) == Seq::<Seq<char>>::empty(),
    ensures
        texts_seq(w) == texts_seq(open) + texts_seq(interior) + texts_seq(close),
{
    broadcast use vstd::multiset::group_multiset_axioms;

    let lead: Seq<Doc> = if starts_hard(interior) {
        Seq::empty()
    } else {
        seq![brk]
    };
    let tail: Seq<Doc> = if starts_hard(close) {
        Seq::empty()
    } else {
        seq![brk]
    };
    let nest = w[open.len() as int];
    assert(w =~= open + seq![nest] + (tail + close));
    lemma_texts_seq_append(open + seq![nest], tail + close);
    lemma_texts_seq_append(open, seq![nest]);
    lemma_texts_seq_append(tail, close);
    lemma_texts_seq_append(lead, interior);
    assert(texts_seq(Seq::<Doc>::empty()) == Seq::<Seq<char>>::empty());
    assert(seq![brk].subrange(1, 1) =~= Seq::<Doc>::empty());
    assert(seq![nest].subrange(1, 1) =~= Seq::<Doc>::empty());
    assert(texts_seq(seq![brk]) =~= texts(brk));
    assert(texts_seq(lead) =~= Seq::<Seq<char>>::empty());
    assert(texts_seq(tail) =~= Seq::<Seq<char>>::empty());
    let c = (*(nest->Nest_0))->Concat_0;
    assert(texts(nest) == texts(*(nest->Nest_0)));
    assert(texts(*(nest->Nest_0)) == texts_seq(c@));
    assert(texts_seq(seq![nest]) =~= texts(nest));
    assert(texts_seq(w) =~= texts_seq(open) + texts_seq(interior) + texts_seq(close));
}

/// Laying out two sequences one after the other is laying out their
/// concatenation.
pub proof fn lemma_layout_seq_append(
    a: Seq<Doc>,
    b: Seq<Doc>,
    indent: nat,
    mode: Mode,
    col: nat,
    width: nat,
)
    ensures
        ({
            let (s1, c1) = layout_seq(a, indent, mode, col, width);
            let (s2, c2) = layout_seq(b, indent, mode, c1, width);
            layout_seq(a + b, indent, mode, col, width) == (s1 + s2, c2)
        }),
    decreases a.len(),
{
    if a.len() == 0 {
        assert(a + b =~= b);
        assert(Seq::<char>::empty() + layout_seq(b, indent, mode, col, width).0 =~= layout_seq(
            b,
            indent,
            mode,
            col,
            width,
        ).0);
    } else {
        let rest = a.subrange(1, a.len() as int);
        assert((a + b).subrange(1, (a + b).len() as int) =~= rest + b);
        assert((a + b)[0] == a[0]);
        lemma_layout_seq_append(rest, b, indent, mode, layout(a[0], indent, mode, col, width).1, width);
        let (x, cx) = layout(a[0], indent, mode, col, width);
        let (y, cy) = layout_seq(rest, indent, mode, cx, width);
        let (z, cz) = layout_seq(b, indent, mode, cy, width);
        assert(x + (y + z) =~= (x + y) + z);
    }
}

/// A one-element sequence lays out as its element.
pub proof fn lemma_layout_seq_single(d: Doc, indent: nat, mode: Mode, col: nat, width: nat)
    ensures
        layout_seq(seq![d], indent, mode, col, width) == layout(d, indent, mode, col, width),
{
    assert(seq![d].subrange(1, 1) =~= Seq::<Doc>::empty());
    reveal_with_fuel(layout_seq, 2);
    let (s, c) = layout(d, indent, mode, col, width);
    assert(s + Seq::<char>::empty() =~= s);
}

/// Detaching a leading break never changes what a sequence renders to: the
/// break, then the rest, lays out exactly as the whole sequence did.
pub proof fn lemma_took_layout(
    before: Seq<Doc>,
    after: Seq<Doc>,
    taken: Option<Doc>,
    indent: nat,
    mode: Mode,
    col: nat,
    width: nat,
)
    requires
        took(before, after, taken),
    ensures
        layout_seq(with_break(taken, after), indent, mode, col, width) == layout_seq(
            before,
            indent,
            mode,
            col,
            width,
        ),
    decreases before,
{
    if before.len() > 0 {
        let rest = before.drop_first();
        let b0 = before[0];
        assert(before =~= seq![b0] + rest);
        match b0 {
            Doc::HardLine => {
                assert(with_break(taken, after) =~= before);
            },
            Doc::BlankLine => {
                assert(with_break(taken, after) =~= before);
            },
            Doc::Concat(inner) => {
                lemma_layout_seq_append(seq![b0], rest, indent, mode, col, width);
                lemma_layout_seq_single(b0, indent, mode, col, width);
                if after.len() == before.len() {
                    let a0 = after[0];
                    let kept = a0->Concat_0;
                    lemma_took_layout(inner@, kept@, taken, indent, mode, col, width);
                    let x = with_break(taken, seq![a0]);
                    assert(after =~= seq![a0] + rest);
                    assert(with_break(taken, after) =~= x + rest);
                    lemma_layout_seq_append(x, rest, indent, mode, col, width);
                    match taken {
                        None => {
                            lemma_layout_seq_single(a0, indent, mode, col, width);
                        },
                        Some(brk) => {
                            assert(x =~= seq![brk] + seq![a0]);
                            assert(with_break(taken, kept@) =~= seq![brk] + kept@);
                            lemma_layout_seq_append(seq![brk], seq![a0], indent, mode, col, width);
                            lemma_layout_seq_append(seq![brk], kept@, indent, mode, col, width);
                            lemma_layout_seq_single(brk, indent, mode, col, width);
                            let c1 = layout(brk, indent, mode, col, width).1;
                            lemma_layout_seq_single(a0, indent, mode, c1, width);
                        },
                    }
                } else {
                    lemma_took_layout(inner@, Seq::empty(), taken, indent, mode, col, width);
                    let x = with_break(taken, Seq::<Doc>::empty());
                    assert(with_break(taken, after) =~= x + rest);
                    lemma_layout_seq_append(x, rest, indent, mode, col, width);
                }
            },
            _ => {},
        }
    }
}

/// Detach a leading unconditional break from `body`, descending through a
/// leading `Concat` — a grouped head element carries its own already-hoisted
/// break there, so the inter-statement break bubbles out through every
/// enclosing group.
pub fn take_leading_break(body: &mut Vec<Doc>) -> (taken: Option<Doc>)
    ensures
        took(old(body)@, final(body)@, taken),
    decreases old(body)@,
{
    if body.len() == 0 {
        return None;
    }
    let front_is_break = match &body[0] {
        Doc::HardLine => true,
        Doc::BlankLine => true,
        _ => false,
    };
    if front_is_break {
        let ghost before = body@;
        let brk = body.remove(0);
        proof {
            assert(body@ =~= before.drop_first());
        }
        return Some(brk);
    }
    let front_is_concat = match &body[0] {
        Doc::Concat(_) => true,
        _ => false,
    };
    if !front_is_concat {
        return None;
    }
    let ghost before = body@;
    let first = body.remove(0);
    match first {
        Doc::Concat(mut inner) => {
            let ghost inner_before = inner@;
            proof {
                assert(before[0] == Doc::Concat(inner));
            }
            let taken = take_leading_break(&mut inner);
            if inner.len() > 0 {
                body.insert(0, Doc::Concat(inner));
                proof {
                    assert(body@.drop_first() =~= before.drop_first());
                }
            } else {
                proof {
                    assert(inner@ =~= Seq::<Doc>::empty());
                    assert(body@ =~= before.drop_first());
                }
            }
            taken
        },
        _ => None,
    }
}

/// Wrap `body` in a group, with any leading unconditional break — the
/// inter-statement gap — standing before the group, never inside it.
pub fn as_group(body: Vec<Doc>) -> (r: Doc)
    ensures
        is_group_of(body@, r),
        texts(r) == texts_seq(body@),
{
    let ghost whole = body@;
    let mut body = body;
    let r = match take_leading_break(&mut body) {
        Some(brk) => {
            let ghost b = brk;
            let group = Doc::Group(Box::new(Doc::Concat(body)));
            let v = vec![brk, group];
            proof {
                assert(v@[0] == b);
            }
            Doc::Concat(v)
        },
        None => Doc::Group(Box::new(Doc::Concat(body))),
    };
    proof {
        lemma_group_texts(whole, r);
    }
    r
}

/// Wrap a body interior in a group that nests its breaks one level: flat when
/// it fits, one element per line when it does not.
pub fn group_nest(inner: Vec<Doc>) -> (r: Doc)
    ensures
        r matches Doc::Group(g) && *g matches Doc::Nest(n) && *n matches Doc::Concat(c) && c@
            == inner@,
        texts(r) == texts_seq(inner@),
{
    let ghost i = inner@;
    let c = Doc::Concat(inner);
    proof {
        assert(texts(c) == texts_seq(i));
    }
    let n = Doc::Nest(Box::new(c));
    proof {
        assert(texts(n) == texts(c));
    }
    Doc::Group(Box::new(n))
}

/// Whether these lowered children begin, past any empty separator, with an
/// unconditional break — a comment woven on its own line ahead of them.
pub fn starts_with_hard_break(docs: &[Doc]) -> (r: bool)
    ensures
        r == starts_hard(docs@),
{
    let mut i: usize = 0;
    proof {
        assert(docs@.skip(0) =~= docs@);
    }
    while i < docs.len()
        invariant
            i <= docs@.len(),
            starts_hard(docs@) == starts_hard(docs@.skip(i as int)),
        decreases docs.len() - i,
    {
        proof {
            assert(docs@.skip(i as int).drop_first() =~= docs@.skip(i + 1));
        }
        let empty = match &docs[i] {
            Doc::Concat(inner) => inner.len() == 0,
            _ => false,
        };
        if !empty {
            return match &docs[i] {
                Doc::HardLine => true,
                Doc::BlankLine => true,
                _ => false,
            };
        }
        i = i + 1;
    }
    false
}

/// Which break a bracketed group places just inside its brackets.
#[derive(Clone, Copy, PartialEq, Eq, Debug)]
pub enum BracketBreak {
    /// A `SoftLine`: the brackets hug their contents when flat.
    Hug,
    /// A `Line`: a space inside the brackets when flat.
    Space,
}

/// The document node a bracket break stands for.
pub open spec fn break_doc(b: BracketBreak) -> Doc {
    match b {
        BracketBreak::Hug => Doc::SoftLine,
        BracketBreak::Space => Doc::Line,
    }
}

fn make_break(b: BracketBreak) -> (d: Doc)
    ensures
        d == break_doc(b),
{
    match b {
        BracketBreak::Hug => Doc::SoftLine,
        BracketBreak::Space => Doc::Line,
    }
}

/// Assemble a bracketed group: the open bracket, the interior nested one level
/// and led by the interior break, that same break at the enclosing indent, and
/// the close bracket — flat when it fits, one element per line when it does
/// not. Empty brackets abut with no interior break.
pub fn grouped(open: Vec<Doc>, interior: Vec<Doc>, close: Vec<Doc>, brk: BracketBreak) -> (r: Doc)
    ensures
        texts(r) == texts_seq(open@) + texts_seq(interior@) + texts_seq(close@),
        interior@.len() == 0 ==> (r matches Doc::Concat(v) && v@ == open@ + close@),
        interior@.len() > 0 ==> exists|w: Seq<Doc>|
            bracket_body(open@, interior@, close@, break_doc(brk), w) && is_group_of(w, r),
{
    if interior.len() == 0 {
        let mut whole = open;
        let mut close = close;
        let ghost o = whole@;
        let ghost c = close@;
        whole.append(&mut close);
        proof {
            assert(whole@ =~= o + c);
            lemma_texts_seq_append(o, c);
            assert(texts_seq(interior@) == Seq::<Seq<char>>::empty());
            assert(texts_seq(o) + texts_seq(interior@) + texts_seq(c) =~= texts_seq(o) + texts_seq(c));
        }
        return Doc::Concat(whole);
    }
    let ghost i0 = interior@;
    let ghost o0 = open@;
    let ghost c0 = close@;
    let mut nested: Vec<Doc> = Vec::new();
    let interior_hard = starts_with_hard_break(interior.as_slice());
    if !interior_hard {
        nested.push(make_break(brk));
    }
    let mut interior = interior;
    nested.append(&mut interior);
    let ghost n = nested;
    let mut whole = open;
    whole.push(Doc::Nest(Box::new(Doc::Concat(nested))));
    let close_hard = starts_with_hard_break(close.as_slice());
    if !close_hard {
        whole.push(make_break(brk));
    }
    let mut close = close;
    whole.append(&mut close);
    let ghost w = whole@;
    proof {
        let lead: Seq<Doc> = if starts_hard(i0) {
            Seq::empty()
        } else {
            seq![break_doc(brk)]
        };
        let tail: Seq<Doc> = if starts_hard(c0) {
            Seq::empty()
        } else {
            seq![break_doc(brk)]
        };
        assert(n@ =~= lead + i0);
        assert(w.take(o0.len() as int) =~= o0);
        assert(w.skip(o0.len() as int + 1) =~= tail + c0);
        assert(w[o0.len() as int] == Doc::Nest(Box::new(Doc::Concat(n))));
    }
    let r = as_group(whole);
    proof {
        assert(bracket_body(o0, i0, c0, break_doc(brk), w));
        lemma_bracket_texts(o0, i0, c0, break_doc(brk), w);
    }
    r
}

/// A hugging group: the paren, pool, and absolute-value families hug their
/// brackets when flat and explode only when they must.
pub fn bracket_group(open: Vec<Doc>, interior: Vec<Doc>, close: Vec<Doc>) -> (r: Doc)
    ensures
        texts(r) == texts_seq(open@) + texts_seq(interior@) + texts_seq(close@),
        interior@.len() == 0 ==> (r matches Doc::Concat(v) && v@ == open@ + close@),
        interior@.len() > 0 ==> exists|w: Seq<Doc>|
            bracket_body(open@, interior@, close@, Doc::SoftLine, w) && is_group_of(w, r),
{
    grouped(open, interior, close, BracketBreak::Hug)
}

/// A spaced group: the aggregate and optimize families keep a space inside
/// their braces when flat and explode one element per line when they do not
/// fit.
pub fn brace_group(open: Vec<Doc>, interior: Vec<Doc>, close: Vec<Doc>) -> (r: Doc)
    ensures
        texts(r) == texts_seq(open@) + texts_seq(interior@) + texts_seq(close@),
        interior@.len() == 0 ==> (r matches Doc::Concat(v) && v@ == open@ + close@),
        interior@.len() > 0 ==> exists|w: Seq<Doc>|
            bracket_body(open@, interior@, close@, Doc::Line, w) && is_group_of(w, r),
{
    grouped(open, interior, close, BracketBreak::Space)
}

} // verus!
