//! The document IR and its renderer: a small Wadler/Lindig document the
//! lowering builds, and the width-driven, explicit-stack renderer that lays it
//! out. Each group is laid flat when it fits the columns left on its line and
//! broken otherwise; a `Text`'s own newlines are content, never layout.
//!
//! The meaning of a document is stated once, by the recursive spec functions
//! `layout` (what `render` prints) and `scan` (what `fits` measures); the
//! executable renderer walks an explicit stack and is proved equal to them.

use vstd::prelude::*;

use crate::text::{chars_of, push_char, push_str};

verus! {

/// The indent unit: every `Nest` indents the breaks within it by this many
/// columns.
pub const INDENT: usize = 4;

/// A layout-independent document, rendered to text at a target width.
pub enum Doc {
    /// Verbatim text. Its newlines are content: the renderer emits them exactly
    /// and the column restarts after the last one.
    Text(String),
    /// A soft break: a space when its group is flat, a newline (at the current
    /// indent) when broken.
    Line,
    /// A soft break that is nothing when flat and a newline when broken.
    SoftLine,
    /// An unconditional newline.
    HardLine,
    /// A blank line kept as one: two newlines.
    BlankLine,
    /// Indent everything within by one level.
    Nest(Box<Doc>),
    /// A choice point: flat if it fits the remaining width, otherwise broken.
    Group(Box<Doc>),
    /// Concatenation.
    Concat(Vec<Doc>),
}

/// Whether a group renders on one line or breaks.
#[derive(Clone, Copy, PartialEq, Eq, Debug)]
pub enum Mode {
    Flat,
    Break,
}

// ---------------------------------------------------------------------------
// The meaning of a document.

/// `n` spaces.
pub open spec fn spaces(n: nat) -> Seq<char> {
    Seq::new(n, |i: int| ' ')
}

/// A newline followed by the indentation `indent`.
pub open spec fn newline_to(indent: nat) -> Seq<char> {
    seq!['\n'] + spaces(indent)
}

/// The column after writing `s` from column `col`: each newline restarts the
/// column at zero, every other character advances it by one.
pub open spec fn text_col(s: Seq<char>, col: nat) -> nat
    decreases s.len(),
{
    if s.len() == 0 {
        col
    } else {
        text_col(s.drop_first(), if s[0] == '\n' { 0 } else { col + 1 })
    }
}

/// Measuring `s` laid flat from column `col` against `width`: the column
/// reached, or `None` as soon as a character would stand past `width`.
pub open spec fn scan_text(s: Seq<char>, col: nat, width: nat) -> Option<nat>
    decreases s.len(),
{
    if s.len() == 0 {
        Some(col)
    } else if s[0] == '\n' {
        scan_text(s.drop_first(), 0, width)
    } else if col + 1 > width {
        None
    } else {
        scan_text(s.drop_first(), col + 1, width)
    }
}

/// Measuring `d` laid flat from column `col`: the column reached, or `None`
/// when a line overflows `width` or an unconditional break forbids the flat
/// layout.
pub open spec fn scan(d: Doc, col: nat, width: nat) -> Option<nat>
    decreases d,
{
    match d {
        Doc::Text(s) => scan_text(s@, col, width),
        Doc::Line => if col + 1 > width {
            None
        } else {
            Some(col + 1)
        },
        Doc::SoftLine => Some(col),
        Doc::HardLine => None,
        Doc::BlankLine => None,
        Doc::Nest(inner) => scan(*inner, col, width),
        Doc::Group(inner) => scan(*inner, col, width),
        Doc::Concat(items) => scan_seq(items@, col, width),
    }
}

/// `scan` over a sequence of documents laid out one after another.
pub open spec fn scan_seq(items: Seq<Doc>, col: nat, width: nat) -> Option<nat>
    decreases items,
{
    if items.len() == 0 {
        Some(col)
    } else {
        match scan(items[0], col, width) {
            None => None,
            Some(c) => scan_seq(items.subrange(1, items.len() as int), c, width),
        }
    }
}

/// Whether `d` laid flat from column `start` stays within `width` on every line.
pub open spec fn fits_spec(width: nat, start: nat, d: Doc) -> bool {
    match scan(d, start, width) {
        Some(c) => c <= width,
        None => false,
    }
}

/// `d` holds an unconditional break.
pub open spec fn breaks_hard(d: Doc) -> bool
    decreases d,
{
    match d {
        Doc::HardLine => true,
        Doc::BlankLine => true,
        Doc::Nest(inner) => breaks_hard(*inner),
        Doc::Group(inner) => breaks_hard(*inner),
        Doc::Concat(items) => breaks_hard_seq(items@),
        _ => false,
    }
}

/// One of `items` holds an unconditional break.
pub open spec fn breaks_hard_seq(items: Seq<Doc>) -> bool
    decreases items,
{
    if items.len() == 0 {
        false
    } else {
        breaks_hard(items[0]) || breaks_hard_seq(items.subrange(1, items.len() as int))
    }
}

/// `d` lays out on one line whatever its mode: no unconditional break, no
/// newline in its texts.
pub open spec fn one_line(d: Doc) -> bool
    decreases d,
{
    match d {
        Doc::Text(s) => !s@.contains('\n'),
        Doc::HardLine => false,
        Doc::BlankLine => false,
        Doc::Nest(inner) => one_line(*inner),
        Doc::Group(inner) => one_line(*inner),
        Doc::Concat(items) => one_line_seq(items@),
        _ => true,
    }
}

/// Each of `items` lays out on one line.
pub open spec fn one_line_seq(items: Seq<Doc>) -> bool
    decreases items,
{
    if items.len() == 0 {
        true
    } else {
        one_line(items[0]) && one_line_seq(items.subrange(1, items.len() as int))
    }
}

/// The width of `d` laid flat: its texts' characters, and one column for
/// each soft break that becomes a space.
pub open spec fn flat_width(d: Doc) -> nat
    decreases d,
{
    match d {
        Doc::Text(s) => s@.len(),
        Doc::Line => 1,
        Doc::Nest(inner) => flat_width(*inner),
        Doc::Group(inner) => flat_width(*inner),
        Doc::Concat(items) => flat_width_seq(items@),
        _ => 0,
    }
}

/// The width of `items` laid flat one after another.
pub open spec fn flat_width_seq(items: Seq<Doc>) -> nat
    decreases items,
{
    if items.len() == 0 {
        0
    } else {
        flat_width(items[0]) + flat_width_seq(items.subrange(1, items.len() as int))
    }
}

proof fn lemma_scan_hard(d: Doc, col: nat, width: nat)
    requires
        breaks_hard(d),
    ensures
        scan(d, col, width) is None,
    decreases d,
{
    match d {
        Doc::Nest(inner) => lemma_scan_hard(*inner, col, width),
        Doc::Group(inner) => lemma_scan_hard(*inner, col, width),
        Doc::Concat(items) => lemma_scan_hard_seq(items@, col, width),
        _ => {},
    }
}

proof fn lemma_scan_hard_seq(items: Seq<Doc>, col: nat, width: nat)
    requires
        breaks_hard_seq(items),
    ensures
        scan_seq(items, col, width) is None,
    decreases items,
{
    if breaks_hard(items[0]) {
        lemma_scan_hard(items[0], col, width);
    } else {
        match scan(items[0], col, width) {
            None => {},
            Some(c) => lemma_scan_hard_seq(items.subrange(1, items.len() as int), c, width),
        }
    }
}

proof fn lemma_scan_text_flat(s: Seq<char>, col: nat, width: nat)
    requires
        !s.contains('\n'),
    ensures
        scan_text(s, col, width) matches Some(c) ==> c == col + s.len(),
        scan_text(s, col, width) is None ==> col + s.len() > width,
    decreases s.len(),
{
    if s.len() > 0 {
        assert(s[0] != '\n') by {
            if s[0] == '\n' {
                assert(s.contains('\n'));
            }
        }
        assert(!s.drop_first().contains('\n')) by {
            if s.drop_first().contains('\n') {
                let i = choose|i: int| 0 <= i < s.drop_first().len() && s.drop_first()[i] == '\n';
                assert(s[i + 1] == '\n');
            }
        }
        assert(s.drop_first().len() == s.len() - 1);
        if col + 1 <= width {
            assert(scan_text(s, col, width) == scan_text(s.drop_first(), (col + 1) as nat, width));
            lemma_scan_text_flat(s.drop_first(), (col + 1) as nat, width);
        } else {
            assert(scan_text(s, col, width) is None);
        }
    }
}

proof fn lemma_scan_flat(d: Doc, col: nat, width: nat)
    requires
        one_line(d),
    ensures
        scan(d, col, width) matches Some(c) ==> c == col + flat_width(d),
        scan(d, col, width) is None ==> col + flat_width(d) > width,
    decreases d,
{
    match d {
        Doc::Text(s) => lemma_scan_text_flat(s@, col, width),
        Doc::Nest(inner) => lemma_scan_flat(*inner, col, width),
        Doc::Group(inner) => lemma_scan_flat(*inner, col, width),
        Doc::Concat(items) => lemma_scan_flat_seq(items@, col, width),
        _ => {},
    }
}

proof fn lemma_scan_flat_seq(items: Seq<Doc>, col: nat, width: nat)
    requires
        one_line_seq(items),
    ensures
        scan_seq(items, col, width) matches Some(c) ==> c == col + flat_width_seq(items),
        scan_seq(items, col, width) is None ==> col + flat_width_seq(items) > width,
    decreases items,
{
    if items.len() > 0 {
        lemma_scan_flat(items[0], col, width);
        let rest = items.subrange(1, items.len() as int);
        assert(flat_width_seq(items) == flat_width(items[0]) + flat_width_seq(rest));
        assert(one_line(items[0]) && one_line_seq(rest));
        match scan(items[0], col, width) {
            Some(c) => lemma_scan_flat_seq(rest, c, width),
            None => {},
        }
    }
}

/// A document that holds an unconditional break never fits flat.
pub proof fn lemma_hard_never_fits(width: nat, start: nat, d: Doc)
    requires
        breaks_hard(d),
    ensures
        !fits_spec(width, start, d),
{
    lemma_scan_hard(d, start, width);
}

/// A document that lays out on one line fits exactly when its flat width,
/// from the starting column, stays within the width.
pub proof fn lemma_one_line_fits(width: nat, start: nat, d: Doc)
    requires
        one_line(d),
    ensures
        fits_spec(width, start, d) == (start + flat_width(d) <= width),
{
    lemma_scan_flat(d, start, width);
}

/// A group that lays out on one line is laid flat exactly when its flat
/// width, counted from the column the renderer has reached on its line,
/// stays within the width — whatever the indentation it sits at — and is
/// broken otherwise.
pub proof fn lemma_group_flat_from_column(inner: Doc, indent: nat, mode: Mode, col: nat, width: nat)
    requires
        one_line(inner),
    ensures
        layout(Doc::Group(Box::new(inner)), indent, mode, col, width) == layout(
            inner,
            indent,
            if col + flat_width(inner) <= width {
                Mode::Flat
            } else {
                Mode::Break
            },
            col,
            width,
        ),
{
    lemma_one_line_fits(width, col, inner);
}

/// The text `d` renders to at indent `indent` in `mode` from column `col`, and
/// the column it ends on. A group chooses its own mode by `fits_spec`; every
/// other node inherits the mode of its enclosing group.
pub open spec fn layout(d: Doc, indent: nat, mode: Mode, col: nat, width: nat) -> (Seq<char>, nat)
    decreases d,
{
    match d {
        Doc::Text(s) => (s@, text_col(s@, col)),
        Doc::Line => match mode {
            Mode::Flat => (seq![' '], col + 1),
            Mode::Break => (newline_to(indent), indent),
        },
        Doc::SoftLine => match mode {
            Mode::Flat => (Seq::empty(), col),
            Mode::Break => (newline_to(indent), indent),
        },
        Doc::HardLine => (newline_to(indent), indent),
        Doc::BlankLine => (seq!['\n'] + newline_to(indent), indent),
        Doc::Nest(inner) => layout(*inner, indent + INDENT as nat, mode, col, width),
        Doc::Group(inner) => layout(
            *inner,
            indent,
            if fits_spec(width, col, *inner) {
                Mode::Flat
            } else {
                Mode::Break
            },
            col,
            width,
        ),
        Doc::Concat(items) => layout_seq(items@, indent, mode, col, width),
    }
}

/// `layout` over a sequence of documents laid out one after another.
pub open spec fn layout_seq(items: Seq<Doc>, indent: nat, mode: Mode, col: nat, width: nat) -> (
    Seq<char>,
    nat,
)
    decreases items,
{
    if items.len() == 0 {
        (Seq::empty(), col)
    } else {
        let (s1, c1) = layout(items[0], indent, mode, col, width);
        let (s2, c2) = layout_seq(items.subrange(1, items.len() as int), indent, mode, c1, width);
        (s1 + s2, c2)
    }
}

/// The text `render(d, width)` produces: the root laid out flat from column 0.
pub open spec fn rendered(d: Doc, width: nat) -> Seq<char> {
    layout(d, 0, Mode::Flat, 0, width).0
}

/// How many `Nest`s deep the deepest break of `d` sits.
pub open spec fn nest_depth(d: Doc) -> nat
    decreases d,
{
    match d {
        Doc::Nest(inner) => 1 + nest_depth(*inner),
        Doc::Group(inner) => nest_depth(*inner),
        Doc::Concat(items) => nest_depth_seq(items@),
        _ => 0,
    }
}

/// The greatest `nest_depth` among `items`.
pub open spec fn nest_depth_seq(items: Seq<Doc>) -> nat
    decreases items,
{
    if items.len() == 0 {
        0
    } else {
        let first = nest_depth(items[0]);
        let rest = nest_depth_seq(items.subrange(1, items.len() as int));
        if first >= rest {
            first
        } else {
            rest
        }
    }
}

// ---------------------------------------------------------------------------
// The explicit stacks and what they stand for.

/// Laying out a render stack, top (last) entry first, from column `col`.
pub open spec fn layout_stack(st: Seq<(usize, Mode, &Doc)>, col: nat, width: nat) -> (
    Seq<char>,
    nat,
)
    decreases st.len(),
{
    if st.len() == 0 {
        (Seq::empty(), col)
    } else {
        let top = st.last();
        let (s1, c1) = layout(*top.2, top.0 as nat, top.1, col, width);
        let (s2, c2) = layout_stack(st.drop_last(), c1, width);
        (s1 + s2, c2)
    }
}

/// Measuring a `fits` stack, top (last) entry first, from column `col`.
pub open spec fn scan_stack(st: Seq<&Doc>, col: nat, width: nat) -> Option<nat>
    decreases st.len(),
{
    if st.len() == 0 {
        Some(col)
    } else {
        match scan(*st.last(), col, width) {
            None => None,
            Some(c) => scan_stack(st.drop_last(), c, width),
        }
    }
}

/// The stack that lays `items` out in order: reversed, so the first is on top.
pub open spec fn pushed_render(
    st: Seq<(usize, Mode, &Doc)>,
    items: Seq<Doc>,
    indent: usize,
    mode: Mode,
) -> Seq<(usize, Mode, &Doc)>
    decreases items.len(),
{
    if items.len() == 0 {
        st
    } else {
        pushed_render(st, items.subrange(1, items.len() as int), indent, mode).push(
            (indent, mode, &items[0]),
        )
    }
}

/// The `fits` stack that measures `items` in order: reversed, so the first is
/// on top.
pub open spec fn pushed_scan(st: Seq<&Doc>, items: Seq<Doc>) -> Seq<&Doc>
    decreases items.len(),
{
    if items.len() == 0 {
        st
    } else {
        pushed_scan(st, items.subrange(1, items.len() as int)).push(&items[0])
    }
}

/// The number of nodes in `d`.
pub open spec fn doc_size(d: Doc) -> nat
    decreases d,
{
    match d {
        Doc::Nest(inner) => 1 + doc_size(*inner),
        Doc::Group(inner) => 1 + doc_size(*inner),
        Doc::Concat(items) => 1 + doc_size_seq(items@),
        _ => 1,
    }
}

/// The number of nodes in `items`.
pub open spec fn doc_size_seq(items: Seq<Doc>) -> nat
    decreases items,
{
    if items.len() == 0 {
        0
    } else {
        doc_size(items[0]) + doc_size_seq(items.subrange(1, items.len() as int))
    }
}

/// The verbatim texts of `d`, in order: what it prints beyond its breaks.
pub open spec fn texts(d: Doc) -> Seq<Seq<char>>
    decreases d,
{
    match d {
        Doc::Text(s) => seq![s@],
        Doc::Nest(inner) => texts(*inner),
        Doc::Group(inner) => texts(*inner),
        Doc::Concat(items) => texts_seq(items@),
        _ => Seq::empty(),
    }
}

/// The verbatim texts of `items`, in order.
pub open spec fn texts_seq(items: Seq<Doc>) -> Seq<Seq<char>>
    decreases items,
{
    if items.len() == 0 {
        Seq::empty()
    } else {
        texts(items[0]) + texts_seq(items.subrange(1, items.len() as int))
    }
}

/// The texts of two runs one after the other are the texts of each.
pub proof fn lemma_texts_seq_append(a: Seq<Doc>, b: Seq<Doc>)
    ensures
        texts_seq(a + b) == texts_seq(a) + texts_seq(b),
    decreases a.len(),
{
    if a.len() == 0 {
        assert(a + b =~= b);
        assert(texts_seq(a) + texts_seq(b) =~= texts_seq(b));
    } else {
        let r = a.subrange(1, a.len() as int);
        lemma_texts_seq_append(r, b);
        assert((a + b).subrange(1, (a + b).len() as int) =~= r + b);
        assert((a + b)[0] == a[0]);
        assert(texts_seq(a + b) =~= texts(a[0]) + (texts_seq(r) + texts_seq(b)));
        assert(texts_seq(a) + texts_seq(b) =~= texts(a[0]) + texts_seq(r) + texts_seq(b));
    }
}

/// Pushing a document adds its texts at the end.
pub proof fn lemma_texts_seq_push(a: Seq<Doc>, d: Doc)
    ensures
        texts_seq(a.push(d)) == texts_seq(a) + texts(d),
{
    lemma_texts_seq_append(a, seq![d]);
    assert(a + seq![d] =~= a.push(d));
    let one = seq![d];
    assert(one.subrange(1, 1) =~= Seq::<Doc>::empty());
    assert(texts_seq(Seq::<Doc>::empty()) == Seq::<Seq<char>>::empty());
    assert(texts_seq(one) == texts(d) + texts_seq(one.subrange(1, 1)));
    assert(texts_seq(one) =~= texts(d));
}

/// The number of nodes a `fits` stack still holds.
pub open spec fn scan_stack_size(st: Seq<&Doc>) -> nat
    decreases st.len(),
{
    if st.len() == 0 {
        0
    } else {
        doc_size(*st.last()) + scan_stack_size(st.drop_last())
    }
}

/// The number of nodes a render stack still holds.
pub open spec fn render_stack_size(st: Seq<(usize, Mode, &Doc)>) -> nat
    decreases st.len(),
{
    if st.len() == 0 {
        0
    } else {
        doc_size(*st.last().2) + render_stack_size(st.drop_last())
    }
}

proof fn lemma_scan_size_pushed(st: Seq<&Doc>, items: Seq<Doc>)
    ensures
        scan_stack_size(pushed_scan(st, items)) == scan_stack_size(st) + doc_size_seq(items),
    decreases items.len(),
{
    if items.len() > 0 {
        let rest = items.subrange(1, items.len() as int);
        let p = pushed_scan(st, rest).push(&items[0]);
        assert(p.drop_last() =~= pushed_scan(st, rest));
        lemma_scan_size_pushed(st, rest);
    }
}

proof fn lemma_render_size_pushed(st: Seq<(usize, Mode, &Doc)>, items: Seq<Doc>, indent: usize, mode: Mode)
    ensures
        render_stack_size(pushed_render(st, items, indent, mode)) == render_stack_size(st)
            + doc_size_seq(items),
    decreases items.len(),
{
    if items.len() > 0 {
        let rest = items.subrange(1, items.len() as int);
        let p = pushed_render(st, rest, indent, mode).push((indent, mode, &items[0]));
        assert(p.drop_last() =~= pushed_render(st, rest, indent, mode));
        lemma_render_size_pushed(st, rest, indent, mode);
    }
}

// ---------------------------------------------------------------------------
// Lemmas.

proof fn lemma_scan_stack_pushed(st: Seq<&Doc>, items: Seq<Doc>, col: nat, width: nat)
    ensures
        scan_stack(pushed_scan(st, items), col, width) == match scan_seq(items, col, width) {
            None => None,
            Some(c) => scan_stack(st, c, width),
        },
    decreases items.len(),
{
    if items.len() > 0 {
        let rest = items.subrange(1, items.len() as int);
        let p = pushed_scan(st, rest).push(&items[0]);
        assert(p.drop_last() =~= pushed_scan(st, rest));
        match scan(items[0], col, width) {
            None => {},
            Some(c) => {
                lemma_scan_stack_pushed(st, rest, c, width);
            },
        }
    }
}

proof fn lemma_layout_stack_pushed(
    st: Seq<(usize, Mode, &Doc)>,
    items: Seq<Doc>,
    indent: usize,
    mode: Mode,
    col: nat,
    width: nat,
)
    ensures
        ({
            let (s1, c1) = layout_seq(items, indent as nat, mode, col, width);
            let (s2, c2) = layout_stack(st, c1, width);
            layout_stack(pushed_render(st, items, indent, mode), col, width) == (s1 + s2, c2)
        }),
    decreases items.len(),
{
    if items.len() > 0 {
        let rest = items.subrange(1, items.len() as int);
        let p = pushed_render(st, rest, indent, mode).push((indent, mode, &items[0]));
        assert(p.drop_last() =~= pushed_render(st, rest, indent, mode));
        let (a, ca) = layout(items[0], indent as nat, mode, col, width);
        lemma_layout_stack_pushed(st, rest, indent, mode, ca, width);
        let (b, cb) = layout_seq(rest, indent as nat, mode, ca, width);
        let (c, cc) = layout_stack(st, cb, width);
        assert(a + (b + c) =~= (a + b) + c);
    } else {
        assert(Seq::<char>::empty() + layout_stack(st, col, width).0 =~= layout_stack(
            st,
            col,
            width,
        ).0);
    }
}

proof fn lemma_nest_depth_seq(items: Seq<Doc>, i: int)
    requires
        0 <= i < items.len(),
    ensures
        nest_depth(items[i]) <= nest_depth_seq(items),
    decreases items.len(),
{
    if i > 0 {
        let rest = items.subrange(1, items.len() as int);
        lemma_nest_depth_seq(rest, i - 1);
        assert(rest[i - 1] == items[i]);
    }
}

// ---------------------------------------------------------------------------
// The renderer.

/// Render `doc` at the target `width`, laying each group flat if it fits the
/// remaining columns and broken otherwise. Explicit-stack, never recursive on
/// a child; cost linear in the document.
pub fn render(doc: &Doc, width: usize) -> (out: String)
    requires
        rendered(*doc, width as nat).len() <= usize::MAX,
        INDENT * nest_depth(*doc) <= usize::MAX,
    ensures
        out@ == rendered(*doc, width as nat),
{
    let mut out = String::new();
    let mut col: usize = 0;
    let mut stack: Vec<(usize, Mode, &Doc)> = Vec::new();
    stack.push((0, Mode::Flat, doc));
    let ghost total = rendered(*doc, width as nat);
    proof {
        assert(stack@.drop_last() =~= Seq::<(usize, Mode, &Doc)>::empty());
        reveal_with_fuel(layout_stack, 2);
        assert(layout_stack(stack@, 0, width as nat).0 =~= total);
        assert(out@ + total =~= total);
    }
    while stack.len() > 0
        invariant
            out@ + layout_stack(stack@, col as nat, width as nat).0 == total,
            total.len() <= usize::MAX,
            col <= out@.len(),
            forall|k: int|
                0 <= k < stack@.len() ==> #[trigger] stack@[k].0 + INDENT * nest_depth(
                    *stack@[k].2,
                ) <= usize::MAX,
        decreases render_stack_size(stack@),
    {
        let ghost before = stack@;
        let ghost out0 = out@;
        let ghost col0 = col as nat;
        let (indent, mode, node) = stack.pop().unwrap();
        let ghost rest = stack@;
        let ghost (s1, c1) = layout(*node, indent as nat, mode, col0, width as nat);
        let ghost (s2, c2) = layout_stack(rest, c1, width as nat);
        proof {
            assert(before.drop_last() =~= rest);
            assert(before.last() == (indent, mode, node));
            assert(before[before.len() - 1] == (indent, mode, node));
            assert(layout_stack(before, col0, width as nat) == (s1 + s2, c2));
            assert(out0 + (s1 + s2) == total);
            assert(out0 + (s1 + s2) =~= (out0 + s1) + s2);
            assert(indent + INDENT * nest_depth(*node) <= usize::MAX);
            assert forall|k: int| 0 <= k < rest.len() implies #[trigger] rest[k].0 + INDENT
                * nest_depth(*rest[k].2) <= usize::MAX by {
                assert(rest[k] == before[k]);
            }
        }
        match node {
            Doc::Text(s) => {
                push_str(&mut out, s.as_str());
                proof {
                    lemma_text_col_bound(s@, col0);
                }
                col = text_col_exec(s.as_str(), col);
            },
            Doc::Line => match mode {
                Mode::Flat => {
                    push_char(&mut out, ' ');
                    col = col + 1;
                },
                Mode::Break => {
                    col = newline_indent(&mut out, indent);
                },
            },
            Doc::SoftLine => {
                if let Mode::Break = mode {
                    col = newline_indent(&mut out, indent);
                } else {
                    assert(out@ + s1 =~= out@);
                }
            },
            Doc::HardLine => {
                col = newline_indent(&mut out, indent);
            },
            Doc::BlankLine => {
                push_char(&mut out, '\n');
                col = newline_indent(&mut out, indent);
                assert(out@ =~= out0 + s1);
            },
            Doc::Nest(inner) => {
                stack.push((indent + INDENT, mode, &**inner));
                proof {
                    assert(stack@.drop_last() =~= rest);
                    assert(s1 + s2 =~= layout_stack(stack@, col as nat, width as nat).0);
                }
            },
            Doc::Group(inner) => {
                let m = if fits(width, col, &**inner) {
                    Mode::Flat
                } else {
                    Mode::Break
                };
                stack.push((indent, m, &**inner));
                proof {
                    assert(stack@.drop_last() =~= rest);
                    assert(s1 + s2 =~= layout_stack(stack@, col as nat, width as nat).0);
                }
            },
            Doc::Concat(items) => {
                let mut i = items.len();
                proof {
                    assert(items@.skip(i as int) =~= Seq::<Doc>::empty());
                }
                while i > 0
                    invariant
                        i <= items@.len(),
                        stack@ == pushed_render(rest, items@.skip(i as int), indent, mode),
                        forall|k: int|
                            0 <= k < stack@.len() ==> #[trigger] stack@[k].0 + INDENT
                                * nest_depth(*stack@[k].2) <= usize::MAX,
                        indent + INDENT * nest_depth_seq(items@) <= usize::MAX,
                    decreases i,
                {
                    i = i - 1;
                    proof {
                        lemma_nest_depth_seq(items@, i as int);
                    }
                    let ghost prior = stack@;
                    stack.push((indent, mode, &items[i]));
                    proof {
                        assert(items@.skip(i as int).subrange(1, items@.skip(i as int).len() as int)
                            =~= items@.skip(i + 1));
                        assert forall|k: int| 0 <= k < stack@.len() implies #[trigger] stack@[k].0
                            + INDENT * nest_depth(*stack@[k].2) <= usize::MAX by {
                            if k < prior.len() {
                                assert(stack@[k] == prior[k]);
                            }
                        }
                    }
                }
                proof {
                    assert(items@.skip(0) =~= items@);
                    lemma_layout_stack_pushed(rest, items@, indent, mode, col0, width as nat);
                    lemma_render_size_pushed(rest, items@, indent, mode);
                }
            },
        }
    }
    proof {
        assert(out@ + Seq::<char>::empty() =~= out@);
    }
    out
}

/// Writing text advances the column by at most its length.
proof fn lemma_text_col_bound(s: Seq<char>, col: nat)
    ensures
        text_col(s, col) <= col + s.len(),
    decreases s.len(),
{
    if s.len() > 0 {
        lemma_text_col_bound(s.drop_first(), if s[0] == '\n' { 0 } else { col + 1 });
    }
}

/// The column after writing `s` from column `col`.
fn text_col_exec(s: &str, col: usize) -> (c: usize)
    requires
        col + s@.len() <= usize::MAX,
    ensures
        c == text_col(s@, col as nat),
{
    let chars = chars_of(s);
    let mut c = col;
    let mut i: usize = 0;
    proof {
        assert(chars@.skip(0) =~= chars@);
    }
    while i < chars.len()
        invariant
            i <= chars@.len(),
            chars@ == s@,
            c <= col + i,
            col + s@.len() <= usize::MAX,
            text_col(chars@.skip(i as int), c as nat) == text_col(s@, col as nat),
        decreases chars.len() - i,
    {
        proof {
            let rest = chars@.skip(i as int);
            assert(rest.drop_first() =~= chars@.skip(i + 1));
        }
        if chars[i] == '\n' {
            c = 0;
        } else {
            c = c + 1;
        }
        i = i + 1;
    }
    c
}

/// Emit a newline and `indent` spaces, returning the new column.
pub fn newline_indent(out: &mut String, indent: usize) -> (col: usize)
    ensures
        final(out)@ == old(out)@ + newline_to(indent as nat),
        col == indent,
{
    push_char(out, '\n');
    let ghost start = out@;
    let mut i: usize = 0;
    while i < indent
        invariant
            i <= indent,
            out@ == start + spaces(i as nat),
        decreases indent - i,
    {
        push_char(out, ' ');
        i = i + 1;
        assert(out@ =~= start + spaces(i as nat));
    }
    assert(old(out)@ + newline_to(indent as nat) =~= start + spaces(indent as nat));
    indent
}

/// Whether the group `doc`, laid out flat from column `start`, stays within
/// `width` on every line. A `HardLine`/`BlankLine` within forces the break; a
/// content newline in a `Text` restarts the line. Explicit-stack, never
/// recursive; a bounded forward scan.
pub fn fits(width: usize, start: usize, doc: &Doc) -> (r: bool)
    ensures
        r == fits_spec(width as nat, start as nat, *doc),
{
    let mut col = start;
    let mut stack: Vec<&Doc> = Vec::new();
    stack.push(doc);
    proof {
        assert(stack@.drop_last() =~= Seq::<&Doc>::empty());
        reveal_with_fuel(scan_stack, 2);
    }
    while stack.len() > 0
        invariant
            scan_stack(stack@, col as nat, width as nat) == scan(*doc, start as nat, width as nat),
            col <= start || col <= width,
        decreases scan_stack_size(stack@),
    {
        let ghost before = stack@;
        let node = stack.pop().unwrap();
        let ghost rest = stack@;
        proof {
            assert(before.drop_last() =~= rest);
            assert(before.last() == node);
        }
        match node {
            Doc::Text(s) => {
                let chars = chars_of(s.as_str());
                let mut i: usize = 0;
                proof {
                    assert(chars@.skip(0) =~= chars@);
                }
                while i < chars.len()
                    invariant
                        i <= chars@.len(),
                        chars@ == s@,
                        stack@ == rest,
                        col <= start || col <= width,
                        scan(*doc, start as nat, width as nat) == match scan_text(
                            chars@.skip(i as int),
                            col as nat,
                            width as nat,
                        ) {
                            None => None,
                            Some(c) => scan_stack(rest, c, width as nat),
                        },
                    decreases chars.len() - i,
                {
                    proof {
                        assert(chars@.skip(i as int).drop_first() =~= chars@.skip(i + 1));
                    }
                    if chars[i] == '\n' {
                        col = 0;
                    } else {
                        if col >= width {
                            return false;
                        }
                        col = col + 1;
                    }
                    i = i + 1;
                }
                proof {
                    assert(chars@.skip(i as int) =~= Seq::<char>::empty());
                }
            },
            Doc::Line => {
                if col >= width {
                    return false;
                }
                col = col + 1;
            },
            Doc::SoftLine => {},
            Doc::HardLine => {
                return false;
            },
            Doc::BlankLine => {
                return false;
            },
            Doc::Nest(inner) => {
                stack.push(&**inner);
                proof {
                    assert(stack@.drop_last() =~= rest);
                }
            },
            Doc::Group(inner) => {
                stack.push(&**inner);
                proof {
                    assert(stack@.drop_last() =~= rest);
                }
            },
            Doc::Concat(items) => {
                let mut i = items.len();
                proof {
                    assert(items@.skip(i as int) =~= Seq::<Doc>::empty());
                }
                while i > 0
                    invariant
                        i <= items@.len(),
                        stack@ == pushed_scan(rest, items@.skip(i as int)),
                    decreases i,
                {
                    i = i - 1;
                    stack.push(&items[i]);
                    proof {
                        assert(items@.skip(i as int).subrange(1, items@.skip(i as int).len() as int)
                            =~= items@.skip(i + 1));
                    }
                }
                proof {
                    assert(items@.skip(0) =~= items@);
                    lemma_scan_stack_pushed(rest, items@, col as nat, width as nat);
                    lemma_scan_size_pushed(rest, items@);
                }
            },
        }
    }
    proof {
        assert(scan_stack(stack@, col as nat, width as nat) == Some(col as nat));
    }
    col <= width
}

} // verus!
