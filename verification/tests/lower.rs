use morphe::doc::render;
use morphe::emit::{Floor, Wish, floor_to_doc};
use morphe::lower::{Gap, Oracle, element_gap, is_list, lower, stronger};
use morphe::syntax::{SyntaxKind, TokenRole};
use morphe::tree::{Attachment, Element, Node, Slot, Tok, plan};

/// Builds a tree, numbering its elements in order.
struct Builder {
    next: usize,
}

impl Builder {
    fn id(&mut self) -> usize {
        self.next += 1;
        self.next - 1
    }

    fn tok(&mut self, kind: SyntaxKind, text: &str) -> Tok {
        Tok { id: self.id(), kind, role: TokenRole::Significant, text: text.to_owned(), spelled: text.to_owned() }
    }

    fn comment(&mut self, text: &str) -> Tok {
        Tok {
            id: self.id(),
            kind: SyntaxKind::LineComment,
            role: TokenRole::Trivia,
            text: text.to_owned(),
            spelled: text.trim_end().to_owned(),
        }
    }

    fn atom(&mut self, name: &str) -> Element {
        let id = self.id();
        let t = self.tok(SyntaxKind::Ident, name);
        Element::Node(Node { id, kind: SyntaxKind::Other, children: vec![Element::Token(t)] })
    }
}

fn floor(_: usize, left: &str, right: &str) -> Floor {
    let word = |c: Option<char>| c.is_some_and(|c| c.is_alphanumeric() || c == '_');
    if word(left.chars().last()) && word(right.chars().next()) {
        Floor::Whitespace
    } else {
        Floor::Nothing
    }
}

/// `p :- q, r.` with an optional comment trailing the dot.
fn rule(trailing: Option<&str>) -> (Node, usize, Vec<Attachment>) {
    let mut b = Builder { next: 0 };
    let program_id = b.id();
    let rule_id = b.id();
    let head = b.atom("p");
    let neck = b.tok(SyntaxKind::Neck, ":-");
    let body_id = b.id();
    let q = b.atom("q");
    let comma = b.tok(SyntaxKind::Comma, ",");
    let r = b.atom("r");
    let body = Node { id: body_id, kind: SyntaxKind::Body, children: vec![q, Element::Token(comma), r] };
    let dot = b.tok(SyntaxKind::Dot, ".");
    let dot_id = dot.id;
    let mut children = vec![head, Element::Token(neck), Element::Node(body), Element::Token(dot)];
    let mut atts = Vec::new();
    if let Some(text) = trailing {
        let c = b.comment(text);
        atts.push(Attachment { comment: c.clone(), slot: Slot::Trailing, anchor: dot_id });
        children.push(Element::Token(c));
    }
    let rule = Node { id: rule_id, kind: SyntaxKind::Rule, children };
    let root = Node { id: program_id, kind: SyntaxKind::Program, children: vec![Element::Node(rule)] };
    (root, b.next, atts)
}

fn format(root: &Node, size: usize, atts: Vec<Attachment>, width: usize) -> String {
    let oracle = Oracle::new(|_: usize, _: usize| false, floor);
    render(&lower(root, plan(size, atts), false, oracle).0, width)
}

#[test]
fn a_rule_that_fits_stays_on_one_line() {
    let (root, size, atts) = rule(None);
    assert_eq!(format(&root, size, atts, 100), "p :- q, r.\n");
}

#[test]
fn a_rule_that_does_not_fit_breaks_after_the_neck_and_nests_its_body() {
    let (root, size, atts) = rule(None);
    assert_eq!(format(&root, size, atts, 8), "p :-\n    q,\n    r.\n");
}

#[test]
fn a_trailing_comment_stays_on_its_line() {
    let (root, size, atts) = rule(Some("% why  "));
    assert_eq!(format(&root, size, atts, 100), "p :- q, r. % why\n");
}

#[test]
fn two_statements_stand_on_their_own_lines_and_a_blank_is_kept() {
    let mut b = Builder { next: 0 };
    let program_id = b.id();
    let mut statements = Vec::new();
    for name in ["a", "b"] {
        let id = b.id();
        let head = b.atom(name);
        let dot = b.tok(SyntaxKind::Dot, ".");
        statements.push(Element::Node(Node { id, kind: SyntaxKind::Rule, children: vec![head, Element::Token(dot)] }));
    }
    let second = match &statements[1] {
        Element::Node(n) => n.id,
        Element::Token(t) => t.id,
    };
    let root = Node { id: program_id, kind: SyntaxKind::Program, children: statements };
    let plain = Oracle::new(|_: usize, _: usize| false, floor);
    assert_eq!(render(&lower(&root, plan(b.next, Vec::new()), false, plain).0, 100), "a.\nb.\n");
    let blank = Oracle::new(move |_: usize, cur: usize| cur == second, floor);
    assert_eq!(render(&lower(&root, plan(b.next, Vec::new()), false, blank).0, 100), "a.\n\nb.\n");
}

#[test]
fn an_argument_list_hugs_its_parens_and_spaces_its_commas() {
    let mut b = Builder { next: 0 };
    let program_id = b.id();
    let rule_id = b.id();
    let term_id = b.id();
    let f = b.tok(SyntaxKind::Ident, "p");
    let args_id = b.id();
    let open = b.tok(SyntaxKind::LParen, "(");
    let x = b.tok(SyntaxKind::Ident, "X");
    let comma = b.tok(SyntaxKind::Comma, ",");
    let y = b.tok(SyntaxKind::Ident, "Y");
    let close = b.tok(SyntaxKind::RParen, ")");
    let args = Node {
        id: args_id,
        kind: SyntaxKind::Arguments,
        children: vec![
            Element::Token(open),
            Element::Token(x),
            Element::Token(comma),
            Element::Token(y),
            Element::Token(close),
        ],
    };
    let term = Node { id: term_id, kind: SyntaxKind::FunctionTerm, children: vec![Element::Token(f), Element::Node(args)] };
    let dot = b.tok(SyntaxKind::Dot, ".");
    let rule = Node { id: rule_id, kind: SyntaxKind::Rule, children: vec![Element::Node(term), Element::Token(dot)] };
    let root = Node { id: program_id, kind: SyntaxKind::Program, children: vec![Element::Node(rule)] };
    let oracle = Oracle::new(|_: usize, _: usize| false, floor);
    assert_eq!(render(&lower(&root, plan(b.next, Vec::new()), false, oracle).0, 100), "p(X, Y).\n");
}

#[test]
fn the_floor_forces_a_space_only_where_abutment_would_fuse() {
    let doc = |f: Floor, w: Wish| render(&floor_to_doc(f, w), 100);
    assert_eq!(doc(Floor::Nothing, Wish::Abut), "");
    assert_eq!(doc(Floor::Whitespace, Wish::Abut), " ");
    assert_eq!(doc(Floor::Nothing, Wish::Space), " ");
    assert_eq!(doc(Floor::LineBreak, Wish::Abut), " ");
}

#[test]
fn the_stronger_gap_wins() {
    assert_eq!(stronger(Gap::Tight, Gap::Hard), Gap::Hard);
    assert_eq!(stronger(Gap::Blank, Gap::Space), Gap::Blank);
    assert_eq!(stronger(Gap::Wrap, Gap::Space), Gap::Space);
}

#[test]
fn operators_are_spaced_only_outside_brackets() {
    assert_eq!(element_gap(SyntaxKind::BinaryTerm, 0), Gap::Space);
    assert_eq!(element_gap(SyntaxKind::BinaryTerm, 1), Gap::Tight);
    assert_eq!(element_gap(SyntaxKind::TheoryOpterm, 3), Gap::Space);
    assert!(is_list(SyntaxKind::Arguments));
    assert!(!is_list(SyntaxKind::BinaryTerm));
}

#[test]
fn a_plan_keeps_each_run_in_order() {
    let mut b = Builder { next: 0 };
    let anchor = b.id();
    let c1 = b.comment("% one");
    let c2 = b.comment("% two");
    let c3 = b.comment("% three");
    let p = plan(
        b.next,
        vec![
            Attachment { comment: c1, slot: Slot::Leading, anchor },
            Attachment { comment: c2, slot: Slot::Dangling, anchor },
            Attachment { comment: c3, slot: Slot::Leading, anchor },
        ],
    );
    let texts: Vec<&str> = p.leading[anchor].iter().map(|t| t.text.as_str()).collect();
    assert_eq!(texts, vec!["% one", "% three"]);
    assert_eq!(p.dangling[anchor], vec![2]);
    assert!(p.trailing[anchor].is_empty());
}
