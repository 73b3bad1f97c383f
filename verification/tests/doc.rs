use morphe::doc::{Doc, INDENT, render};

fn text(s: &str) -> Doc {
    Doc::Text(s.to_owned())
}

#[test]
fn a_group_renders_flat_when_it_fits_and_broken_when_it_does_not() {
    let g = Doc::Group(Box::new(Doc::Concat(vec![
        text("p("),
        text("a"),
        text(","),
        Doc::Line,
        text("b"),
        text(")"),
    ])));
    assert_eq!(render(&g, 100), "p(a, b)");
    assert_eq!(render(&g, 4), "p(a,\nb)");
}

#[test]
fn nest_indents_every_break_within_by_one_level() {
    let g = Doc::Group(Box::new(Doc::Concat(vec![
        text("h :-"),
        Doc::Nest(Box::new(Doc::Concat(vec![
            Doc::Line,
            text("a,"),
            Doc::Line,
            text("b."),
        ]))),
    ])));
    assert_eq!(render(&g, 4), format!("h :-\n{0}a,\n{0}b.", " ".repeat(INDENT)));
}

#[test]
fn softline_is_nothing_flat_and_a_newline_broken() {
    let g = Doc::Group(Box::new(Doc::Concat(vec![text("0"), Doc::SoftLine, text("x1")])));
    assert_eq!(render(&g, 100), "0x1");
}

#[test]
fn hardline_and_blankline_are_unconditional() {
    let d = Doc::Concat(vec![
        text("a."),
        Doc::HardLine,
        text("b."),
        Doc::BlankLine,
        text("c."),
    ]);
    assert_eq!(render(&d, 100), "a.\nb.\n\nc.");
}

#[test]
fn a_text_region_carrying_newlines_is_content_and_resets_the_column() {
    let body = Doc::Text("def f():\n    return 1".to_owned());
    let d = Doc::Group(Box::new(Doc::Concat(vec![body, Doc::SoftLine, text("#end")])));
    assert_eq!(render(&d, 100), "def f():\n    return 1#end");
}

#[test]
fn a_softline_breaks_to_a_newline_when_the_group_does_not_fit() {
    let g = Doc::Group(Box::new(Doc::Concat(vec![text("abc"), Doc::SoftLine, text("def")])));
    assert_eq!(render(&g, 4), "abc\ndef");
}

#[test]
fn a_nested_break_in_a_flat_group_is_a_space() {
    let g = Doc::Group(Box::new(Doc::Concat(vec![
        text("h :-"),
        Doc::Nest(Box::new(Doc::Concat(vec![Doc::Line, text("a.")]))),
    ])));
    assert_eq!(render(&g, 100), "h :- a.");
}

#[test]
fn an_empty_document_renders_nothing() {
    assert_eq!(render(&Doc::Concat(Vec::new()), 10), "");
}

#[test]
fn a_hard_line_inside_a_group_breaks_its_lines() {
    let g = Doc::Group(Box::new(Doc::Concat(vec![
        text("a"),
        Doc::Line,
        text("b"),
        Doc::HardLine,
        text("c"),
    ])));
    assert_eq!(render(&g, 100), "a\nb\nc");
}

#[test]
fn a_hard_break_never_fits_and_a_one_line_document_fits_by_its_width() {
    let hard = Doc::Concat(vec![text("a"), Doc::HardLine, text("b")]);
    assert!(!morphe::doc::fits(1000, 0, &hard));
    let blank = Doc::Group(Box::new(Doc::BlankLine));
    assert!(!morphe::doc::fits(1000, 0, &blank));
    let flat = Doc::Concat(vec![text("ab"), Doc::Line, text("cd"), Doc::SoftLine, text("e")]);
    assert!(morphe::doc::fits(6, 0, &flat), "six columns: ab, a space, cd, e");
    assert!(!morphe::doc::fits(5, 0, &flat));
    assert!(morphe::doc::fits(9, 3, &flat));
    assert!(!morphe::doc::fits(8, 3, &flat));
}
