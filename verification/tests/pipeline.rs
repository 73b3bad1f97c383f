use morphe::embedded::{EmbeddedFormatters, Script, ScriptBody};
use morphe::options::{Certificate, CertificateBreak, FormatError, Formatted, ReorderError};
use morphe::pipeline::{
    admitted, admitted_for_reorder, bodies_in_order, embedded_pass, runs_embedded, unmoved_result,
};
use morphe::syntax::{Mismatch, Span};

fn script(start: usize, end: usize) -> Script {
    Script {
        location: Span { start: 0, end: 0 },
        language: Some("lua".to_owned()),
        body: Some(ScriptBody { start, end, text: String::new() }),
    }
}

#[test]
fn a_parse_without_errors_is_admitted() {
    assert!(admitted(Vec::new()).is_ok());
    assert!(admitted_for_reorder(Vec::new()).is_ok());
}

#[test]
fn the_embedded_pass_runs_only_when_asked_and_certified() {
    let granted: Result<Certificate, CertificateBreak> = Ok(Certificate::LayoutOnly);
    let refused: Result<Certificate, CertificateBreak> =
        Err(CertificateBreak::TokenMismatch(Mismatch { index: 0, left: None, right: None }));
    assert!(runs_embedded(true, &granted));
    assert!(!runs_embedded(false, &granted));
    assert!(!runs_embedded(true, &refused));
}

#[test]
fn bodies_must_lie_in_the_text_in_order() {
    assert!(bodies_in_order(&vec![script(2, 4), script(6, 9)], 10));
    assert!(!bodies_in_order(&vec![script(6, 9), script(2, 4)], 10), "out of order");
    assert!(!bodies_in_order(&vec![script(2, 5), script(4, 9)], 10), "overlapping");
    assert!(!bodies_in_order(&vec![script(2, 12)], 10), "past the end");
    assert!(!bodies_in_order(&vec![script(5, 3)], 10), "reversed range");
    let mut none = script(0, 0);
    none.body = None;
    assert!(bodies_in_order(&vec![script(6, 9), none, script(9, 10)], 10));
}

#[test]
fn the_embedded_pass_is_skipped_unless_it_runs() {
    let registry = EmbeddedFormatters::new();
    let reparse = |_: &str| Vec::new();
    assert!(embedded_pass(false, &Vec::new(), "a.\n", &Vec::new(), &registry, 80, reparse).is_none());
    let pass = embedded_pass(true, &Vec::new(), "a.\n", &Vec::new(), &registry, 80, reparse)
        .expect("the pass runs");
    assert_eq!(pass.text, "a.\n");
    assert!(!pass.changed);
    assert!(pass.notes.is_empty());
    assert!(
        embedded_pass(true, &vec![script(2, 9)], "a.\n", &Vec::new(), &registry, 80, reparse).is_none(),
        "a body past the skeleton's end is never handed to the pass"
    );
}

#[test]
fn an_unmoved_reorder_is_the_plain_format() {
    let f = Formatted {
        text: "p.\n".to_owned(),
        certificate: Certificate::LayoutOnly,
        embedded_changed: false,
        changed: true,
        notes: Vec::new(),
    };
    let r = unmoved_result(Ok(f)).expect("formatted");
    assert!(!r.reordered);
    assert!(r.changed);
    assert_eq!(r.text, "p.\n");
    match unmoved_result(Err(FormatError::HasParseErrors(Vec::new()))) {
        Err(ReorderError::HasParseErrors(e)) => assert!(e.is_empty()),
        _ => panic!("expected the parse refusal"),
    }
}
