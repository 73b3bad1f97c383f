use morphe::options::{BijectionBreach, Certificate, CertificateBreak, FormatError, Formatted, ReorderError};
use morphe::reorder::{
    Item, Piece, Section, StatementKind, assemble, bucket_emit, dangling_item, finish_reorder,
    include_hoist_note, is_barrier, order, plan_reorder, reorder_error, section, statement_item,
    stream, unmoved, weaker, reorder_pieces, conclude_reorder,
};
use morphe::syntax::{Mismatch, Severity, Span};

fn item(kind: StatementKind, offset: u32, reorder_includes: bool) -> Item {
    statement_item(kind, offset, offset + 1, reorder_includes)
}

fn offsets(items: &[Item]) -> Vec<u32> {
    items.iter().map(|i| i.offset).collect()
}

const ALL_KINDS: [StatementKind; 16] = [
    StatementKind::Rule,
    StatementKind::WeakConstraint,
    StatementKind::Optimize,
    StatementKind::Show,
    StatementKind::Project,
    StatementKind::Defined,
    StatementKind::Edge,
    StatementKind::Heuristic,
    StatementKind::External,
    StatementKind::TheoryDefinition,
    StatementKind::ProgramPart,
    StatementKind::Script,
    StatementKind::Query,
    StatementKind::Include,
    StatementKind::Const { overrides: false },
    StatementKind::Const { overrides: true },
];

#[test]
fn is_barrier_holds_exactly_for_the_order_sensitive_kinds() {
    assert!(is_barrier(StatementKind::ProgramPart, false));
    assert!(is_barrier(StatementKind::Script, false));
    assert!(is_barrier(StatementKind::Const { overrides: true }, false));
    assert!(is_barrier(StatementKind::Include, false));
    assert!(is_barrier(StatementKind::Query, false));

    assert!(!is_barrier(StatementKind::Const { overrides: false }, false));
    assert!(!is_barrier(StatementKind::Defined, false));
    assert!(!is_barrier(StatementKind::Show, false));
    assert!(!is_barrier(StatementKind::Rule, false));

    assert_eq!(section(StatementKind::ProgramPart), None);
    assert_eq!(section(StatementKind::Script), None);
    assert_eq!(section(StatementKind::Query), None);
}

#[test]
fn a_top_level_dangling_comment_is_a_barrier_dividing_the_stream() {
    let items = vec![
        item(StatementKind::Rule, 0, false),
        dangling_item(4, 16),
        item(StatementKind::Rule, 18, false),
    ];
    assert!(items[0].section.is_some());
    assert!(items[1].section.is_none());
    assert!(items[2].section.is_some());
}

#[test]
fn section_maps_every_reorderable_kind_into_order_and_nothing_outside() {
    for reorder_includes in [false, true] {
        let order = order(reorder_includes);
        let mut hit: Vec<Section> = Vec::new();
        for kind in ALL_KINDS {
            if is_barrier(kind, reorder_includes) {
                continue;
            }
            let s = section(kind).expect("a reorderable statement has a section");
            assert!(order.contains(&s), "no section maps outside the order");
            if !hit.contains(&s) {
                hit.push(s);
            }
        }
        assert_eq!(hit.len(), order.len(), "every bucket is reachable");
    }
}

#[test]
fn bucket_emit_is_stable_within_a_barrier_region() {
    // #show s1. r1. #defined d1. r2. #program part. #show s2. #defined d2. r3.
    let kinds = [
        StatementKind::Show,
        StatementKind::Rule,
        StatementKind::Defined,
        StatementKind::Rule,
        StatementKind::ProgramPart,
        StatementKind::Show,
        StatementKind::Defined,
        StatementKind::Rule,
    ];
    let items: Vec<Item> = kinds
        .iter()
        .enumerate()
        .map(|(i, k)| item(*k, i as u32, false))
        .collect();
    let out = bucket_emit(&items, &order(false));
    assert_eq!(offsets(&out), vec![2, 1, 3, 0, 4, 6, 7, 5]);
}

#[test]
fn reorder_includes_hoists_include_to_a_leading_section() {
    // r1. #include "lib.lp". #defined d/1.
    let kinds = [StatementKind::Rule, StatementKind::Include, StatementKind::Defined];
    let default: Vec<Item> =
        kinds.iter().enumerate().map(|(i, k)| item(*k, i as u32, false)).collect();
    assert_eq!(offsets(&bucket_emit(&default, &order(false))), vec![0, 1, 2]);
    assert!(is_barrier(StatementKind::Include, false));

    let hoisting: Vec<Item> =
        kinds.iter().enumerate().map(|(i, k)| item(*k, i as u32, true)).collect();
    assert_eq!(offsets(&bucket_emit(&hoisting, &order(true))), vec![1, 2, 0]);
    assert!(!is_barrier(StatementKind::Include, true));
}

#[test]
fn the_section_order_is_defined_const_body_show() {
    assert_eq!(
        order(false),
        vec![Section::Defined, Section::Const, Section::Body, Section::Show]
    );
    assert_eq!(
        order(true),
        vec![Section::Include, Section::Defined, Section::Const, Section::Body, Section::Show]
    );
}

#[test]
fn an_override_const_is_held_while_a_plain_one_moves() {
    let items = vec![
        item(StatementKind::Rule, 0, false),
        item(StatementKind::Const { overrides: true }, 1, false),
        item(StatementKind::Const { overrides: false }, 2, false),
        item(StatementKind::Defined, 3, false),
    ];
    assert_eq!(offsets(&bucket_emit(&items, &order(false))), vec![0, 1, 3, 2]);
}

#[test]
fn reordering_permutes_holds_barriers_and_is_idempotent() {
    let kinds = [
        StatementKind::Show,
        StatementKind::Query,
        StatementKind::Rule,
        StatementKind::Defined,
        StatementKind::Show,
        StatementKind::Const { overrides: false },
    ];
    let items: Vec<Item> =
        kinds.iter().enumerate().map(|(i, k)| item(*k, i as u32, false)).collect();
    let once = bucket_emit(&items, &order(false));
    let mut sorted = offsets(&once);
    sorted.sort();
    assert_eq!(sorted, offsets(&items), "a permutation");
    assert_eq!(once[1], items[1], "the barrier holds its place");
    assert_eq!(offsets(&once), vec![0, 1, 3, 5, 2, 4]);
    let twice = bucket_emit(&once, &order(false));
    assert_eq!(twice, once, "idempotent");
}

#[test]
fn a_plan_that_moves_nothing_reports_it() {
    let items = vec![
        item(StatementKind::Defined, 0, false),
        item(StatementKind::Rule, 1, false),
        item(StatementKind::Show, 2, false),
    ];
    let plan = plan_reorder(&items, false);
    assert!(!plan.moved);
    assert!(plan.hoisted.is_empty());
    assert_eq!(plan.items, items);
    assert_eq!(plan.sources, vec![0, 1, 2]);
}

#[test]
fn a_plan_reports_the_hoisted_includes() {
    let items = vec![
        item(StatementKind::Rule, 0, true),
        item(StatementKind::Include, 1, true),
        item(StatementKind::Include, 2, true),
        item(StatementKind::Defined, 3, true),
    ];
    let plan = plan_reorder(&items, true);
    assert!(plan.moved);
    assert_eq!(offsets(&plan.items), vec![1, 2, 3, 0]);
    assert_eq!(offsets(&plan.hoisted), vec![1, 2]);
    assert_eq!(plan.sources, vec![1, 2, 3, 0], "where each reordered item stood");

    let in_place = vec![
        item(StatementKind::Include, 0, true),
        item(StatementKind::Show, 1, true),
        item(StatementKind::Defined, 2, true),
    ];
    let plan = plan_reorder(&in_place, true);
    assert!(plan.moved);
    assert!(plan.hoisted.is_empty(), "an include that kept its place was not hoisted");
}

fn statement(text: &str, certificate: Certificate) -> Piece {
    Piece::Statement { text: text.to_owned(), certificate, notes: Vec::new() }
}

#[test]
fn assembly_keeps_a_floating_comment_floating() {
    let pieces = vec![
        statement("#defined d1/1.\n", Certificate::LayoutOnly),
        statement("#show s1/1.\n", Certificate::LayoutOnly),
        Piece::Dangling { comment: "% floating  ".to_owned() },
        statement("#defined d2/1.\n", Certificate::UpToSpelling),
    ];
    let a = assemble(pieces);
    assert_eq!(a.text, "#defined d1/1.\n#show s1/1.\n\n% floating\n\n#defined d2/1.\n");
    assert_eq!(a.certificate, Certificate::UpToSpelling);
    assert!(a.notes.is_empty());
}

#[test]
fn assembly_ends_with_a_single_newline() {
    let pieces = vec![
        statement("p.\n", Certificate::LayoutOnly),
        Piece::Dangling { comment: "% last".to_owned() },
    ];
    let a = assemble(pieces);
    assert_eq!(a.text, "p.\n\n% last\n");
    assert_eq!(a.certificate, Certificate::LayoutOnly);
}

#[test]
fn the_weaker_certificate_wins() {
    assert_eq!(weaker(Certificate::LayoutOnly, Certificate::LayoutOnly), Certificate::LayoutOnly);
    assert_eq!(weaker(Certificate::LayoutOnly, Certificate::UpToSpelling), Certificate::UpToSpelling);
    assert_eq!(weaker(Certificate::UpToSpelling, Certificate::LayoutOnly), Certificate::UpToSpelling);
}

#[test]
fn the_hoist_note_names_the_count() {
    let first = statement_item(StatementKind::Include, 7, 25, true);
    let one = include_hoist_note(first, 1);
    assert_eq!(one.severity, Severity::Warning);
    assert_eq!(one.namespace, "morphe");
    assert_eq!(one.name, "reorder-includes");
    assert!(one.message.starts_with("reorder_includes moved an `#include` past other statements"));
    assert_eq!(one.location, Span { start: 7, end: 25 });
    let many = include_hoist_note(first, 12);
    assert!(many.message.starts_with("reorder_includes moved 12 `#include` directives past other statements"));
    assert!(many.message.ends_with("is not certified meaning-preserving"));
}

#[test]
fn a_finished_reorder_carries_the_hoist_warning() {
    let a = assemble(vec![statement("#include \"f\".\nr.\n", Certificate::LayoutOnly)]);
    let hoisted = vec![statement_item(StatementKind::Include, 3, 16, true)];
    let r = finish_reorder(a, "r.\n#include \"f\".\n", &hoisted);
    assert!(r.reordered);
    assert!(r.changed);
    assert_eq!(r.notes.len(), 1);
    let quiet = finish_reorder(assemble(vec![statement("p.\n", Certificate::LayoutOnly)]), "p.\n", &Vec::new());
    assert!(!quiet.changed);
    assert!(quiet.notes.is_empty());
}

#[test]
fn a_reorder_that_moves_nothing_is_merely_formatted() {
    let f = Formatted {
        text: "p.\n".to_owned(),
        certificate: Certificate::LayoutOnly,
        embedded_changed: false,
        changed: true,
        notes: Vec::new(),
    };
    let r = unmoved(f);
    assert!(!r.reordered);
    assert!(r.changed);
    assert_eq!(r.text, "p.\n");
}

#[test]
fn a_unit_refusal_becomes_the_reorder_refusal() {
    match reorder_error(FormatError::HasParseErrors(Vec::new())) {
        ReorderError::HasParseErrors(e) => assert!(e.is_empty()),
        other => panic!("expected HasParseErrors, got {other:?}"),
    }
    let broke = FormatError::CertificateBroke {
        certificate: Certificate::LayoutOnly,
        reason: CertificateBreak::TokenMismatch(Mismatch { index: 3, left: None, right: None }),
    };
    match reorder_error(broke) {
        ReorderError::PermutationBroke { unit: Some(m), bijection: None } => assert_eq!(m.index, 3),
        other => panic!("expected PermutationBroke with the witness, got {other:?}"),
    }
    let not_member = FormatError::CertificateBroke {
        certificate: Certificate::UpToSpelling,
        reason: CertificateBreak::NotAMember(Vec::new()),
    };
    assert!(matches!(
        reorder_error(not_member),
        ReorderError::PermutationBroke { unit: None, bijection: None }
    ));
}

#[test]
fn the_stream_merges_statements_and_floating_comments_by_offset() {
    let statements = vec![
        item(StatementKind::Rule, 0, false),
        item(StatementKind::Show, 10, false),
        item(StatementKind::Defined, 20, false),
    ];
    let dangling = vec![dangling_item(5, 8), dangling_item(25, 30)];
    let s = stream(&statements, &dangling);
    assert_eq!(offsets(&s.items), vec![0, 5, 10, 20, 25]);
    assert_eq!(s.from_statements, vec![true, false, true, true, false]);
    assert!(s.items[1].section.is_none(), "a floating comment is a barrier");
}

fn formatted(text: &str) -> Formatted {
    Formatted {
        text: text.to_owned(),
        certificate: Certificate::UpToSpelling,
        embedded_changed: false,
        changed: false,
        notes: Vec::new(),
    }
}

#[test]
fn the_pieces_follow_the_plan_with_comments_verbatim() {
    let comments = vec![Some("% floating".to_owned()), None, None];
    let texts = ["", "a :- b.\n", "#show a/1.\n"];
    let pieces = reorder_pieces(&vec![0, 2, 1], &comments, |k: usize| Ok(formatted(texts[k]))).unwrap();
    assert_eq!(pieces.len(), 3);
    assert!(matches!(&pieces[0], Piece::Dangling { comment } if comment == "% floating"));
    assert!(matches!(&pieces[1], Piece::Statement { text, .. } if text == "#show a/1.\n"));
    assert!(matches!(&pieces[2], Piece::Statement { text, .. } if text == "a :- b.\n"));
}

#[test]
fn a_unit_that_fails_to_format_ends_the_reorder() {
    let comments = vec![None, None];
    let r = reorder_pieces(&vec![1, 0], &comments, |k: usize| {
        if k == 0 { Err(FormatError::HasParseErrors(Vec::new())) } else { Ok(formatted("p.\n")) }
    });
    assert!(matches!(r, Err(ReorderError::HasParseErrors(e)) if e.is_empty()));
}

#[test]
fn a_breached_certificate_ends_the_reorder_as_a_broken_permutation() {
    let a = assemble(vec![statement("p.\n", Certificate::LayoutOnly)]);
    let r = conclude_reorder(a, "p.\n", &Vec::new(), Err(BijectionBreach::UnitAdded { at: 1 }));
    assert!(matches!(
        r,
        Err(ReorderError::PermutationBroke { unit: None, bijection: Some(BijectionBreach::UnitAdded { at: 1 }) })
    ));
    let a = assemble(vec![statement("q.\n", Certificate::LayoutOnly)]);
    let done = conclude_reorder(a, "p.\n", &Vec::new(), Ok(())).unwrap();
    assert_eq!(done.text, "q.\n");
    assert!(done.reordered && done.changed);
}
