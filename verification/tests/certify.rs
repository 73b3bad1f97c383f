use morphe::certify::{
    SignatureToken, SignedItem, Token, certify, content_of, equal_except_script_bodies,
    permutation_certificate, target,
};
use morphe::options::{BijectionBreach, Certificate, CertificateBreak};
use morphe::reorder::{StatementKind, plan_reorder, statement_item};
use morphe::syntax::{Mismatch, Span, SyntaxError, SyntaxKind};

/// A small lexer over the ASP this suite uses: words, punctuation, `%`
/// comments, and a `#script (lang)` body up to its `#end`.
fn tokens(text: &str) -> Vec<Token> {
    let cs: Vec<char> = text.chars().collect();
    let mut out = Vec::new();
    let mut i = 0;
    let tok = |kind: SyntaxKind, a: usize, b: usize| Token {
        kind,
        text: cs[a..b].iter().collect(),
        location: Span { start: a, end: b },
    };
    while i < cs.len() {
        let c = cs[i];
        if c.is_whitespace() {
            i += 1;
        } else if c == '%' {
            let start = i;
            while i < cs.len() && cs[i] != '\n' {
                i += 1;
            }
            out.push(tok(SyntaxKind::LineComment, start, i));
        } else if c.is_alphanumeric() || c == '_' || c == '#' {
            let start = i;
            i += 1;
            while i < cs.len() && (cs[i].is_alphanumeric() || cs[i] == '_') {
                i += 1;
            }
            let word: String = cs[start..i].iter().collect();
            out.push(tok(if word.starts_with('#') { SyntaxKind::Other } else { SyntaxKind::Ident }, start, i));
            if word == "#script" {
                while i < cs.len() && cs[i] != ')' {
                    if !cs[i].is_whitespace() {
                        let a = i;
                        while i < cs.len() && !cs[i].is_whitespace() && cs[i] != '(' && cs[i] != ')' {
                            i += 1;
                        }
                        if a == i {
                            out.push(tok(SyntaxKind::LParen, i, i + 1));
                            i += 1;
                        } else {
                            out.push(tok(SyntaxKind::Ident, a, i));
                        }
                    } else {
                        i += 1;
                    }
                }
                out.push(tok(SyntaxKind::RParen, i, i + 1));
                i += 1;
                if i < cs.len() && cs[i] == '\n' {
                    i += 1;
                }
                let body_start = i;
                while i < cs.len() && !(cs[i..].starts_with(&['#', 'e', 'n', 'd'])) {
                    i += 1;
                }
                if i > body_start {
                    out.push(tok(SyntaxKind::ScriptBody, body_start, i));
                }
            }
        } else if c == ':' && i + 1 < cs.len() && cs[i + 1] == '-' {
            out.push(tok(SyntaxKind::Neck, i, i + 2));
            i += 2;
        } else {
            let kind = match c {
                '.' => SyntaxKind::Dot,
                '(' => SyntaxKind::LParen,
                ')' => SyntaxKind::RParen,
                ',' => SyntaxKind::Comma,
                ';' => SyntaxKind::Semicolon,
                '=' => SyntaxKind::Eq,
                _ => SyntaxKind::Other,
            };
            out.push(tok(kind, i, i + 1));
            i += 1;
        }
    }
    out
}

#[test]
fn target_is_up_to_spelling_by_default_and_layout_only_when_preserving() {
    assert_eq!(target(false), Certificate::UpToSpelling);
    assert_eq!(target(true), Certificate::LayoutOnly);
}

#[test]
fn identical_text_passes_the_equal_except_script_bodies_check() {
    let skeleton = tokens("#script(python)\nx = 1\n#end.\np.\n");
    let again = tokens("#script(python)\nx = 1\n#end.\np.\n");
    assert!(equal_except_script_bodies(&skeleton, &again).is_ok());
}

#[test]
fn a_script_bodys_content_is_the_one_thing_allowed_to_differ() {
    let skeleton = tokens("#script(python)\nx = 1\n#end.\np.\n");
    let changed = tokens("#script(python)\ny = 2\n#end.\np.\n");
    assert!(equal_except_script_bodies(&skeleton, &changed).is_ok());
}

#[test]
fn a_changed_asp_token_fails_the_equal_except_script_bodies_check() {
    let skeleton = tokens("#script(python)\nx = 1\n#end.\np.\n");
    let changed = tokens("#script(python)\nx = 1\n#end.\nq.\n");
    let m = equal_except_script_bodies(&skeleton, &changed).unwrap_err();
    assert_eq!(m.left.as_ref().map(|s| s.content.as_str()), Some("p"));
    assert_eq!(m.right.as_ref().map(|s| s.content.as_str()), Some("q"));
}

#[test]
fn a_body_that_re_lexes_a_terminator_early_fails_the_check() {
    let skeleton = tokens("#script(python)\nx = 1\n#end.\np.\n");
    let smuggled = tokens("#script(python)\nx\n#end.\nq.\n#end.\np.\n");
    assert!(equal_except_script_bodies(&skeleton, &smuggled).is_err());
}

#[test]
fn a_run_that_ends_early_is_witnessed_by_the_missing_side() {
    let skeleton = tokens("p. q.");
    let short = tokens("p.");
    let m = equal_except_script_bodies(&skeleton, &short).unwrap_err();
    assert_eq!(m.index, 2);
    assert!(m.left.is_some());
    assert!(m.right.is_none());
}

fn signed(barrier: bool, text: &str) -> SignedItem {
    SignedItem {
        barrier,
        tokens: tokens(text)
            .into_iter()
            .map(|t| SignatureToken { kind: t.kind, canonical: t.text.clone(), text: t.text })
            .collect(),
    }
}

#[test]
fn the_permutation_certificate_holds_for_a_pure_permutation() {
    let input = vec![signed(false, "#show s/1."), signed(false, "#defined d/1.")];
    let output = vec![signed(false, "#defined d/1."), signed(false, "#show s/1.")];
    assert!(permutation_certificate(Vec::new(), &input, &output, false).is_ok());
}

#[test]
fn a_dropped_unit_breaks_the_permutation_certificate() {
    let input = vec![signed(false, "#defined d/1."), signed(false, "#show s/1.")];
    let output = vec![signed(false, "#defined d/1.")];
    assert!(matches!(
        permutation_certificate(Vec::new(), &input, &output, false),
        Err(BijectionBreach::UnitDropped { at: 1 })
    ));
}

#[test]
fn an_added_unit_breaks_the_permutation_certificate() {
    let input = vec![signed(false, "#defined d/1.")];
    let output = vec![signed(false, "#defined d/1."), signed(false, "#show s/1.")];
    assert!(matches!(
        permutation_certificate(Vec::new(), &input, &output, false),
        Err(BijectionBreach::UnitAdded { at: 1 })
    ));
}

#[test]
fn a_moved_barrier_breaks_the_permutation_certificate() {
    let input = vec![signed(true, "#program a."), signed(true, "#program b.")];
    let output = vec![signed(true, "#program b."), signed(true, "#program a.")];
    assert!(matches!(
        permutation_certificate(Vec::new(), &input, &output, false),
        Err(BijectionBreach::BarrierMoved { at: 0 })
    ));
}

#[test]
fn a_non_member_reassembly_breaks_as_not_a_member() {
    let input = vec![signed(false, "p.")];
    let errors = vec![SyntaxError { message: "expected `.`".to_owned(), location: Span { start: 2, end: 2 } }];
    match permutation_certificate(errors, &input, &Vec::new(), false) {
        Err(BijectionBreach::NotAMember(diagnostics)) => assert!(!diagnostics.is_empty()),
        other => panic!("expected NotAMember, got {other:?}"),
    }
}

#[test]
fn a_unit_crossing_a_barrier_breaks_the_certificate() {
    let input = vec![signed(false, "p."), signed(true, "#program b."), signed(false, "q.")];
    let output = vec![signed(false, "q."), signed(true, "#program b."), signed(false, "p.")];
    assert!(matches!(
        permutation_certificate(Vec::new(), &input, &output, false),
        Err(BijectionBreach::UnitDropped { at: 0 })
    ));
}

#[test]
fn a_barrier_count_change_is_a_moved_barrier() {
    let input = vec![signed(true, "#program a."), signed(false, "p.")];
    let output = vec![signed(false, "p.")];
    assert!(matches!(
        permutation_certificate(Vec::new(), &input, &output, false),
        Err(BijectionBreach::BarrierMoved { at: 0 })
    ));
}

#[test]
fn identities_compare_canonical_spellings_unless_preserving() {
    let respelled = |canonical: &str| SignedItem {
        barrier: false,
        tokens: vec![SignatureToken {
            kind: SyntaxKind::Other,
            text: "not".to_owned(),
            canonical: canonical.to_owned(),
        }],
    };
    let input = vec![respelled("~")];
    let output = vec![SignedItem {
        barrier: false,
        tokens: vec![SignatureToken { kind: SyntaxKind::Other, text: "~".to_owned(), canonical: "~".to_owned() }],
    }];
    assert!(permutation_certificate(Vec::new(), &input, &output, false).is_ok());
    assert!(permutation_certificate(Vec::new(), &input, &output, true).is_err());
}

#[test]
fn a_comment_is_compared_without_its_trailing_space() {
    assert_eq!(content_of(SyntaxKind::LineComment, "% c  \t"), vec!['%', ' ', 'c']);
    assert_eq!(content_of(SyntaxKind::Ident, "p "), vec!['p', ' ']);
}

#[test]
fn the_certifier_grants_the_target_or_names_the_break() {
    assert!(matches!(certify(Vec::new(), Ok(()), Certificate::LayoutOnly), Ok(Certificate::LayoutOnly)));
    let m = Mismatch { index: 0, left: None, right: None };
    assert!(matches!(
        certify(Vec::new(), Err(m), Certificate::UpToSpelling),
        Err(CertificateBreak::TokenMismatch(_))
    ));
    let errors = vec![SyntaxError { message: "x".to_owned(), location: Span { start: 0, end: 1 } }];
    assert!(matches!(
        certify(errors, Ok(()), Certificate::LayoutOnly),
        Err(CertificateBreak::NotAMember(_))
    ));
}

#[test]
fn a_planned_reorder_passes_its_own_permutation_certificate() {
    let program = [
        (StatementKind::Show, "#show s/1."),
        (StatementKind::Rule, "a :- b."),
        (StatementKind::ProgramPart, "#program base."),
        (StatementKind::Show, "#show t/1."),
        (StatementKind::Defined, "#defined d/1."),
        (StatementKind::Rule, "c :- d."),
    ];
    let items: Vec<_> = program
        .iter()
        .enumerate()
        .map(|(i, (kind, _))| statement_item(*kind, i as u32 * 10, i as u32 * 10 + 5, false))
        .collect();
    let plan = plan_reorder(&items, false);
    assert!(plan.moved);
    let input: Vec<SignedItem> =
        program.iter().zip(&items).map(|((_, text), item)| signed(item.section.is_none(), text)).collect();
    let output: Vec<SignedItem> = plan
        .sources
        .iter()
        .map(|&s| signed(items[s].section.is_none(), program[s].1))
        .collect();
    assert_eq!(plan.sources, vec![1, 0, 2, 4, 5, 3], "each region sorted, the barrier in place");
    assert!(permutation_certificate(Vec::new(), &input, &output, false).is_ok());
    assert!(permutation_certificate(Vec::new(), &input, &output, true).is_ok());
}
