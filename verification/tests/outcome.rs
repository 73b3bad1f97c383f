use morphe::options::{Certificate, CertificateBreak, FormatError, ReorderError};
use morphe::outcome::{Outcome, changes};

#[test]
fn severity_orders_clean_below_changes_below_user_below_internal() {
    assert!(Outcome::Clean < Outcome::ChangesNeeded);
    assert!(Outcome::ChangesNeeded < Outcome::UserError);
    assert!(Outcome::UserError < Outcome::InternalError);
}

#[test]
fn a_parse_refusal_is_a_user_error() {
    let refusal = FormatError::HasParseErrors(Vec::new());
    assert_eq!(Outcome::of_format_error(&refusal), Outcome::UserError);
}

#[test]
fn a_broken_certificate_is_an_internal_error() {
    let bug = FormatError::CertificateBroke {
        certificate: Certificate::LayoutOnly,
        reason: CertificateBreak::NotAMember(Vec::new()),
    };
    assert_eq!(Outcome::of_format_error(&bug), Outcome::InternalError);
}

#[test]
fn the_reorder_refusals_map_as_formats_do() {
    let refusal = ReorderError::HasParseErrors(Vec::new());
    assert_eq!(Outcome::of_reorder_error(&refusal), Outcome::UserError);
    let bug = ReorderError::PermutationBroke { unit: None, bijection: None };
    assert_eq!(Outcome::of_reorder_error(&bug), Outcome::InternalError);
}

#[test]
fn the_four_outcomes_carry_four_distinct_exit_codes() {
    let codes = [
        Outcome::Clean,
        Outcome::ChangesNeeded,
        Outcome::UserError,
        Outcome::InternalError,
    ]
    .map(Outcome::exit_code);
    let distinct: std::collections::BTreeSet<u8> = codes.iter().copied().collect();
    assert_eq!(distinct.len(), codes.len(), "each outcome needs its own code");
}

#[test]
fn the_exit_codes_are_the_formatter_convention() {
    assert_eq!(Outcome::Clean.exit_code(), 0);
    assert_eq!(Outcome::ChangesNeeded.exit_code(), 1);
    assert_eq!(Outcome::UserError.exit_code(), 2);
    assert_eq!(Outcome::InternalError.exit_code(), 70);
}

#[test]
fn a_run_reports_the_worst_of_its_outcomes() {
    let runs = [Outcome::Clean, Outcome::UserError, Outcome::ChangesNeeded];
    let worst = runs.iter().fold(Outcome::Clean, |acc, o| acc.worst(*o));
    assert_eq!(worst, Outcome::UserError);
    assert_eq!(Outcome::InternalError.worst(Outcome::Clean), Outcome::InternalError);
    assert_eq!(Outcome::Clean.worst(Outcome::Clean), Outcome::Clean);
}

#[test]
fn check_reports_changes_needed_only_for_a_changed_input() {
    assert_eq!(changes(true), Outcome::ChangesNeeded);
    assert_eq!(changes(false), Outcome::Clean);
}
