use morphe::embedded::EmbeddedFormatters;
use morphe::cli::{
    Config, ConfigError, ConfigSource, DialectName, EmbeddedArgs, FileReport, Flags, Inputs,
    ReorderArgs, Summary, UnsafeToggles, config_for, empty_config, is_stdin, plan_inputs,
    resolve_options, wants_reorder,
};
use morphe::options::DEFAULT_LINE_WIDTH;
use morphe::outcome::Outcome;
use morphe::syntax::Dialect;

fn flags() -> Flags {
    Flags {
        line_width: None,
        dialect: None,
        preserve_spellings: false,
        embedded: EmbeddedArgs { format_embedded: false, no_format_embedded: false },
        reorder: ReorderArgs { reorder: false, reorder_includes: false },
    }
}

#[test]
fn the_embedded_choice_is_explicit_or_absent() {
    assert_eq!(EmbeddedArgs { format_embedded: true, no_format_embedded: false }.choice(), Some(true));
    assert_eq!(EmbeddedArgs { format_embedded: false, no_format_embedded: true }.choice(), Some(false));
    assert_eq!(EmbeddedArgs { format_embedded: false, no_format_embedded: false }.choice(), None);
}

#[test]
fn reorder_includes_implies_reorder() {
    assert!(ReorderArgs { reorder: false, reorder_includes: true }.wanted());
    assert!(ReorderArgs { reorder: true, reorder_includes: false }.wanted());
    assert!(!ReorderArgs { reorder: false, reorder_includes: false }.wanted());
}

#[test]
fn with_nothing_set_the_defaults_apply() {
    let o = resolve_options(&flags(), &empty_config(), EmbeddedFormatters::new());
    assert_eq!(o.line_width, DEFAULT_LINE_WIDTH);
    assert_eq!(o.dialect, Dialect::Clingo);
    assert!(!o.preserve_spellings);
    assert!(!o.format_embedded);
    assert!(!o.reorder_includes);
    assert!(!wants_reorder(&flags(), &empty_config()));
}

#[test]
fn a_flag_wins_over_the_config_which_wins_over_the_default() {
    let config = Config {
        line_width: Some(80),
        dialect: Some(DialectName::AspCore2),
        preserve_spellings: Some(true),
        format_embedded: Some(true),
        reorder: None,
        unsafe_toggles: UnsafeToggles { reorder_includes: Some(true) },
    };
    let from_config = resolve_options(&flags(), &config, EmbeddedFormatters::new());
    assert_eq!(from_config.line_width, 80);
    assert_eq!(from_config.dialect, Dialect::AspCore2);
    assert!(from_config.preserve_spellings);
    assert!(from_config.format_embedded);
    assert!(from_config.reorder_includes);
    let mut f = flags();
    f.line_width = Some(60);
    f.dialect = Some(Dialect::Clingo);
    f.embedded.no_format_embedded = true;
    let from_flags = resolve_options(&f, &config, EmbeddedFormatters::new());
    assert_eq!(from_flags.line_width, 60);
    assert_eq!(from_flags.dialect, Dialect::Clingo);
    assert!(!from_flags.format_embedded);
}

#[test]
fn config_reorder_or_the_unsafe_toggle_enables_the_reorder() {
    let mut config = empty_config();
    config.reorder = Some(true);
    assert!(wants_reorder(&flags(), &config));
    let mut unsafe_only = empty_config();
    unsafe_only.unsafe_toggles.reorder_includes = Some(true);
    assert!(wants_reorder(&flags(), &unsafe_only));
}

#[test]
fn the_config_source_decides_what_governs_an_input() {
    let never = |_: &str| -> Result<Config, ConfigError> {
        Err(ConfigError::Read { path: "x".to_owned(), message: "no".to_owned() })
    };
    assert_eq!(config_for(ConfigSource::Isolated, Some("dir"), never).ok(), Some(empty_config()));
    let mut fixed = empty_config();
    fixed.line_width = Some(42);
    assert_eq!(config_for(ConfigSource::Fixed(fixed), Some("dir"), never).ok(), Some(fixed));
    assert_eq!(config_for(ConfigSource::Discover, None, never).ok(), Some(empty_config()));
    assert!(config_for(ConfigSource::Discover, Some("dir"), never).is_err());
}

#[test]
fn a_config_error_names_the_file() {
    let e = ConfigError::Parse { path: "morphe.toml".to_owned(), message: "unknown field".to_owned() };
    assert_eq!(e.message(), "morphe.toml: unknown field");
}

#[test]
fn an_errored_file_is_a_user_error_left_out_of_the_tally() {
    let r = FileReport::errored();
    assert_eq!(r.outcome, Outcome::UserError);
    assert_eq!(r.changed, None);
}

#[test]
fn a_run_prints_a_summary_and_the_changed_files() {
    let mut s = Summary::new(false, false);
    s.record("a.lp", Some(true));
    s.record("b.lp", Some(false));
    s.record("c.lp", None);
    assert_eq!(s.report_lines(), vec!["reformatted a.lp", "1 reformatted, 1 unchanged"]);
}

#[test]
fn verbose_names_unchanged_files_too() {
    let mut s = Summary::new(true, true);
    s.record("a.lp", Some(true));
    s.record("b.lp", Some(false));
    assert_eq!(
        s.report_lines(),
        vec!["would reformat a.lp", "unchanged b.lp", "1 would be reformatted"]
    );
}

#[test]
fn an_empty_tally_prints_nothing() {
    let mut s = Summary::new(false, true);
    s.record("x.lp", None);
    assert!(s.report_lines().is_empty());
}

#[test]
fn the_inputs_are_stdin_paths_or_a_usage_error() {
    let v = |xs: &[&str]| xs.iter().map(|s| s.to_string()).collect::<Vec<_>>();
    assert!(matches!(plan_inputs(&v(&["-"]), true), Inputs::Stdin));
    assert!(matches!(plan_inputs(&v(&[]), false), Inputs::Stdin));
    assert!(matches!(plan_inputs(&v(&[]), true), Inputs::Nothing));
    assert!(matches!(plan_inputs(&v(&["-", "a.lp"]), false), Inputs::Mixed));
    match plan_inputs(&v(&["a.lp", "dir"]), true) {
        Inputs::Paths(p) => assert_eq!(p, v(&["a.lp", "dir"])),
        other => panic!("expected paths, got {other:?}"),
    }
    assert!(is_stdin("-"));
    assert!(!is_stdin("--"));
}
