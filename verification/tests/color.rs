use morphe::color::{BLUE, BOLD, RED, RESET, YELLOW, diagnostics, resolve};
use morphe::color::ColorChoice::{Always, Auto, Never};

const ERROR: &str = "\
error[syntax::unexpected-token]: expected `.`
 --> f.lp:1:1
  |
1 | p(
  |  - to close this `(`
  | ^ the input ends here
";

#[test]
fn an_error_header_and_its_caret_take_the_error_colour() {
    let painted = diagnostics(ERROR);
    assert!(painted.contains(RED), "the error header/caret is red");
    assert!(painted.contains(BOLD), "the header is bold");
    assert!(painted.contains(BLUE), "the secondary underline is blue");
    assert!(painted.contains(RESET), "each colour is reset");
    assert!(painted.contains("error[syntax::unexpected-token]"), "the header text survives");
    assert!(painted.contains("p("), "the source line survives");
}

#[test]
fn a_warning_header_takes_the_warning_colour() {
    let painted = diagnostics("warning[morphe::embedded-not-formatted]: kept verbatim\n");
    assert!(painted.contains(YELLOW), "a warning header is yellow");
}

#[test]
fn the_colour_policy_follows_the_choice_the_stream_and_no_color() {
    assert!(resolve(Always, false, true), "always paints even piped with NO_COLOR set");
    assert!(!resolve(Never, true, false), "never stays plain even on a terminal");
    assert!(resolve(Auto, true, false), "auto paints a terminal");
    assert!(!resolve(Auto, false, false), "auto leaves a pipe plain");
    assert!(!resolve(Auto, true, true), "auto honours NO_COLOR even on a terminal");
}

#[test]
fn a_warning_header_line_is_painted_exactly() {
    let painted = diagnostics("warning[x]: y\n");
    assert_eq!(painted, format!("{BOLD}{YELLOW}warning[x]:{RESET} y\n"));
}

#[test]
fn plain_text_without_a_header_passes_through() {
    assert_eq!(diagnostics("just text\n"), "just text\n");
}

fn strip_codes(s: &str) -> String {
    let mut out = String::new();
    let mut in_code = false;
    for c in s.chars() {
        if in_code {
            in_code = c != 'm';
        } else if c == '\u{1b}' {
            in_code = true;
        } else {
            out.push(c);
        }
    }
    out
}

#[test]
fn stripping_the_colour_gives_back_the_rendered_diagnostic() {
    let painted = diagnostics(ERROR);
    assert_ne!(painted, ERROR);
    assert_eq!(strip_codes(&painted), ERROR);
    let warning = "warning[style]: odd\n  |\n2 | q\n  | ^^ here\nnote[x]: plain";
    assert_eq!(strip_codes(&diagnostics(warning)), warning);
}
