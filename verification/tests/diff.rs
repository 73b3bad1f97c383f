use morphe::diff::{colorize, unified};

#[test]
fn a_colored_diff_wraps_changes_in_ansi_and_resets_them() {
    let colored = unified("a\n", "b\n", "x", "x", true);
    assert!(colored.contains("\u{1b}[32m"), "an addition is green");
    assert!(colored.contains("\u{1b}[31m"), "a deletion is red");
    assert!(colored.contains("\u{1b}[0m"), "each colour is reset");
}

#[test]
fn an_uncolored_diff_carries_no_ansi() {
    let plain = unified("a\n", "b\n", "x", "x", false);
    assert!(!plain.contains('\u{1b}'), "no ANSI when colour is off");
    assert!(plain.contains("+b"), "the change is still shown");
}

#[test]
fn equal_texts_have_an_empty_diff() {
    assert_eq!(unified("p.\n", "p.\n", "f", "f", false), "");
    assert_eq!(unified("p.\n", "p.\n", "f", "f", true), "");
}

#[test]
fn the_plain_diff_is_the_unified_format_with_headers() {
    let plain = unified("a\n", "b\n", "old", "new", false);
    assert_eq!(plain, "--- old\n+++ new\n@@ -1 +1 @@\n-a\n+b\n");
}

#[test]
fn colorize_paints_by_line_prefix_and_leaves_headers_plain() {
    let painted = colorize("--- a\n+++ b\n@@ -1 +1 @@\n-x\n+y\n ctx\n");
    assert_eq!(
        painted,
        "--- a\n+++ b\n\u{1b}[36m@@ -1 +1 @@\u{1b}[0m\n\u{1b}[31m-x\u{1b}[0m\n\u{1b}[32m+y\u{1b}[0m\n ctx\n"
    );
}

fn strip_codes(s: &str) -> String {
    let mut out = String::new();
    let mut in_code = false;
    for c in s.chars() {
        if in_code {
            in_code = c != 'm';
        } else if c == '\u{1b}' {
            in_code = true;
        } else {
            out.push(c);
        }
    }
    out
}

#[test]
fn stripping_the_colour_gives_back_the_diff() {
    let diff = "--- a\n+++ b\n@@ -1 +1 @@\n-p(1).\n+p(1, 2).\n context\n";
    let colored = colorize(diff);
    assert_ne!(colored, diff);
    assert_eq!(strip_codes(&colored), diff);
}
