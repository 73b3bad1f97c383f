//! The `--diff` unified diff: the change from an input to its formatted text,
//! for the user to read. It is advisory output, never part of the certificate.
//! The diff itself comes from `similar`; this module colours it by line.

use vstd::prelude::*;

use crate::color::{
    lemma_plain_sub, lemma_strip_painted_with, lemma_strip_text, painted_with, plain, push_color, push_reset, reset, sgr,
    strip_codes, Color,
};
use crate::text::{
    chars_of, has_prefix, lemma_line_end, line_end, line_end_from, push_char, push_chars,
    slice_chars, starts_with,
};

verus! {

/// The unified diff `similar` renders from `original` to `formatted` under
/// the two header labels, line by line with its default context.
pub uninterp spec fn similar_unified_diff(
    original: Seq<char>,
    formatted: Seq<char>,
    original_label: Seq<char>,
    formatted_label: Seq<char>,
) -> Seq<char>;

/// `similar::TextDiff::from_lines(..).unified_diff().header(..).to_string()`:
/// the line diff rendered as a unified diff. It is the empty string when the
/// two texts are equal (no hunk is emitted, so neither is the header).
#[verifier::external_body]
fn similar_diff(original: &str, formatted: &str, original_label: &str, formatted_label: &str) -> (r:
    String)
    ensures
        r@ == similar_unified_diff(original@, formatted@, original_label@, formatted_label@),
        original@ == formatted@ ==> r@.len() == 0,
{
    similar::TextDiff::from_lines(original, formatted).unified_diff().header(
        original_label,
        formatted_label,
    ).to_string()
}

/// The colour a unified-diff line takes: a hunk header cyan, an added line
/// green, a removed line red; the `+++`/`---` file headers and context plain.
pub open spec fn diff_line_color(content: Seq<char>) -> Option<Color> {
    if has_prefix(content, seq!['@', '@']) {
        Some(Color::Cyan)
    } else if has_prefix(content, seq!['+', '+', '+']) || has_prefix(content, seq!['-', '-', '-']) {
        None
    } else if has_prefix(content, seq!['+']) {
        Some(Color::Green)
    } else if has_prefix(content, seq!['-']) {
        Some(Color::Red)
    } else {
        None
    }
}

/// One diff line (without its newline) coloured by its prefix.
pub open spec fn colored_line(content: Seq<char>) -> Seq<char> {
    match diff_line_color(content) {
        Some(c) => painted_with(Seq::empty(), c, content),
        None => content,
    }
}

/// Every line of a diff coloured, each newline kept outside the colour.
pub open spec fn colored_lines(s: Seq<char>) -> Seq<char>
    decreases s.len(),
{
    if s.len() == 0 {
        Seq::empty()
    } else {
        let e = line_end(s);
        if e < s.len() {
            proof {
                lemma_line_end(s);
            }
            colored_line(s.take(e)) + seq!['\n'] + colored_lines(s.skip(e + 1))
        } else {
            colored_line(s)
        }
    }
}

/// A unified diff from `original` to `formatted`, headed with the two labels
/// (the input's path, or a stdin marker). The empty string when the texts are
/// equal; ANSI-coloured line by line when `colored`.
pub fn unified(
    original: &str,
    formatted: &str,
    original_label: &str,
    formatted_label: &str,
    colored: bool,
) -> (r: String)
    ensures
        ({
            let plain = similar_unified_diff(original@, formatted@, original_label@, formatted_label@);
            r@ == if colored {
                colored_lines(plain)
            } else {
                plain
            }
        }),
        original@ == formatted@ ==> r@.len() == 0,
{
    let plain = similar_diff(original, formatted, original_label, formatted_label);
    if colored {
        colorize(plain.as_str())
    } else {
        plain
    }
}

/// Colour a unified diff by line prefix: a `+`/`-` line is an addition or
/// deletion, a `@@` line a hunk header, and the `+++`/`---` file headers stay
/// plain. Each coloured line's content is wrapped and reset, the line break left
/// outside the colour.
pub fn colorize(diff: &str) -> (out: String)
    ensures
        out@ == colored_lines(diff@),
{
    let chars = chars_of(diff);
    let mut out = String::new();
    let mut pos: usize = 0;
    let ghost whole = colored_lines(chars@);
    proof {
        assert(chars@.skip(0) =~= chars@);
        assert(Seq::<char>::empty() + whole =~= whole);
    }
    while pos < chars.len()
        invariant
            pos <= chars@.len(),
            out@ + colored_lines(chars@.skip(pos as int)) == whole,
        decreases chars.len() - pos,
    {
        let e = line_end_from(chars.as_slice(), pos);
        let content = slice_chars(chars.as_slice(), pos, e);
        let ghost rest = chars@.skip(pos as int);
        let ghost old_out = out@;
        proof {
            assert(rest.take(e - pos) =~= content@);
        }
        color_line(&mut out, content.as_slice());
        if e < chars.len() {
            push_char(&mut out, '\n');
            proof {
                lemma_line_end(rest);
                assert(rest.skip(e - pos + 1) =~= chars@.skip(e + 1));
                assert(out@ =~= old_out + (colored_line(content@) + seq!['\n']));
                assert(old_out + (colored_line(content@) + seq!['\n'] + colored_lines(
                    chars@.skip(e + 1),
                )) =~= out@ + colored_lines(chars@.skip(e + 1)));
            }
            pos = e + 1;
        } else {
            proof {
                assert(rest =~= content@);
                assert(chars@.skip(e as int) =~= Seq::<char>::empty());
            }
            pos = e;
        }
    }
    proof {
        assert(chars@.skip(pos as int) =~= Seq::<char>::empty());
        assert(out@ + Seq::<char>::empty() =~= out@);
    }
    out
}

/// Write one diff line (without its newline), coloured by its prefix.
fn color_line(out: &mut String, content: &[char])
    ensures
        final(out)@ == old(out)@ + colored_line(content@),
{
    let hunk = ['@', '@'];
    let added_header = ['+', '+', '+'];
    let removed_header = ['-', '-', '-'];
    let plus = ['+'];
    let minus = ['-'];
    assert(hunk@ =~= seq!['@', '@']);
    assert(added_header@ =~= seq!['+', '+', '+']);
    assert(removed_header@ =~= seq!['-', '-', '-']);
    assert(plus@ =~= seq!['+']);
    assert(minus@ =~= seq!['-']);
    let color = if starts_with(content, &hunk) {
        Some(Color::Cyan)
    } else if starts_with(content, &added_header) || starts_with(content, &removed_header) {
        None
    } else if starts_with(content, &plus) {
        Some(Color::Green)
    } else if starts_with(content, &minus) {
        Some(Color::Red)
    } else {
        None
    };
    let ghost start = out@;
    match color {
        Some(c) => {
            push_color(out, c);
            push_chars(out, content);
            push_reset(out);
            assert(out@ =~= start + painted_with(Seq::empty(), c, content@));
        },
        None => {
            push_chars(out, content);
        },
    }
}

/// Colouring a diff only adds colour codes: stripped, the coloured diff is
/// the diff, whenever the diff holds no escape character of its own.
pub proof fn lemma_strip_colored_lines(s: Seq<char>)
    requires
        plain(s),
    ensures
        strip_codes(colored_lines(s)) == s,
    decreases s.len(),
{
    if s.len() > 0 {
        let e = line_end(s);
        lemma_line_end(s);
        let content = s.take(e);
        lemma_plain_sub(s, 0, e);
        let t = if e < s.len() {
            seq!['\n'] + colored_lines(s.skip(e + 1))
        } else {
            Seq::empty()
        };
        match diff_line_color(content) {
            Some(c) => {
                lemma_strip_painted_with(Seq::empty(), c, content, t);
                assert(Seq::<char>::empty() + content =~= content);
            },
            None => lemma_strip_text(content, t),
        }
        if e < s.len() {
            lemma_plain_sub(s, e + 1, s.len() as int);
            lemma_strip_colored_lines(s.skip(e + 1));
            assert(colored_line(content) + seq!['\n'] + colored_lines(s.skip(e + 1)) =~= colored_line(
                content,
            ) + t);
            assert(plain(seq!['\n'])) by {
                if seq!['\n'].contains('\u{1b}') {
                    assert(seq!['\n'][0] == '\n');
                }
            }
            lemma_strip_text(seq!['\n'], colored_lines(s.skip(e + 1)));
            assert(content + (seq!['\n'] + s.skip(e + 1)) =~= s);
        } else {
            assert(content =~= s);
            assert(colored_line(content) + t =~= colored_line(content));
            assert(content + Seq::<char>::empty() =~= content);
        }
    }
}

} // verus!
