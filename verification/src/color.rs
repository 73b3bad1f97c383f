//! Colour policy: the `--color` choice is `auto` (the default), `always`, or
//! `never`. Under `auto` colour is emitted only to a terminal, and never when
//! `NO_COLOR` is set; `always` and `never` force the choice. This module also
//! paints diagnostics already rendered as plain text: the canonical text stays
//! exactly what remains once the colour codes are stripped.

use vstd::prelude::*;

use crate::text::{
    chars_of, find, find_first, first_non_space, first_non_space_of, has_prefix, line_end,
    line_end_from, lemma_line_end, push_char, push_chars, slice_chars, starts_with,
};

verus! {

/// The reset code, closing any colour.
pub const RESET: &'static str = "\u{1b}[0m";

/// Red: errors and deletions.
pub const RED: &'static str = "\u{1b}[31m";

/// Green: additions.
pub const GREEN: &'static str = "\u{1b}[32m";

/// Yellow: warnings.
pub const YELLOW: &'static str = "\u{1b}[33m";

/// Blue: secondary underlines.
pub const BLUE: &'static str = "\u{1b}[34m";

/// Cyan: notes and hunk headers.
pub const CYAN: &'static str = "\u{1b}[36m";

/// Bold: diagnostic headers.
pub const BOLD: &'static str = "\u{1b}[1m";

/// A colour the CLI paints with.
#[derive(Clone, Copy, PartialEq, Eq, Debug)]
pub enum Color {
    Red,
    Green,
    Yellow,
    Blue,
    Cyan,
}

/// The ANSI SGR code that selects `c`.
pub open spec fn sgr(c: Color) -> Seq<char> {
    match c {
        Color::Red => seq!['\u{1b}', '[', '3', '1', 'm'],
        Color::Green => seq!['\u{1b}', '[', '3', '2', 'm'],
        Color::Yellow => seq!['\u{1b}', '[', '3', '3', 'm'],
        Color::Blue => seq!['\u{1b}', '[', '3', '4', 'm'],
        Color::Cyan => seq!['\u{1b}', '[', '3', '6', 'm'],
    }
}

/// The ANSI SGR reset code.
pub open spec fn reset() -> Seq<char> {
    seq!['\u{1b}', '[', '0', 'm']
}

/// The ANSI SGR bold code.
pub open spec fn bold() -> Seq<char> {
    seq!['\u{1b}', '[', '1', 'm']
}

/// Append the code that selects `c`.
pub fn push_color(out: &mut String, c: Color)
    ensures
        final(out)@ == old(out)@ + sgr(c),
{
    let digit = match c {
        Color::Red => '1',
        Color::Green => '2',
        Color::Yellow => '3',
        Color::Blue => '4',
        Color::Cyan => '6',
    };
    let code = ['\u{1b}', '[', '3', digit, 'm'];
    push_chars(out, &code);
    assert(code@ =~= sgr(c));
}

/// Append the reset code.
pub fn push_reset(out: &mut String)
    ensures
        final(out)@ == old(out)@ + reset(),
{
    let code = ['\u{1b}', '[', '0', 'm'];
    push_chars(out, &code);
    assert(code@ =~= reset());
}

/// Append the bold code.
pub fn push_bold(out: &mut String)
    ensures
        final(out)@ == old(out)@ + bold(),
{
    let code = ['\u{1b}', '[', '1', 'm'];
    push_chars(out, &code);
    assert(code@ =~= bold());
}

/// The `--color` choice: follow the terminal, or force colour on or off.
#[derive(Clone, Copy, Debug, PartialEq, Eq)]
pub enum ColorChoice {
    /// Colour a terminal, honouring `NO_COLOR`; plain otherwise.
    Auto,
    /// Colour whatever the stream, `NO_COLOR` included.
    Always,
    /// Never colour.
    Never,
}

/// The colour policy as a pure function of the choice, whether the stream is a
/// terminal, and whether `NO_COLOR` is set (to any value). Under `Auto`, colour
/// needs a terminal and an unset `NO_COLOR`; `Always` and `Never` override both.
pub fn resolve(choice: ColorChoice, stream_is_tty: bool, no_color: bool) -> (r: bool)
    ensures
        r == match choice {
            ColorChoice::Always => true,
            ColorChoice::Never => false,
            ColorChoice::Auto => stream_is_tty && !no_color,
        },
{
    match choice {
        ColorChoice::Always => true,
        ColorChoice::Never => false,
        ColorChoice::Auto => stream_is_tty && !no_color,
    }
}

/// The severity colour of a header line (`error[`, `warning[`, `note[`), or
/// `None` for any other line.
pub open spec fn header_color(content: Seq<char>) -> Option<Color> {
    if has_prefix(content, seq!['e', 'r', 'r', 'o', 'r', '[']) {
        Some(Color::Red)
    } else if has_prefix(content, seq!['w', 'a', 'r', 'n', 'i', 'n', 'g', '[']) {
        Some(Color::Yellow)
    } else if has_prefix(content, seq!['n', 'o', 't', 'e', '[']) {
        Some(Color::Cyan)
    } else {
        None
    }
}

/// `prefix`, then `body` wrapped in `color` and reset.
pub open spec fn painted_with(prefix: Seq<char>, color: Color, body: Seq<char>) -> Seq<char> {
    prefix + sgr(color) + body + reset()
}

/// A header with its `severity[id]:` bold in `color`, the message plain.
pub open spec fn painted_header(content: Seq<char>, color: Color) -> Seq<char> {
    match find_first(content, seq![']', ':']) {
        Some(end) => bold() + sgr(color) + content.take(end + 2) + reset() + content.skip(end + 2),
        None => painted_with(Seq::empty(), color, content),
    }
}

/// One line (without its newline) painted under the current diagnostic's
/// colour `severity`, and the colour the next line inherits.
pub open spec fn painted_line(content: Seq<char>, severity: Color) -> (Seq<char>, Color) {
    match header_color(content) {
        Some(c) => (painted_header(content, c), c),
        None => match find_first(content, seq!['|', ' ']) {
            Some(bar) => {
                let gutter = content.take(bar + 2);
                let body = content.skip(bar + 2);
                match first_non_space(body) {
                    Some('^') => (painted_with(gutter, severity, body), severity),
                    Some('-') => (painted_with(gutter, Color::Blue, body), severity),
                    _ => (content, severity),
                }
            },
            None => (content, severity),
        },
    }
}

/// Every line of `s` painted in turn, each newline kept outside the colour.
pub open spec fn painted_lines(s: Seq<char>, severity: Color) -> Seq<char>
    decreases s.len(),
{
    if s.len() == 0 {
        Seq::empty()
    } else {
        let e = line_end(s);
        let (p, next) = painted_line(s.take(e), severity);
        if e < s.len() {
            proof {
                lemma_line_end(s);
            }
            p + seq!['\n'] + painted_lines(s.skip(e + 1), next)
        } else {
            p
        }
    }
}

/// Paint a diagnostic already rendered as plain text, by line: the
/// `severity[id]:` header bold in the severity's colour, the primary `^`
/// underline (and its message) in that colour, a secondary `-` underline blue;
/// the source snippet, gutters, and locations stay plain.
pub fn diagnostics(rendered: &str) -> (out: String)
    ensures
        out@ == painted_lines(rendered@, Color::Red),
{
    let chars = chars_of(rendered);
    let mut out = String::new();
    let mut severity = Color::Red;
    let mut pos: usize = 0;
    let ghost whole = painted_lines(chars@, Color::Red);
    proof {
        assert(chars@.skip(0) =~= chars@);
        assert(Seq::<char>::empty() + whole =~= whole);
    }
    while pos < chars.len()
        invariant
            pos <= chars@.len(),
            out@ + painted_lines(chars@.skip(pos as int), severity) == whole,
        decreases chars.len() - pos,
    {
        let e = line_end_from(chars.as_slice(), pos);
        let content = slice_chars(chars.as_slice(), pos, e);
        let ghost rest = chars@.skip(pos as int);
        let ghost old_out = out@;
        let ghost old_severity = severity;
        proof {
            assert(rest.take(e - pos) =~= content@);
        }
        let (next, Ghost(painted)) = paint_line(&mut out, content.as_slice(), severity);
        severity = next;
        if e < chars.len() {
            push_char(&mut out, '\n');
            proof {
                lemma_line_end(rest);
                assert(rest.skip(e - pos + 1) =~= chars@.skip(e + 1));
                assert(out@ =~= old_out + (painted + seq!['\n']));
                assert(old_out + (painted + seq!['\n'] + painted_lines(chars@.skip(e + 1), next))
                    =~= out@ + painted_lines(chars@.skip(e + 1), next));
            }
            pos = e + 1;
        } else {
            proof {
                assert(chars@.skip(e as int) =~= Seq::<char>::empty());
            }
            pos = e;
        }
    }
    proof {
        assert(chars@.skip(pos as int) =~= Seq::<char>::empty());
        assert(out@ + Seq::<char>::empty() =~= out@);
    }
    out
}

/// Paint one line (without its newline) onto `out`, returning the colour the
/// next line inherits and, as a ghost, the painted text.
fn paint_line(out: &mut String, content: &[char], severity: Color) -> (r: (Color, Ghost<Seq<char>>))
    ensures
        painted_line(content@, severity) == (r.1@, r.0),
        final(out)@ == old(out)@ + r.1@,
{
    match header_severity(content) {
        Some(color) => {
            paint_header(out, content, color);
            (color, Ghost(painted_header(content@, color)))
        },
        None => {
            let bar = ['|', ' '];
            assert(bar@ =~= seq!['|', ' ']);
            match find(content, &bar) {
                Some(b) => {
                    let n = content.len();
                    assert(b + 2 <= n);
                    let gutter = slice_chars(content, 0, b + 2);
                    let body = slice_chars(content, b + 2, content.len());
                    assert(gutter@ =~= content@.take(b + 2));
                    assert(body@ =~= content@.skip(b + 2));
                    match first_non_space_of(body.as_slice()) {
                        Some('^') => {
                            paint(out, gutter.as_slice(), severity, body.as_slice());
                            (severity, Ghost(painted_with(gutter@, severity, body@)))
                        },
                        Some('-') => {
                            paint(out, gutter.as_slice(), Color::Blue, body.as_slice());
                            (severity, Ghost(painted_with(gutter@, Color::Blue, body@)))
                        },
                        _ => {
                            push_chars(out, content);
                            (severity, Ghost(content@))
                        },
                    }
                },
                None => {
                    push_chars(out, content);
                    (severity, Ghost(content@))
                },
            }
        },
    }
}

/// The severity colour of a header line, or `None` for any other line.
fn header_severity(content: &[char]) -> (r: Option<Color>)
    ensures
        r == header_color(content@),
{
    let error = ['e', 'r', 'r', 'o', 'r', '['];
    let warning = ['w', 'a', 'r', 'n', 'i', 'n', 'g', '['];
    let note = ['n', 'o', 't', 'e', '['];
    assert(error@ =~= seq!['e', 'r', 'r', 'o', 'r', '[']);
    assert(warning@ =~= seq!['w', 'a', 'r', 'n', 'i', 'n', 'g', '[']);
    assert(note@ =~= seq!['n', 'o', 't', 'e', '[']);
    if starts_with(content, &error) {
        Some(Color::Red)
    } else if starts_with(content, &warning) {
        Some(Color::Yellow)
    } else if starts_with(content, &note) {
        Some(Color::Cyan)
    } else {
        None
    }
}

/// Paint `severity[id]:` bold in `color`, leaving the headline message plain.
fn paint_header(out: &mut String, content: &[char], color: Color)
    ensures
        final(out)@ == old(out)@ + painted_header(content@, color),
{
    let marker = [']', ':'];
    assert(marker@ =~= seq![']', ':']);
    match find(content, &marker) {
        Some(end) => {
            proof {
                assert(find_first(content@, seq![']', ':']) == Some(end as int));
                crate::text::lemma_found_fits(content@, seq![']', ':'], 0);
            }
            let n = content.len();
            assert(end + 2 <= n);
            let code = slice_chars(content, 0, end + 2);
            let message = slice_chars(content, end + 2, content.len());
            let ghost start = out@;
            push_bold(out);
            push_color(out, color);
            push_chars(out, code.as_slice());
            push_reset(out);
            push_chars(out, message.as_slice());
            assert(code@ =~= content@.take(end + 2));
            assert(message@ =~= content@.skip(end + 2));
            assert(out@ =~= start + (bold() + sgr(color) + content@.take(end + 2) + reset()
                + content@.skip(end + 2)));
        },
        None => {
            paint(out, &[], color, content);
            assert(Seq::<char>::empty() + sgr(color) =~= sgr(color));
        },
    }
}

/// Write `prefix`, then `body` wrapped in `color` and reset.
fn paint(out: &mut String, prefix: &[char], color: Color, body: &[char])
    ensures
        final(out)@ == old(out)@ + painted_with(prefix@, color, body@),
{
    let ghost start = out@;
    push_chars(out, prefix);
    push_color(out, color);
    push_chars(out, body);
    push_reset(out);
    assert(out@ =~= start + painted_with(prefix@, color, body@));
}

/// `s` read from a point where an escape sequence is open (`in_code`) or
/// not: an escape sequence runs from the escape character through the next
/// `m`, and is dropped; every other character is kept.
pub open spec fn strip_from(s: Seq<char>, in_code: bool) -> Seq<char>
    decreases s.len(),
{
    if s.len() == 0 {
        Seq::empty()
    } else if in_code {
        strip_from(s.drop_first(), s[0] != 'm')
    } else if s[0] == '\u{1b}' {
        strip_from(s.drop_first(), true)
    } else {
        seq![s[0]] + strip_from(s.drop_first(), false)
    }
}

/// `s` with its colour codes stripped.
pub open spec fn strip_codes(s: Seq<char>) -> Seq<char> {
    strip_from(s, false)
}

/// `s` holds no escape character.
pub open spec fn plain(s: Seq<char>) -> bool {
    !s.contains('\u{1b}')
}

/// `s` is one escape sequence: the escape character, then characters other
/// than `m`, then `m`.
pub open spec fn is_code(s: Seq<char>) -> bool {
    &&& s.len() >= 2
    &&& s[0] == '\u{1b}'
    &&& s.last() == 'm'
    &&& forall|i: int| 0 < i < s.len() - 1 ==> s[i] != 'm'
}

pub proof fn lemma_plain_sub(s: Seq<char>, i: int, j: int)
    requires
        plain(s),
        0 <= i <= j <= s.len(),
    ensures
        plain(s.subrange(i, j)),
{
    if s.subrange(i, j).contains('\u{1b}') {
        let k = choose|k: int| 0 <= k < s.subrange(i, j).len() && s.subrange(i, j)[k] == '\u{1b}';
        assert(s[i + k] == '\u{1b}');
        assert(s.contains('\u{1b}'));
    }
}

/// Stripping plain text followed by `t` keeps the text.
pub proof fn lemma_strip_text(p: Seq<char>, t: Seq<char>)
    requires
        plain(p),
    ensures
        strip_from(p + t, false) == p + strip_from(t, false),
    decreases p.len(),
{
    if p.len() == 0 {
        assert(p + t =~= t);
        assert(p + strip_from(t, false) =~= strip_from(t, false));
    } else {
        assert(p[0] != '\u{1b}') by {
            if p[0] == '\u{1b}' {
                assert(p.contains('\u{1b}'));
            }
        }
        lemma_plain_sub(p, 1, p.len() as int);
        assert((p + t).drop_first() =~= p.drop_first() + t);
        lemma_strip_text(p.drop_first(), t);
        assert(seq![p[0]] + (p.drop_first() + strip_from(t, false)) =~= p + strip_from(t, false));
    }
}

proof fn lemma_strip_open(s: Seq<char>, t: Seq<char>)
    requires
        s.len() >= 1,
        s.last() == 'm',
        forall|i: int| 0 <= i < s.len() - 1 ==> s[i] != 'm',
    ensures
        strip_from(s + t, true) == strip_from(t, false),
    decreases s.len(),
{
    assert((s + t).drop_first() =~= s.drop_first() + t);
    if s.len() == 1 {
        assert(s.drop_first() + t =~= t);
    } else {
        lemma_strip_open(s.drop_first(), t);
    }
}

proof fn lemma_strip_code(code: Seq<char>, t: Seq<char>)
    requires
        is_code(code),
    ensures
        strip_from(code + t, false) == strip_from(t, false),
{
    assert((code + t).drop_first() =~= code.drop_first() + t);
    lemma_strip_open(code.drop_first(), t);
}

proof fn lemma_codes()
    ensures
        is_code(bold()),
        is_code(reset()),
        forall|c: Color| #[trigger] is_code(sgr(c)),
{
    assert(is_code(bold()));
    assert(is_code(reset()));
    assert forall|c: Color| #[trigger] is_code(sgr(c)) by {
        match c {
            Color::Red => assert(is_code(sgr(c))),
            Color::Green => assert(is_code(sgr(c))),
            Color::Yellow => assert(is_code(sgr(c))),
            Color::Blue => assert(is_code(sgr(c))),
            Color::Cyan => assert(is_code(sgr(c))),
        }
    }
}

/// Stripping a painted piece followed by `t` gives the piece's plain text
/// followed by `t` stripped.
pub proof fn lemma_strip_painted_with(prefix: Seq<char>, color: Color, body: Seq<char>, t: Seq<char>)
    requires
        plain(prefix),
        plain(body),
    ensures
        strip_from(painted_with(prefix, color, body) + t, false) == prefix + body + strip_from(t, false),
{
    lemma_codes();
    assert(painted_with(prefix, color, body) + t =~= prefix + (sgr(color) + (body + (reset() + t))));
    lemma_strip_text(prefix, sgr(color) + (body + (reset() + t)));
    lemma_strip_code(sgr(color), body + (reset() + t));
    lemma_strip_text(body, reset() + t);
    lemma_strip_code(reset(), t);
    assert(prefix + (body + strip_from(t, false)) =~= prefix + body + strip_from(t, false));
}

proof fn lemma_strip_painted_line(content: Seq<char>, severity: Color, t: Seq<char>)
    requires
        plain(content),
    ensures
        strip_from(painted_line(content, severity).0 + t, false) == content + strip_from(t, false),
{
    lemma_codes();
    match header_color(content) {
        Some(c) => {
            match find_first(content, seq![']', ':']) {
                Some(end) => {
                    crate::text::lemma_found_fits(content, seq![']', ':'], 0);
                    let head = content.take(end + 2);
                    let tail = content.skip(end + 2);
                    lemma_plain_sub(content, 0, end + 2);
                    lemma_plain_sub(content, end + 2, content.len() as int);
                    assert(painted_header(content, c) + t =~= bold() + (sgr(c) + (head + (reset() + (
                    tail + t)))));
                    lemma_strip_code(bold(), sgr(c) + (head + (reset() + (tail + t))));
                    lemma_strip_code(sgr(c), head + (reset() + (tail + t)));
                    lemma_strip_text(head, reset() + (tail + t));
                    lemma_strip_code(reset(), tail + t);
                    lemma_strip_text(tail, t);
                    assert(head + (tail + strip_from(t, false)) =~= content + strip_from(t, false));
                },
                None => {
                    lemma_strip_painted_with(Seq::empty(), c, content, t);
                    assert(Seq::<char>::empty() + content =~= content);
                },
            }
        },
        None => match find_first(content, seq!['|', ' ']) {
            Some(bar) => {
                crate::text::lemma_found_fits(content, seq!['|', ' '], 0);
                let gutter = content.take(bar + 2);
                let body = content.skip(bar + 2);
                lemma_plain_sub(content, 0, bar + 2);
                lemma_plain_sub(content, bar + 2, content.len() as int);
                assert(gutter + body =~= content);
                match first_non_space(body) {
                    Some('^') => lemma_strip_painted_with(gutter, severity, body, t),
                    Some('-') => lemma_strip_painted_with(gutter, Color::Blue, body, t),
                    _ => lemma_strip_text(content, t),
                }
            },
            None => lemma_strip_text(content, t),
        },
    }
}

/// Painting a rendered diagnostic only adds colour codes: stripped, the
/// painted text is the rendered text, whenever the rendered text holds no
/// escape character of its own.
pub proof fn lemma_strip_painted_lines(s: Seq<char>, severity: Color)
    requires
        plain(s),
    ensures
        strip_codes(painted_lines(s, severity)) == s,
    decreases s.len(),
{
    if s.len() > 0 {
        let e = line_end(s);
        lemma_line_end(s);
        let (p, next) = painted_line(s.take(e), severity);
        lemma_plain_sub(s, 0, e);
        if e < s.len() {
            lemma_plain_sub(s, e + 1, s.len() as int);
            lemma_strip_painted_lines(s.skip(e + 1), next);
            let rest = painted_lines(s.skip(e + 1), next);
            assert(p + seq!['\n'] + rest =~= p + (seq!['\n'] + rest));
            lemma_strip_painted_line(s.take(e), severity, seq!['\n'] + rest);
            assert(plain(seq!['\n'])) by {
                if seq!['\n'].contains('\u{1b}') {
                    assert(seq!['\n'][0] == '\n');
                }
            }
            lemma_strip_text(seq!['\n'], rest);
            assert(s.take(e) + (seq!['\n'] + s.skip(e + 1)) =~= s);
        } else {
            assert(s.take(e) =~= s);
            assert(p + Seq::<char>::empty() =~= p);
            lemma_strip_painted_line(s, severity, Seq::empty());
            assert(s + Seq::<char>::empty() =~= s);
        }
    }
}

} // verus!
