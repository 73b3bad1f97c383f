use morphe::certify::Token;
use morphe::embedded::{
    Availability, Candidate, EmbeddedContext, EmbeddedError, EmbeddedFormatter, EmbeddedFormatters,
    LanguageKey, Script, ScriptBody, apply, format_scripts, refusal_note, settle_scripts, spliced,
    structure_note,
};
use morphe::options::DEFAULT_LINE_WIDTH;
use morphe::stylua::{LuaFailure, StyLuaLibBackend};
use stylua_lib::{Config, Error, OutputVerification, format_code};
use morphe::syntax::{Severity, Span, SyntaxKind};

/// A small lexer over the ASP this suite uses: words, punctuation, `%`
/// comments, and a `#script (lang)` body up to its `#end`.
fn tokens(text: &str) -> Vec<Token> {
    let cs: Vec<char> = text.chars().collect();
    let mut out = Vec::new();
    let mut i = 0;
    let tok = |kind: SyntaxKind, a: usize, b: usize| Token {
        kind,
        text: cs[a..b].iter().collect(),
        location: Span { start: a, end: b },
    };
    while i < cs.len() {
        let c = cs[i];
        if c.is_whitespace() {
            i += 1;
        } else if c == '%' {
            let start = i;
            while i < cs.len() && cs[i] != '\n' {
                i += 1;
            }
            out.push(tok(SyntaxKind::LineComment, start, i));
        } else if c.is_alphanumeric() || c == '_' || c == '#' {
            let start = i;
            i += 1;
            while i < cs.len() && (cs[i].is_alphanumeric() || cs[i] == '_') {
                i += 1;
            }
            let word: String = cs[start..i].iter().collect();
            out.push(tok(if word.starts_with('#') { SyntaxKind::Other } else { SyntaxKind::Ident }, start, i));
            if word == "#script" {
                while i < cs.len() && cs[i] != ')' {
                    if !cs[i].is_whitespace() {
                        let a = i;
                        while i < cs.len() && !cs[i].is_whitespace() && cs[i] != '(' && cs[i] != ')' {
                            i += 1;
                        }
                        if a == i {
                            out.push(tok(SyntaxKind::LParen, i, i + 1));
                            i += 1;
                        } else {
                            out.push(tok(SyntaxKind::Ident, a, i));
                        }
                    } else {
                        i += 1;
                    }
                }
                out.push(tok(SyntaxKind::RParen, i, i + 1));
                i += 1;
                if i < cs.len() && cs[i] == '\n' {
                    i += 1;
                }
                let body_start = i;
                while i < cs.len() && !(cs[i..].starts_with(&['#', 'e', 'n', 'd'])) {
                    i += 1;
                }
                if i > body_start {
                    out.push(tok(SyntaxKind::ScriptBody, body_start, i));
                }
            }
        } else if c == ':' && i + 1 < cs.len() && cs[i + 1] == '-' {
            out.push(tok(SyntaxKind::Neck, i, i + 2));
            i += 2;
        } else {
            let kind = match c {
                '.' => SyntaxKind::Dot,
                '(' => SyntaxKind::LParen,
                ')' => SyntaxKind::RParen,
                ',' => SyntaxKind::Comma,
                ';' => SyntaxKind::Semicolon,
                '=' => SyntaxKind::Eq,
                _ => SyntaxKind::Other,
            };
            out.push(tok(kind, i, i + 1));
            i += 1;
        }
    }
    out
}

/// The `#script` statements of `text`, read from its tokens.
fn scripts(text: &str) -> Vec<Script> {
    let ts = tokens(text);
    let mut out = Vec::new();
    for (k, t) in ts.iter().enumerate() {
        if t.kind == SyntaxKind::Other && t.text == "#script" {
            let language = ts.get(k + 2).map(|l| l.text.clone());
            let body = ts.get(k + 4).filter(|b| b.kind == SyntaxKind::ScriptBody).map(|b| ScriptBody {
                start: b.location.start,
                end: b.location.end,
                text: b.text.clone(),
            });
            out.push(Script { location: t.location, language, body });
        }
    }
    out
}

fn reparse(text: &str) -> Vec<Token> {
    tokens(text)
}

fn stylua(code: &str, column_width: usize) -> Result<String, LuaFailure> {
    let config = Config { column_width, ..Config::default() };
    match format_code(code, config, None, OutputVerification::Full) {
        Ok(text) => Ok(text),
        Err(error @ Error::ParseError(_)) => Err(LuaFailure::Parse { message: error.to_string() }),
        Err(Error::VerificationAstError(_)) => Err(LuaFailure::Unverified),
        Err(Error::VerificationAstDifference) => Err(LuaFailure::Unverified),
    }
}

struct MockBackend {
    language: LanguageKey,
    behavior: Behavior,
}

enum Behavior {
    Reformat(String),
    Passthrough,
    Refuse(EmbeddedError),
}

impl EmbeddedFormatter for MockBackend {
    fn language(&self) -> &LanguageKey {
        &self.language
    }

    fn availability(&self) -> Availability {
        Availability::Available
    }

    fn format(&self, body: &str, _cx: &EmbeddedContext) -> Result<String, EmbeddedError> {
        match &self.behavior {
            Behavior::Reformat(text) => Ok(text.clone()),
            Behavior::Passthrough => Ok(body.to_owned()),
            Behavior::Refuse(error) => Err(error.clone()),
        }
    }
}

fn registry(language: &str, behavior: Behavior) -> EmbeddedFormatters {
    let mut r = EmbeddedFormatters::default();
    r.insert(
        LanguageKey::new(language),
        Box::new(MockBackend { language: LanguageKey::new(language), behavior }),
    );
    r
}

fn pass(text: &str, registry: &EmbeddedFormatters) -> morphe::embedded::EmbeddedPass {
    format_scripts(&scripts(text), text, &tokens(text), registry, DEFAULT_LINE_WIDTH, reparse)
}

const ONE_SCRIPT: &str = "a.\n#script (python)\nx=1\n#end.\nb.\n";
const ONE_LUA_SCRIPT: &str = "a.\n#script (lua)\nlocal x=1\n#end.\nb.\n";

#[test]
fn an_empty_registry_supports_no_language() {
    let cx = EmbeddedContext { line_width: DEFAULT_LINE_WIDTH };
    let refusal = EmbeddedFormatters::default().format("python", "x=1", &cx);
    assert!(matches!(refusal, Err(EmbeddedError::Unsupported)));
}

#[test]
fn embedded_embedded_formatting_is_idempotent() {
    let mut registry = EmbeddedFormatters::default();
    registry.insert(LanguageKey::new("lua"), Box::new(StyLuaLibBackend::new(stylua)));
    let once = pass(ONE_LUA_SCRIPT, &registry);
    assert!(once.changed, "StyLua reformatted the body");
    assert!(once.text.contains("local x = 1"));
    let twice = pass(&once.text, &registry);
    assert_eq!(once.text, twice.text, "StyLua is at its fixed point on the formatted body");
    assert!(!twice.changed);
}

#[test]
fn a_claimed_body_is_reformatted() {
    let out = pass(ONE_SCRIPT, &registry("python", Behavior::Reformat("x = 1\n".to_owned())));
    assert!(out.changed);
    assert_eq!(out.text, "a.\n#script (python)\nx = 1\n#end.\nb.\n");
    assert!(out.notes.is_empty());
}

#[test]
fn a_backend_that_returns_the_body_unchanged_is_a_no_op() {
    let out = pass(ONE_SCRIPT, &registry("python", Behavior::Passthrough));
    assert!(!out.changed);
    assert_eq!(out.text, ONE_SCRIPT);
    assert!(out.notes.is_empty());
}

#[test]
fn an_unclaimed_language_keeps_the_body_verbatim_with_a_note() {
    let out = pass(ONE_SCRIPT, &EmbeddedFormatters::default());
    assert!(!out.changed);
    assert_eq!(out.text, ONE_SCRIPT);
    assert_eq!(out.notes.len(), 1);
    assert_eq!(out.notes[0].severity, Severity::Warning);
    assert_eq!(out.notes[0].name, "embedded-not-formatted");
    assert_eq!(
        out.notes[0].message,
        "no embedded formatter is registered for the `python` script language; the script body was kept verbatim"
    );
}

#[test]
fn every_backend_refusal_keeps_the_body_verbatim_with_a_note() {
    for error in [
        EmbeddedError::Unavailable { reason: "off".to_owned() },
        EmbeddedError::Failed { message: "bad".to_owned() },
        EmbeddedError::Unverified,
        EmbeddedError::Panicked,
    ] {
        let out = pass(ONE_SCRIPT, &registry("python", Behavior::Refuse(error)));
        assert!(!out.changed);
        assert_eq!(out.text, ONE_SCRIPT);
        assert_eq!(out.notes.len(), 1);
    }
}

#[test]
fn a_structure_disturbing_splice_reverts_to_verbatim_with_a_note() {
    let out = pass(ONE_SCRIPT, &registry("python", Behavior::Reformat("x\n#end.\nq.\n".to_owned())));
    assert!(!out.changed);
    assert_eq!(out.text, ONE_SCRIPT);
    assert_eq!(out.notes.len(), 1);
    assert_eq!(out.notes[0].name, "embedded-structure");
}

#[test]
fn a_disturbing_splice_reverts_while_a_clean_sibling_still_applies() {
    let text = "#script (python)\nx=1\n#end.\n#script (lua)\ny=2\n#end.\n";
    let mut registry = registry("python", Behavior::Reformat("x = 1\n".to_owned()));
    registry.insert(
        LanguageKey::new("lua"),
        Box::new(MockBackend {
            language: LanguageKey::new("lua"),
            behavior: Behavior::Reformat("y\n#end.\nq.\n".to_owned()),
        }),
    );
    let out = pass(text, &registry);
    assert!(out.changed);
    assert_eq!(out.text, "#script (python)\nx = 1\n#end.\n#script (lua)\ny=2\n#end.\n");
    assert_eq!(out.notes.len(), 1);
    assert_eq!(out.notes[0].name, "embedded-structure");
}

#[test]
fn a_program_without_scripts_is_untouched() {
    let out = pass("p :- q.\n", &EmbeddedFormatters::default());
    assert!(!out.changed);
    assert_eq!(out.text, "p :- q.\n");
    assert!(out.notes.is_empty());
}

#[test]
fn inserting_a_language_twice_keeps_one_backend_the_later() {
    let mut r = registry("python", Behavior::Reformat("a\n".to_owned()));
    r.insert(
        LanguageKey::new("python"),
        Box::new(MockBackend { language: LanguageKey::new("python"), behavior: Behavior::Reformat("b\n".to_owned()) }),
    );
    let cx = EmbeddedContext { line_width: 80 };
    assert_eq!(r.format("python", "x", &cx), Ok("b\n".to_owned()));
    assert!(matches!(r.format("lua", "x", &cx), Err(EmbeddedError::Unsupported)));
}

#[test]
fn splicing_replaces_exactly_the_range() {
    let base: Vec<char> = "abcdef".chars().collect();
    let rep: Vec<char> = "XY".chars().collect();
    assert_eq!(spliced(&base, 2, 4, &rep).iter().collect::<String>(), "abXYef");
    let cands = vec![
        Candidate { start: 0, end: 1, formatted: "1".to_owned(), rejection: structure_note(Span { start: 0, end: 0 }, "x") },
        Candidate { start: 3, end: 5, formatted: "22".to_owned(), rejection: structure_note(Span { start: 0, end: 0 }, "x") },
    ];
    assert_eq!(apply(&base, &cands).iter().collect::<String>(), "1bc22f");
}

#[test]
fn refusal_notes_name_the_language_and_the_reason() {
    let at = Span { start: 3, end: 30 };
    let n = refusal_note(at, "lua", &EmbeddedError::Failed { message: "line 1".to_owned() });
    assert_eq!(
        n.message,
        "the `lua` embedded formatter rejected the script body (line 1); the script body was kept verbatim"
    );
    assert_eq!(n.location, at);
    assert_eq!(n.namespace, "morphe");
    let s = structure_note(at, "python");
    assert_eq!(
        s.message,
        "the `python` embedded formatter's output would alter the ASP program structure; the script body was kept verbatim"
    );
    let u = refusal_note(at, "py", &EmbeddedError::Unavailable { reason: "disabled".to_owned() });
    assert_eq!(u.message, "the `py` embedded formatter is unavailable (disabled); the script body was kept verbatim");
    let v = refusal_note(at, "py", &EmbeddedError::Unverified);
    assert_eq!(v.message, "the `py` embedded formatter could not verify its own output; the script body was kept verbatim");
    let p = refusal_note(at, "py", &EmbeddedError::Panicked);
    assert_eq!(p.message, "the `py` embedded formatter panicked; the script body was kept verbatim");
}

const TWO_SCRIPTS: &str = "a.\n#script (python)\nx=1\n#end.\n#script (lua)\ny=2\n#end.\nb.\n";

#[test]
fn settling_splices_every_clean_reformat_that_binds() {
    let text = TWO_SCRIPTS;
    let outcomes = vec![Some(Ok("x = 1\n".to_owned())), Some(Ok("y = 2\n".to_owned()))];
    let r = settle_scripts(&scripts(text), text, &tokens(text), &outcomes, reparse);
    assert!(r.changed);
    assert!(r.notes.is_empty());
    assert_eq!(r.text, "a.\n#script (python)\nx = 1\n#end.\n#script (lua)\ny = 2\n#end.\nb.\n");
}

#[test]
fn settling_notes_a_refusal_and_keeps_the_other_reformat() {
    let text = TWO_SCRIPTS;
    let outcomes = vec![
        Some(Err(EmbeddedError::Failed { message: "bad".to_owned() })),
        Some(Ok("y = 2\n".to_owned())),
    ];
    let r = settle_scripts(&scripts(text), text, &tokens(text), &outcomes, reparse);
    assert!(r.changed);
    assert_eq!(r.text, "a.\n#script (python)\nx=1\n#end.\n#script (lua)\ny = 2\n#end.\nb.\n");
    assert_eq!(r.notes.len(), 1);
    assert_eq!(r.notes[0].name, "embedded-not-formatted");
    assert_eq!(
        r.notes[0].message,
        "the `python` embedded formatter rejected the script body (bad); the script body was kept verbatim"
    );
}

#[test]
fn settling_keeps_out_a_reformat_that_disturbs_the_structure() {
    let text = TWO_SCRIPTS;
    let outcomes = vec![Some(Ok("x = 1\n#end.\nc.\n".to_owned())), Some(Ok("y = 2\n".to_owned()))];
    let r = settle_scripts(&scripts(text), text, &tokens(text), &outcomes, reparse);
    assert!(r.changed);
    assert_eq!(r.text, "a.\n#script (python)\nx=1\n#end.\n#script (lua)\ny = 2\n#end.\nb.\n");
    assert_eq!(r.notes.len(), 1);
    assert_eq!(r.notes[0].name, "embedded-structure");
}

#[test]
fn settling_an_unchanged_body_leaves_the_skeleton() {
    let text = ONE_SCRIPT;
    let outcomes = vec![Some(Ok("x=1\n".to_owned()))];
    let r = settle_scripts(&scripts(text), text, &tokens(text), &outcomes, reparse);
    assert!(!r.changed);
    assert!(r.notes.is_empty());
    assert_eq!(r.text, text);
}

#[test]
fn a_registry_from_pairs_serves_each_language_and_a_later_pair_replaces() {
    let pairs: Vec<(LanguageKey, Box<dyn EmbeddedFormatter>)> = vec![
        (
            LanguageKey::new("lua"),
            Box::new(MockBackend { language: LanguageKey::new("lua"), behavior: Behavior::Reformat("first".to_owned()) }),
        ),
        (
            LanguageKey::new("python"),
            Box::new(MockBackend { language: LanguageKey::new("python"), behavior: Behavior::Passthrough }),
        ),
        (
            LanguageKey::new("lua"),
            Box::new(MockBackend { language: LanguageKey::new("lua"), behavior: Behavior::Reformat("second".to_owned()) }),
        ),
    ];
    let r = EmbeddedFormatters::from_pairs(pairs);
    let cx = EmbeddedContext { line_width: DEFAULT_LINE_WIDTH };
    assert_eq!(r.format("lua", "x", &cx).unwrap(), "second");
    assert_eq!(r.format("python", "y = 1", &cx).unwrap(), "y = 1");
    assert!(matches!(r.format("ruby", "z", &cx), Err(EmbeddedError::Unsupported)));
}

#[test]
fn replacing_one_language_keeps_every_other_backend() {
    let cx = EmbeddedContext { line_width: DEFAULT_LINE_WIDTH };
    let mut r = registry("python", Behavior::Reformat("P\n".to_owned()));
    r.insert(
        LanguageKey::new("lua"),
        Box::new(MockBackend { language: LanguageKey::new("lua"), behavior: Behavior::Reformat("L\n".to_owned()) }),
    );
    r.insert(
        LanguageKey::new("lua"),
        Box::new(MockBackend { language: LanguageKey::new("lua"), behavior: Behavior::Reformat("M\n".to_owned()) }),
    );
    assert_eq!(r.format("python", "x", &cx), Ok("P\n".to_owned()));
    assert_eq!(r.format("lua", "y", &cx), Ok("M\n".to_owned()));
    assert_eq!(r.format("ruby", "z", &cx), Err(EmbeddedError::Unsupported));
}
