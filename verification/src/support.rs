//! Shared helpers for suites: a source over an inline program, and a corpus
//! input classified by its parse.

use vstd::prelude::*;

use crate::syntax::{Dialect, SyntaxKind, is_comment, is_comment_kind};

verus! {

/// The largest source text, in bytes: every offset into it fits 32 bits.
pub const MAX_LEN: usize = 4294967295;

/// A source program's text, at most [`MAX_LEN`] bytes.
#[derive(Debug)]
pub struct Source {
    text: String,
}

impl View for Source {
    type V = Seq<char>;

    closed spec fn view(&self) -> Seq<char> {
        self.text@
    }
}

/// A text too large to be a source.
#[derive(Debug)]
pub struct TooLarge {
    /// The text's length in bytes.
    pub len: usize,
}

impl Source {
    /// The source for `text`, or the refusal when it is too large.
    pub fn new(text: &str) -> (r: Result<Source, TooLarge>)
        ensures
            text.len() <= MAX_LEN ==> (r matches Ok(s) && s@ == text@),
            text.len() > MAX_LEN ==> (r matches Err(t) && t.len == text.len()),
    {
        let len = text.len();
        if len > MAX_LEN {
            Err(TooLarge { len })
        } else {
            Ok(Source { text: text.to_owned() })
        }
    }

    /// The source text.
    pub fn text(&self) -> (t: &str)
        ensures
            t@ == self@,
    {
        self.text.as_str()
    }
}

/// A source for `text`.
pub fn source(text: &str) -> (s: Source)
    requires
        text.len() <= MAX_LEN,
    ensures
        s@ == text@,
{
    match Source::new(text) {
        Ok(s) => s,
        Err(_) => Source { text: String::new() },
    }
}

/// One corpus input, classified by parsing it.
#[derive(Debug)]
pub struct Case {
    /// The input's path, for diagnostics.
    pub path: String,
    /// The input text.
    pub text: String,
    /// The dialect it is read under.
    pub dialect: Dialect,
    /// The parser admits it: no parse errors.
    pub is_member: bool,
    /// A member carrying no comment token of any kind.
    pub comment_free: bool,
}

/// Classify one corpus input from its parse: whether it had errors, and the
/// kinds of its non-whitespace tokens.
pub fn classify(
    path: String,
    text: String,
    dialect: Dialect,
    has_errors: bool,
    kinds: &Vec<SyntaxKind>,
) -> (c: Case)
    ensures
        c.path == path,
        c.text == text,
        c.dialect == dialect,
        c.is_member == !has_errors,
        c.comment_free == (!has_errors && forall|k: int|
            0 <= k < kinds@.len() ==> !is_comment_kind(#[trigger] kinds@[k])),
{
    let mut none = true;
    let mut k: usize = 0;
    while k < kinds.len()
        invariant
            k <= kinds@.len(),
            none == forall|j: int| 0 <= j < k ==> !is_comment_kind(#[trigger] kinds@[j]),
        decreases kinds.len() - k,
    {
        if is_comment(kinds[k]) {
            none = false;
        }
        k = k + 1;
    }
    Case { path, text, dialect, is_member: !has_errors, comment_free: !has_errors && none }
}

} // verus!
