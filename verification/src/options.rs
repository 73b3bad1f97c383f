//! The options vocabulary: the one configuration formatting and reordering
//! read, and the results and typed refusals they return.

use vstd::prelude::*;

use crate::embedded::EmbeddedFormatters;
use crate::syntax::{Diagnostic, Dialect, Mismatch, SyntaxError};

verus! {

/// The relation a certificate proves of the output against the input.
#[derive(Clone, Copy, PartialEq, Eq, Debug, Structural)]
pub enum Certificate {
    /// Only layout differs: the non-whitespace token sequences are equal.
    LayoutOnly,
    /// Layout differs, and a synonym token may be respelled to its canonical
    /// form.
    UpToSpelling,
}

/// The formatted result. `certificate` is the claim proved of the output's
/// ASP program (skeleton) against the input, bodies held verbatim for that
/// proof. `embedded_changed` tells that a `#script` interior was reformatted;
/// `changed` whether the text differs from the input; `notes` carries the
/// per-script embedded outcomes and other warnings.
#[derive(Debug)]
pub struct Formatted {
    pub text: String,
    pub certificate: Certificate,
    pub embedded_changed: bool,
    pub changed: bool,
    pub notes: Vec<Diagnostic>,
}

/// Why the formatter declined to produce certified output.
#[derive(Debug)]
pub enum FormatError {
    /// The input is not a member — it has parse errors; the parser's own
    /// diagnostics are returned unchanged.
    HasParseErrors(Vec<SyntaxError>),
    /// The formatter produced output it could not certify against the input:
    /// a formatter bug, never the input's fault.
    CertificateBroke {
        /// The certificate being proved.
        certificate: Certificate,
        /// Which class of break, with its witness.
        reason: CertificateBreak,
    },
}

/// Why the certifier refused the formatter's own candidate output.
#[derive(Debug)]
pub enum CertificateBreak {
    /// The candidate re-parsed as a member but its non-whitespace token
    /// sequence diverged from the input's.
    TokenMismatch(Mismatch),
    /// The candidate did not re-parse as a member.
    NotAMember(Vec<SyntaxError>),
}

/// The reorder result: `text` formatted, and reordered when any reorderable
/// unit moved (`reordered`); `certificate` is the uniform claim every unit
/// earned.
#[derive(Debug)]
pub struct Reordered {
    pub text: String,
    pub certificate: Certificate,
    pub reordered: bool,
    pub changed: bool,
    pub notes: Vec<Diagnostic>,
}

/// Why the formatter declined to produce a reorder result.
#[derive(Debug)]
pub enum ReorderError {
    /// A non-member — parse errors; refused as formatting does.
    HasParseErrors(Vec<SyntaxError>),
    /// A reorder that could not be proved a pure permutation of the input — a
    /// formatter bug. The witness is a per-unit layout break, or a bijection
    /// breach.
    PermutationBroke { unit: Option<Mismatch>, bijection: Option<BijectionBreach> },
}

/// A breach of the permutation's structural law — always a formatter bug.
#[derive(Debug)]
pub enum BijectionBreach {
    /// An output unit with no matching input unit.
    UnitAdded { at: usize },
    /// An input unit with no matching output unit.
    UnitDropped { at: usize },
    /// A barrier that did not hold its position or its neighbours.
    BarrierMoved { at: usize },
    /// The reassembled output did not re-parse as a member.
    NotAMember(Vec<SyntaxError>),
}

/// The default line width — the sole configurable layout value.
pub const DEFAULT_LINE_WIDTH: usize = 100;

/// The whole configuration: one style knob (the line width), the dialect and
/// spelling policy, the embedded backends, and the reorder's one unsafe
/// toggle.
pub struct FormatOptions {
    /// The one style knob.
    pub line_width: usize,
    /// Which dialect to parse and lay out under.
    pub dialect: Dialect,
    /// Whether to preserve the author's synonym spellings.
    pub preserve_spellings: bool,
    /// The embedded-script formatters, injected.
    pub embedded: EmbeddedFormatters,
    /// Whether embedded formatting is applied at all.
    pub format_embedded: bool,
    /// Treat a top-level `#include` as a hoistable unit rather than a barrier —
    /// the caller's assertion that their includes are order-independent.
    pub reorder_includes: bool,
}

impl Default for FormatOptions {
    /// The default width and dialect, an empty registry, and every flag off.
    fn default() -> (r: FormatOptions)
        ensures
            r.line_width == DEFAULT_LINE_WIDTH,
            r.dialect == Dialect::Clingo,
            !r.preserve_spellings,
            r.embedded.languages() == Seq::<Seq<char>>::empty(),
            !r.format_embedded,
            !r.reorder_includes,
    {
        FormatOptions {
            line_width: DEFAULT_LINE_WIDTH,
            dialect: Dialect::Clingo,
            preserve_spellings: false,
            embedded: EmbeddedFormatters::new(),
            format_embedded: false,
            reorder_includes: false,
        }
    }
}

/// The options for `dialect`, defaults otherwise.
pub fn options(dialect: Dialect) -> (r: FormatOptions)
    ensures
        r.line_width == DEFAULT_LINE_WIDTH,
        r.dialect == dialect,
        !r.preserve_spellings,
        r.embedded.languages() == Seq::<Seq<char>>::empty(),
        !r.format_embedded,
        !r.reorder_includes,
{
    let mut r = FormatOptions::default();
    r.dialect = dialect;
    r
}

} // verus!
