//! The process outcome contract: the typed status the command line exits
//! with, and the single conversion from it to a raw process code.

use vstd::prelude::*;

use crate::options::{FormatError, ReorderError};

verus! {

/// The process outcome. The variants are ordered least- to most-severe, so a
/// run over several inputs folds its per-input outcomes to the worst: a clean
/// run reports `Clean`, one pending reformat lifts it to `ChangesNeeded`, the
/// user's error to `UserError`, and a formatter bug to `InternalError`.
#[derive(Clone, Copy, Debug, PartialEq, Eq, PartialOrd, Ord, Hash)]
pub enum Outcome {
    /// Formatted, or `--check`/`--diff` found nothing to change.
    Clean,
    /// `--check`/`--diff`: an input is not already formatted.
    ChangesNeeded,
    /// A parse refusal, or a usage or I/O error — the user's file or
    /// invocation.
    UserError,
    /// A formatter bug: a broken certificate or permutation certificate.
    InternalError,
}

/// The process exit codes: success, a pending reformat, the user's error, and
/// `EX_SOFTWARE` for an internal fault.
pub const CLEAN: u8 = 0;
pub const CHANGES_NEEDED: u8 = 1;
pub const USER_ERROR: u8 = 2;
pub const INTERNAL_ERROR: u8 = 70;

/// The severity rank of an outcome: its place in the least-to-most-severe
/// order.
pub open spec fn rank(o: Outcome) -> nat {
    match o {
        Outcome::Clean => 0,
        Outcome::ChangesNeeded => 1,
        Outcome::UserError => 2,
        Outcome::InternalError => 3,
    }
}

/// The more severe of two outcomes.
pub open spec fn worse(a: Outcome, b: Outcome) -> Outcome {
    if rank(b) > rank(a) {
        b
    } else {
        a
    }
}

/// The process exit code of an outcome.
pub open spec fn code(o: Outcome) -> u8 {
    match o {
        Outcome::Clean => CLEAN,
        Outcome::ChangesNeeded => CHANGES_NEEDED,
        Outcome::UserError => USER_ERROR,
        Outcome::InternalError => INTERNAL_ERROR,
    }
}

impl Outcome {
    /// This outcome's process exit code — the single mapping from an outcome
    /// to a raw code.
    pub fn exit_code(self) -> (c: u8)
        ensures
            c == code(self),
    {
        match self {
            Outcome::Clean => CLEAN,
            Outcome::ChangesNeeded => CHANGES_NEEDED,
            Outcome::UserError => USER_ERROR,
            Outcome::InternalError => INTERNAL_ERROR,
        }
    }

    /// The severity rank, least severe first.
    pub fn severity(self) -> (r: u8)
        ensures
            r == rank(self),
    {
        match self {
            Outcome::Clean => 0,
            Outcome::ChangesNeeded => 1,
            Outcome::UserError => 2,
            Outcome::InternalError => 3,
        }
    }

    /// The more severe of two outcomes — how a run folds its inputs.
    pub fn worst(self, other: Outcome) -> (r: Outcome)
        ensures
            r == worse(self, other),
    {
        if other.severity() > self.severity() {
            other
        } else {
            self
        }
    }

    /// A format refusal's outcome: a parse-error refusal is the user's file (a
    /// user error); a broken certificate is a formatter bug (an internal
    /// error).
    pub fn of_format_error(error: &FormatError) -> (r: Outcome)
        ensures
            r == match error {
                FormatError::HasParseErrors(_) => Outcome::UserError,
                FormatError::CertificateBroke { .. } => Outcome::InternalError,
            },
    {
        match error {
            FormatError::HasParseErrors(_) => Outcome::UserError,
            FormatError::CertificateBroke { .. } => Outcome::InternalError,
        }
    }

    /// A reorder refusal's outcome, mapped as a format refusal's is.
    pub fn of_reorder_error(error: &ReorderError) -> (r: Outcome)
        ensures
            r == match error {
                ReorderError::HasParseErrors(_) => Outcome::UserError,
                ReorderError::PermutationBroke { .. } => Outcome::InternalError,
            },
    {
        match error {
            ReorderError::HasParseErrors(_) => Outcome::UserError,
            ReorderError::PermutationBroke { .. } => Outcome::InternalError,
        }
    }
}

/// The `--check`/`--diff` outcome: nothing was written, and the status alone
/// reports whether the input was already formatted.
pub fn changes(changed: bool) -> (r: Outcome)
    ensures
        r == if changed {
            Outcome::ChangesNeeded
        } else {
            Outcome::Clean
        },
{
    if changed {
        Outcome::ChangesNeeded
    } else {
        Outcome::Clean
    }
}

/// The four outcomes carry four distinct exit codes, ordered as their
/// severity.
pub proof fn lemma_codes_distinct(a: Outcome, b: Outcome)
    ensures
        a != b ==> code(a) != code(b),
        rank(a) < rank(b) ==> code(a) < code(b),
{
}

/// Folding a run's outcomes by `worse` does not depend on the order of its
/// inputs: `worse` is commutative and associative, `Clean` is its identity,
/// and the result is at least as severe as either side.
pub proof fn lemma_worse_fold(a: Outcome, b: Outcome, c: Outcome)
    ensures
        worse(a, b) == worse(b, a),
        worse(worse(a, b), c) == worse(a, worse(b, c)),
        worse(Outcome::Clean, a) == a,
        rank(worse(a, b)) >= rank(a) && rank(worse(a, b)) >= rank(b),
        worse(a, b) == a || worse(a, b) == b,
{
}

} // verus!
