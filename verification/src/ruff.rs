//! The Python embedded backend's verified part. Ruff has no output
//! verification of its own, so the formatter supplies one: Ruff's output must
//! re-format to itself — re-parsing it in the process — or the result is
//! [`EmbeddedError::Unverified`]. Ruff's own errors are
//! [`EmbeddedError::Failed`]. The call into Ruff is the caller's: it is handed
//! in as `ruff`, Ruff's `format_module_source` at the configured width.

use vstd::prelude::*;

use crate::embedded::{Availability, EmbeddedError, LanguageKey, same_text};

verus! {

/// The `#script` language this backend claims.
pub const LANGUAGE: &'static str = "python";

/// The Python embedded formatter, claiming the `python` script language.
pub struct RuffLibBackend {
    language: LanguageKey,
}

impl RuffLibBackend {
    /// The language this backend claims.
    pub closed spec fn claimed(self) -> Seq<char> {
        self.language@
    }

    /// The Python backend, claiming the `python` script language.
    pub fn new() -> (b: RuffLibBackend)
        ensures
            b.claimed() == LANGUAGE@,
    {
        RuffLibBackend { language: LanguageKey::new(LANGUAGE) }
    }

    /// The language this backend claims.
    pub fn language(&self) -> (k: &LanguageKey)
        ensures
            k@ == self.claimed(),
    {
        &self.language
    }

    /// Compiled in and pure in-process: the backend is always ready.
    pub fn availability(&self) -> (a: Availability)
        ensures
            a == Availability::Available,
    {
        Availability::Available
    }
}

impl Default for RuffLibBackend {
    /// The Python backend.
    fn default() -> (b: RuffLibBackend)
        ensures
            b.claimed() == LANGUAGE@,
    {
        RuffLibBackend::new()
    }
}

/// A run of `ruff` on `code` may give `out`: the formatted text, or the
/// message of the error it raised.
pub open spec fn ruff_gives<F: Fn(&str) -> Result<String, String>>(
    ruff: F,
    code: Seq<char>,
    out: Result<Seq<char>, Seq<char>>,
) -> bool {
    exists|s: &str, o: Result<String, String>|
        s@ == code && #[trigger] call_ensures(ruff, (s,), o) && match (o, out) {
            (Ok(a), Ok(b)) => a@ == b,
            (Err(a), Err(b)) => a@ == b,
            _ => false,
        }
}

/// Run `ruff` once, recording what it gave.
fn run<F: Fn(&str) -> Result<String, String>>(ruff: &F, code: &str) -> (r: Result<String, String>)
    requires
        forall|s: &str| call_requires(*ruff, (s,)),
    ensures
        match r {
            Ok(t) => ruff_gives(*ruff, code@, Ok(t@)),
            Err(m) => ruff_gives(*ruff, code@, Err(m@)),
        },
{
    let r = ruff(code);
    proof {
        assert(call_ensures(*ruff, (code,), r));
    }
    r
}

/// Format `body` with Ruff and hold the result to the formatter's own
/// reparse and idempotence check: Ruff's error is [`EmbeddedError::Failed`]
/// with its message; an output that does not re-format to itself is
/// [`EmbeddedError::Unverified`].
pub fn format_python<F: Fn(&str) -> Result<String, String>>(body: &str, ruff: &F) -> (r: Result<
    String,
    EmbeddedError,
>)
    requires
        forall|s: &str| call_requires(*ruff, (s,)),
    ensures
        match r {
            Ok(t) => ruff_gives(*ruff, body@, Ok(t@)) && ruff_gives(*ruff, t@, Ok(t@)),
            Err(EmbeddedError::Failed { message }) => ruff_gives(*ruff, body@, Err(message@)),
            Err(EmbeddedError::Unverified) => exists|f: Seq<char>, again: Result<Seq<char>, Seq<char>>|
                #![trigger ruff_gives(*ruff, f, again)]
                ruff_gives(*ruff, body@, Ok(f)) && ruff_gives(*ruff, f, again) && again != Ok::<
                    Seq<char>,
                    Seq<char>,
                >(f),
            _ => false,
        },
{
    let formatted = match run(ruff, body) {
        Ok(text) => text,
        Err(message) => {
            return Err(EmbeddedError::Failed { message });
        },
    };
    match run(ruff, formatted.as_str()) {
        Ok(again) => {
            if same_text(again.as_str(), formatted.as_str()) {
                Ok(formatted)
            } else {
                proof {
                    assert(ruff_gives(*ruff, formatted@, Ok(again@)));
                }
                Err(EmbeddedError::Unverified)
            }
        },
        Err(message) => {
            proof {
                assert(ruff_gives(*ruff, formatted@, Err(message@)));
            }
            Err(EmbeddedError::Unverified)
        },
    }
}

} // verus!
