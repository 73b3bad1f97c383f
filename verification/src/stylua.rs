//! The Lua embedded backend: [`StyLuaLibBackend`] formats a `#script(lua)`
//! body with StyLua under its full output verification — StyLua reparses its
//! own output and compares the trees, the delegated meaning-preservation
//! guarantee. A body StyLua cannot parse is [`EmbeddedError::Failed`]; an
//! output whose reparse fails or whose tree differs is
//! [`EmbeddedError::Unverified`]. The call into StyLua is the caller's: it is
//! handed in as `stylua`, StyLua's `format_code` at the given column width,
//! made where a panic inside it can be contained.

use vstd::prelude::*;

use crate::embedded::{Availability, EmbeddedContext, EmbeddedError, EmbeddedFormatter, LanguageKey};

verus! {

/// The `#script` language this backend claims.
pub const LANGUAGE: &'static str = "lua";

/// How StyLua failed on a body.
#[derive(Debug)]
pub enum LuaFailure {
    /// The body does not parse as Lua; StyLua's message.
    Parse { message: String },
    /// The formatted output's reparse failed, or its tree differs from the
    /// input's.
    Unverified,
}

/// Map StyLua's failure to the seam's taxonomy: a parse error is
/// [`EmbeddedError::Failed`] with StyLua's message; a verification failure
/// is [`EmbeddedError::Unverified`].
pub fn map_error(failure: LuaFailure) -> (e: EmbeddedError)
    ensures
        match failure {
            LuaFailure::Parse { message } => e == EmbeddedError::Failed { message },
            LuaFailure::Unverified => e == EmbeddedError::Unverified,
        },
{
    match failure {
        LuaFailure::Parse { message } => EmbeddedError::Failed { message },
        LuaFailure::Unverified => EmbeddedError::Unverified,
    }
}

/// StyLua's outcome in the seam's taxonomy.
pub open spec fn lua_outcome(o: Result<String, LuaFailure>) -> Result<String, EmbeddedError> {
    match o {
        Ok(text) => Ok(text),
        Err(LuaFailure::Parse { message }) => Err(EmbeddedError::Failed { message }),
        Err(LuaFailure::Unverified) => Err(EmbeddedError::Unverified),
    }
}

/// A run of `stylua` on `code` at `width` may give what `r` maps from.
pub open spec fn stylua_gives<F: Fn(&str, usize) -> Result<String, LuaFailure>>(
    stylua: F,
    code: Seq<char>,
    width: usize,
    r: Result<String, EmbeddedError>,
) -> bool {
    exists|s: &str, o: Result<String, LuaFailure>|
        s@ == code && #[trigger] call_ensures(stylua, (s, width), o) && r == lua_outcome(o)
}

/// Format `body` with `stylua` at the configured line width, its failure
/// mapped to the seam's taxonomy.
pub fn format_lua<F: Fn(&str, usize) -> Result<String, LuaFailure>>(
    body: &str,
    cx: EmbeddedContext,
    stylua: &F,
) -> (r: Result<String, EmbeddedError>)
    requires
        forall|s: &str, w: usize| call_requires(*stylua, (s, w)),
    ensures
        stylua_gives(*stylua, body@, cx.line_width, r),
{
    let o = stylua(body, cx.line_width);
    proof {
        assert(call_ensures(*stylua, (body, cx.line_width), o));
    }
    match o {
        Ok(text) => Ok(text),
        Err(failure) => Err(map_error(failure)),
    }
}

/// The Lua embedded formatter, delegating to `stylua`, claiming the `lua`
/// script language.
pub struct StyLuaLibBackend<F: Fn(&str, usize) -> Result<String, LuaFailure>> {
    language: LanguageKey,
    stylua: F,
}

impl<F: Fn(&str, usize) -> Result<String, LuaFailure>> StyLuaLibBackend<F> {
    /// `stylua` may be run on any body at any width.
    #[verifier::type_invariant]
    spec fn runnable(self) -> bool {
        forall|s: &str, w: usize| call_requires(self.stylua, (s, w))
    }

    /// The language this backend claims.
    pub closed spec fn claimed(self) -> Seq<char> {
        self.language@
    }

    /// The StyLua call this backend delegates to.
    pub closed spec fn call(self) -> F {
        self.stylua
    }

    /// The Lua backend over `stylua`, claiming the `lua` script language.
    pub fn new(stylua: F) -> (b: StyLuaLibBackend<F>)
        requires
            forall|s: &str, w: usize| call_requires(stylua, (s, w)),
        ensures
            b.claimed() == LANGUAGE@,
            b.call() == stylua,
    {
        StyLuaLibBackend { language: LanguageKey::new(LANGUAGE), stylua }
    }
}

impl<F: Fn(&str, usize) -> Result<String, LuaFailure>> EmbeddedFormatter for StyLuaLibBackend<F> {
    open spec fn answers(&self, body: Seq<char>, cx: EmbeddedContext, r: Result<String, EmbeddedError>) -> bool {
        stylua_gives(self.call(), body, cx.line_width, r)
    }

    fn language(&self) -> (k: &LanguageKey)
        ensures
            k@ == self.claimed(),
    {
        &self.language
    }

    /// Compiled in and pure in-process: StyLua is always ready.
    fn availability(&self) -> (a: Availability)
        ensures
            a == Availability::Available,
    {
        Availability::Available
    }

    fn format(&self, body: &str, cx: &EmbeddedContext) -> (r: Result<String, EmbeddedError>) {
        proof {
            use_type_invariant(self);
        }
        format_lua(body, *cx, &self.stylua)
    }
}

} // verus!
