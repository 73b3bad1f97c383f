//! The embedded-script seam: the [`EmbeddedFormatter`] trait a backend
//! implements, the registry that resolves a `#script`'s declared language to a
//! backend, the typed outcomes a backend can produce, and the splicing of
//! formatted bodies back into the certified skeleton.

use vstd::prelude::*;

use crate::syntax::{Diagnostic, Severity, Span};
use crate::certify::{Token, divergence_from, equal_except_script_bodies};
use crate::text::{chars_of, push_chars, push_str, slice_chars, string_of};

verus! {

/// One embedded language's formatter: total, bounded, producing formatted
/// text or a typed reason it could not.
pub trait EmbeddedFormatter {
    /// The language this backend claims, matched against a `#script`
    /// statement's declared name.
    fn language(&self) -> &LanguageKey;

    /// Whether the backend can format right now.
    fn availability(&self) -> Availability;

    /// Whether `r` is an answer this backend may give when asked to format
    /// `body` under `cx`. A backend that says nothing of its answers admits
    /// any.
    closed spec fn answers(&self, body: Seq<char>, cx: EmbeddedContext, r: Result<String, EmbeddedError>) -> bool {
        true
    }

    /// Format `body` under `cx`, or give the typed reason it could not.
    fn format(&self, body: &str, cx: &EmbeddedContext) -> (r: Result<String, EmbeddedError>)
        ensures
            self.answers(body@, *cx, r),
    ;
}

/// What a backend needs beyond the source text: the configured line width,
/// shared across the whole file.
#[derive(Clone, Copy, PartialEq, Eq, Debug, Structural)]
pub struct EmbeddedContext {
    /// The configured line width.
    pub line_width: usize,
}

/// A typed reason a backend could not format a body. Every variant collapses
/// to one handling: the body stays verbatim and a note is recorded.
#[derive(Clone, PartialEq, Eq, Debug)]
pub enum EmbeddedError {
    /// No backend claims this language.
    Unsupported,
    /// A backend claims the language but is disabled or absent right now.
    Unavailable {
        /// Why the backend is unavailable.
        reason: String,
    },
    /// The backend rejected the body — its own syntax error.
    Failed {
        /// The backend's own message.
        message: String,
    },
    /// The backend's own round-trip / meaning-preservation check failed.
    Unverified,
    /// A panic inside the backend, caught at the boundary.
    Panicked,
}

/// Whether a backend can format right now.
#[derive(Clone, PartialEq, Eq, Debug)]
pub enum Availability {
    /// The backend is ready to format.
    Available,
    /// The backend cannot format right now.
    Unavailable {
        /// Why the backend is unavailable.
        reason: String,
    },
}

/// A `#script` language name (e.g. `python`, `lua`) — the registry's key and a
/// backend's own claimed identity.
#[derive(Clone, PartialEq, Eq, Hash, Debug)]
pub struct LanguageKey(pub String);

impl View for LanguageKey {
    type V = Seq<char>;

    open spec fn view(&self) -> Seq<char> {
        self.0@
    }
}

impl LanguageKey {
    /// The key for `name`, exactly as a `#script` statement declares it.
    pub fn new(name: &str) -> (k: LanguageKey)
        ensures
            k@ == name@,
    {
        LanguageKey(name.to_owned())
    }

    /// The language name.
    pub fn as_str(&self) -> (s: &str)
        ensures
            s@ == self@,
    {
        self.0.as_str()
    }
}

/// Whether two character runs are equal.
pub fn same_text(a: &str, b: &str) -> (r: bool)
    ensures
        r == (a@ == b@),
{
    let x = crate::text::chars_of(a);
    let y = crate::text::chars_of(b);
    if x.len() != y.len() {
        return false;
    }
    let mut i: usize = 0;
    while i < x.len()
        invariant
            i <= x@.len(),
            x@ == a@,
            y@ == b@,
            x@.len() == y@.len(),
            forall|k: int| 0 <= k < i ==> x@[k] == y@[k],
        decreases x.len() - i,
    {
        if x[i] != y[i] {
            assert(x@[i as int] != y@[i as int]);
            return false;
        }
        i = i + 1;
    }
    assert(x@ =~= y@);
    true
}

/// The backends a caller assembled from configuration, keyed by language.
/// Empty by default, so with nothing registered every `#script` body stays
/// verbatim; the library hardcodes no backend.
pub struct EmbeddedFormatters {
    languages: Vec<LanguageKey>,
    backends: Vec<Box<dyn EmbeddedFormatter>>,
}

/// `Vec::push` on the backend list: `f` is appended, the backends before
/// it untouched. Verus does not carry a `Box<dyn _>` argument's identity
/// into what the callee stores, so the new element is not stated.
#[verifier::external_body]
fn push_backend(v: &mut Vec<Box<dyn EmbeddedFormatter>>, f: Box<dyn EmbeddedFormatter>)
    ensures
        final(v)@.len() == old(v)@.len() + 1,
        forall|j: int| 0 <= j < old(v)@.len() ==> #[trigger] final(v)@[j] == old(v)@[j],
{
    v.push(f);
}

/// `IndexMut` on the backend list: the backend at `i` is replaced by `f`,
/// the others untouched. As for `push_backend`, the new element is not
/// stated.
#[verifier::external_body]
fn replace_backend(v: &mut Vec<Box<dyn EmbeddedFormatter>>, i: usize, f: Box<dyn EmbeddedFormatter>)
    requires
        i < old(v)@.len(),
    ensures
        final(v)@.len() == old(v)@.len(),
        forall|j: int| 0 <= j < old(v)@.len() && j != i ==> #[trigger] final(v)@[j] == old(v)@[j],
{
    v[i] = f;
}

/// The slot at which `l` stands among `keys`.
spec fn slot_of(keys: Seq<LanguageKey>, l: Seq<char>) -> int {
    choose|i: int| 0 <= i < keys.len() && keys[i]@ == l
}

/// No language stands twice among `keys`.
spec fn keys_unique(keys: Seq<LanguageKey>) -> bool {
    forall|i: int, j: int| 0 <= i < j < keys.len() ==> keys[i]@ != keys[j]@
}

proof fn lemma_slot_of(keys: Seq<LanguageKey>, i: int)
    requires
        keys_unique(keys),
        0 <= i < keys.len(),
    ensures
        slot_of(keys, keys[i]@) == i,
{
    let j = slot_of(keys, keys[i]@);
    assert(0 <= j < keys.len() && keys[j]@ == keys[i]@);
    if j < i {
        assert(keys[j]@ != keys[i]@);
    } else if i < j {
        assert(keys[i]@ != keys[j]@);
    }
}

impl EmbeddedFormatters {
    /// Each language is registered at most once, beside its backend.
    #[verifier::type_invariant]
    closed spec fn registered_once(self) -> bool {
        &&& self.languages@.len() == self.backends@.len()
        &&& forall|i: int, j: int|
            0 <= i < j < self.languages@.len() ==> self.languages@[i]@ != self.languages@[j]@
    }

    /// The registered languages, in registration order.
    pub closed spec fn languages(self) -> Seq<Seq<char>> {
        self.languages@.map_values(|k: LanguageKey| k@)
    }

    /// Whether a backend is registered for `language`.
    pub open spec fn claims(self, language: Seq<char>) -> bool {
        self.languages().contains(language)
    }

    /// Whether `r` is an answer the backend registered for `language` may
    /// give when asked to format `body` under `cx`.
    pub closed spec fn answers(
        self,
        language: Seq<char>,
        body: Seq<char>,
        cx: EmbeddedContext,
        r: Result<String, EmbeddedError>,
    ) -> bool {
        self.backends@[slot_of(self.languages@, language)].answers(body, cx, r)
    }

    /// The empty registry.
    pub fn new() -> (r: EmbeddedFormatters)
        ensures
            r.languages() == Seq::<Seq<char>>::empty(),
    {
        let r = EmbeddedFormatters { languages: Vec::new(), backends: Vec::new() };
        assert(r.languages() =~= Seq::<Seq<char>>::empty());
        r
    }

    /// The position at which `language` is registered.
    fn position(&self, language: &str) -> (r: Option<usize>)
        ensures
            r matches Some(i) ==> i < self.languages@.len() && self.languages@[i as int]@
                == language@,
            r is None ==> !self.claims(language@),
    {
        let mut i: usize = 0;
        while i < self.languages.len()
            invariant
                i <= self.languages@.len(),
                forall|k: int| 0 <= k < i ==> self.languages@[k]@ != language@,
            decreases self.languages.len() - i,
        {
            if same_text(self.languages[i].as_str(), language) {
                return Some(i);
            }
            i = i + 1;
        }
        proof {
            if self.languages().contains(language@) {
                let k = choose|k: int|
                    0 <= k < self.languages().len() && self.languages()[k] == language@;
                assert(self.languages@[k]@ == language@);
            }
        }
        None
    }

    /// Register `formatter` under `language`, replacing any backend already
    /// registered for it.
    pub fn insert(&mut self, language: LanguageKey, formatter: Box<dyn EmbeddedFormatter>)
        ensures
            final(self).claims(language@),
            forall|l: Seq<char>, body: Seq<char>, cx: EmbeddedContext, r: Result<String, EmbeddedError>|
                l != language@ && old(self).claims(l) ==> (#[trigger] final(self).answers(l, body, cx, r)
                    == old(self).answers(l, body, cx, r)),
            old(self).claims(language@) ==> final(self).languages() == old(self).languages(),
            !old(self).claims(language@) ==> final(self).languages()
                == old(self).languages().push(language@),
    {
        proof {
            use_type_invariant(&*self);
        }
        let found = self.position(language.as_str());
        let mut taken = EmbeddedFormatters::new();
        std::mem::swap(&mut taken, self);
        proof {
            use_type_invariant(&taken);
        }
        let EmbeddedFormatters { mut languages, mut backends } = taken;
        let ghost before = languages@;
        let ghost backs = backends@;
        let ghost key = language@;
        let ghost f = formatter;
        proof {
            assert(before == old(self).languages@);
            assert(backs == old(self).backends@);
            assert(before.len() == backs.len());
            assert(keys_unique(before));
        }
        match found {
            Some(i) => {
                replace_backend(&mut backends, i, formatter);
                proof {
                    assert(before[i as int]@ == key);
                    assert(old(self).languages() =~= before.map_values(|k: LanguageKey| k@));
                }
            },
            None => {
                languages.push(language);
                push_backend(&mut backends, formatter);
                proof {
                    assert forall|a: int, b: int| 0 <= a < b < languages@.len() implies languages@[a]@
                        != languages@[b]@ by {
                        if b < before.len() {
                            assert(before[a]@ != before[b]@);
                        } else {
                            assert(old(self).languages()[a] == before[a]@);
                        }
                    }
                    assert(languages@.map_values(|k: LanguageKey| k@) =~= before.map_values(
                        |k: LanguageKey| k@,
                    ).push(key));
                }
            },
        }
        proof {
            assert(languages@.len() == backends@.len());
            assert(keys_unique(languages@));
        }
        *self = EmbeddedFormatters { languages, backends };
        proof {
            let k: int = match found {
                Some(i) => i as int,
                None => before.len() as int,
            };
            assert(self.languages()[k] == key);
            assert(keys_unique(self.languages@));
            assert forall|l: Seq<char>, body: Seq<char>, cx: EmbeddedContext, r: Result<String, EmbeddedError>|
                l != key && old(self).claims(l) implies #[trigger] self.answers(l, body, cx, r)
                    == old(self).answers(l, body, cx, r) by {
                let j0 = choose|j: int| 0 <= j < old(self).languages().len() && old(self).languages()[j] == l;
                assert(self.languages()[j0] == l);
                if self.claims(l) {
                    let j = choose|j: int| 0 <= j < self.languages().len() && self.languages()[j] == l;
                    assert(self.languages@[j]@ == l);
                    lemma_slot_of(self.languages@, j);
                    assert(j != k);
                    assert(old(self).languages()[j] == l);
                    lemma_slot_of(before, j);
                    assert(self.backends@[j] == backs[j]);
                } else if old(self).claims(l) {
                    let j = choose|j: int| 0 <= j < old(self).languages().len() && old(self).languages()[j] == l;
                    assert(self.languages()[j] == l);
                }
            }
        }
    }

    /// Format `body`, declared as `language`, under `cx`: the claiming
    /// backend's result, or [`EmbeddedError::Unsupported`] when no backend
    /// claims `language`.
    pub fn format(&self, language: &str, body: &str, cx: &EmbeddedContext) -> (r: Result<
        String,
        EmbeddedError,
    >)
        ensures
            !self.claims(language@) ==> r == Err::<String, EmbeddedError>(
                EmbeddedError::Unsupported,
            ),
            self.claims(language@) ==> self.answers(language@, body@, *cx, r),
    {
        proof {
            use_type_invariant(self);
        }
        match self.position(language) {
            Some(i) => {
                proof {
                    assert(self.languages()[i as int] == language@);
                    lemma_slot_of(self.languages@, i as int);
                    assert(slot_of(self.languages@, language@) == i as int);
                }
                self.backends[i].format(body, cx)
            },
            None => Err(EmbeddedError::Unsupported),
        }
    }
}

impl EmbeddedFormatters {
    /// The registry holding each pair's backend under its language, a
    /// later pair replacing an earlier one for the same language.
    pub fn from_pairs(pairs: Vec<(LanguageKey, Box<dyn EmbeddedFormatter>)>) -> (r: EmbeddedFormatters)
        ensures
            forall|i: int| 0 <= i < pairs@.len() ==> r.claims((#[trigger] pairs@[i]).0@),
            forall|l: Seq<char>| r.claims(l) ==> exists|i: int| 0 <= i < pairs@.len() && (#[trigger] pairs@[i]).0@ == l,
    {
        let ghost all = pairs@;
        let total = pairs.len();
        let mut rest = pairs;
        let mut r = EmbeddedFormatters::new();
        let mut k: usize = 0;
        while rest.len() > 0
            invariant
                k + rest@.len() == all.len(),
                all.len() == total,
                rest@ == all.skip(k as int),
                forall|i: int| 0 <= i < k ==> r.claims((#[trigger] all[i]).0@),
                forall|l: Seq<char>| r.claims(l) ==> exists|i: int| 0 <= i < k && (#[trigger] all[i]).0@ == l,
            decreases rest.len(),
        {
            let ghost before = r.languages();
            assert forall|l: Seq<char>| before.contains(l) implies exists|i: int| 0 <= i < k && (#[trigger] all[i]).0@ == l by {
                assert(r.claims(l));
            }
            let (language, formatter) = rest.remove(0);
            proof {
                assert(all[k as int].0 == language);
            }
            let ghost key = language@;
            r.insert(language, formatter);
            proof {
                assert forall|i: int| 0 <= i < k + 1 implies r.claims((#[trigger] all[i]).0@) by {
                    if i < k {
                        assert(before.contains(all[i].0@));
                        if !before.contains(key) {
                            assert(r.languages() == before.push(key));
                            let j = choose|j: int| 0 <= j < before.len() && before[j] == all[i].0@;
                            assert(r.languages()[j] == all[i].0@);
                        }
                    }
                }
                assert forall|l: Seq<char>| r.claims(l) implies exists|i: int| 0 <= i < k + 1 && (#[trigger] all[i]).0@ == l by {
                    if l == key {
                        assert(all[k as int].0@ == l);
                    } else {
                        let j = choose|j: int| 0 <= j < r.languages().len() && r.languages()[j] == l;
                        if before.contains(key) {
                            assert(before.contains(l));
                        } else {
                            assert(r.languages() == before.push(key));
                            assert(j < before.len());
                            assert(before[j] == l);
                            assert(before.contains(l));
                        }
                    }
                }
            }
            k = k + 1;
        }
        r
    }
}

impl Default for EmbeddedFormatters {
    /// The empty registry.
    fn default() -> (r: EmbeddedFormatters)
        ensures
            r.languages() == Seq::<Seq<char>>::empty(),
    {
        EmbeddedFormatters::new()
    }
}

/// The warning notes' identifiers.
pub const NAMESPACE: &'static str = "morphe";

/// A body the backend declined or could not format, kept verbatim.
pub const NOT_FORMATTED: &'static str = "embedded-not-formatted";

/// A reformat whose output would disturb the program structure, kept
/// verbatim.
pub const DISTURBS_STRUCTURE: &'static str = "embedded-structure";

/// The end every embedded note's message shares.
pub const KEPT_VERBATIM: &'static str = "; the script body was kept verbatim";

/// A `#script` statement as the embedded pass reads it: where it stands in
/// the caller's own source, and, in the skeleton, its declared language and
/// its body — the body's character range in the skeleton text and its text.
pub struct Script {
    pub location: Span,
    pub language: Option<String>,
    pub body: Option<ScriptBody>,
}

/// A script body: its character range in the skeleton text, and the text.
pub struct ScriptBody {
    pub start: usize,
    pub end: usize,
    pub text: String,
}

/// The outcome of the embedded pass: the text with every clean reformat
/// spliced in, whether any body was replaced, and the notes for the bodies
/// kept verbatim.
pub struct EmbeddedPass {
    pub text: String,
    pub changed: bool,
    pub notes: Vec<Diagnostic>,
}

/// `base` with `start .. end` replaced by `replacement`.
pub open spec fn splice(base: Seq<char>, start: int, end: int, replacement: Seq<char>) -> Seq<
    char,
> {
    base.take(start) + replacement + base.skip(end)
}

/// `base` with `start .. end` replaced by `replacement`.
pub fn spliced(base: &Vec<char>, start: usize, end: usize, replacement: &Vec<char>) -> (r: Vec<
    char,
>)
    requires
        start <= end <= base@.len(),
    ensures
        r@ == splice(base@, start as int, end as int, replacement@),
{
    let mut r = slice_chars(base.as_slice(), 0, start);
    push_all(&mut r, replacement);
    let tail = slice_chars(base.as_slice(), end, base.len());
    push_all(&mut r, &tail);
    proof {
        assert(base@.subrange(0, start as int) =~= base@.take(start as int));
        assert(base@.subrange(end as int, base@.len() as int) =~= base@.skip(end as int));
    }
    r
}

/// Append `more` to `buf`.
fn push_all(buf: &mut Vec<char>, more: &Vec<char>)
    ensures
        final(buf)@ == old(buf)@ + more@,
{
    let ghost start = buf@;
    let mut j: usize = 0;
    while j < more.len()
        invariant
            j <= more@.len(),
            buf@ == start + more@.take(j as int),
        decreases more.len() - j,
    {
        proof {
            assert(more@.take(j + 1) =~= more@.take(j as int).push(more@[j as int]));
        }
        buf.push(more[j]);
        j = j + 1;
    }
    proof {
        assert(more@.take(more@.len() as int) =~= more@);
    }
}

pub const NO_BACKEND_HEAD: &'static str = "no embedded formatter is registered for the `";
pub const NO_BACKEND_TAIL: &'static str = "` script language";
pub const THE: &'static str = "the `";
pub const UNAVAILABLE: &'static str = "` embedded formatter is unavailable (";
pub const REJECTED: &'static str = "` embedded formatter rejected the script body (";
pub const CLOSE: &'static str = ")";
pub const UNVERIFIED: &'static str = "` embedded formatter could not verify its own output";
pub const PANICKED: &'static str = "` embedded formatter panicked";
pub const ALTERS: &'static str = "` embedded formatter's output would alter the ASP program structure";

/// The reason a backend's refusal gives, naming the language.
pub open spec fn refusal_reason(language: Seq<char>, error: EmbeddedError) -> Seq<char> {
    match error {
        EmbeddedError::Unsupported => NO_BACKEND_HEAD@ + language + NO_BACKEND_TAIL@,
        EmbeddedError::Unavailable { reason } => THE@ + language + UNAVAILABLE@ + reason@ + CLOSE@,
        EmbeddedError::Failed { message } => THE@ + language + REJECTED@ + message@ + CLOSE@,
        EmbeddedError::Unverified => THE@ + language + UNVERIFIED@,
        EmbeddedError::Panicked => THE@ + language + PANICKED@,
    }
}

/// The reason a reformat that would disturb the program structure gives.
pub open spec fn structure_reason(language: Seq<char>) -> Seq<char> {
    THE@ + language + ALTERS@
}

/// `d` is an embedded warning named `name` with `reason`, at `location`.
pub open spec fn is_embedded_note(d: Diagnostic, name: Seq<char>, reason: Seq<char>, location: Span) -> bool {
    &&& d.namespace@ == NAMESPACE@
    &&& d.name@ == name
    &&& d.severity == Severity::Warning
    &&& d.message@ == reason + KEPT_VERBATIM@
    &&& d.location == location
}

/// A warning note that a script body was kept verbatim for `reason`,
/// located at the script in the caller's own source.
fn note(name: &str, reason: String, location: Span) -> (d: Diagnostic)
    ensures
        is_embedded_note(d, name@, reason@, location),
{
    let mut message = reason;
    push_str(&mut message, KEPT_VERBATIM);
    Diagnostic {
        namespace: NAMESPACE.to_owned(),
        name: name.to_owned(),
        severity: Severity::Warning,
        message,
        location,
    }
}

/// The warning note for a body the backend refused: the specific reason.
pub fn refusal_note(location: Span, language: &str, error: &EmbeddedError) -> (d: Diagnostic)
    ensures
        is_embedded_note(d, NOT_FORMATTED@, refusal_reason(language@, *error), location),
{
    let mut reason = String::new();
    match error {
        EmbeddedError::Unsupported => {
            push_str(&mut reason, NO_BACKEND_HEAD);
            push_str(&mut reason, language);
            push_str(&mut reason, NO_BACKEND_TAIL);
        },
        EmbeddedError::Unavailable { reason: why } => {
            push_str(&mut reason, THE);
            push_str(&mut reason, language);
            push_str(&mut reason, UNAVAILABLE);
            push_str(&mut reason, why.as_str());
            push_str(&mut reason, CLOSE);
        },
        EmbeddedError::Failed { message } => {
            push_str(&mut reason, THE);
            push_str(&mut reason, language);
            push_str(&mut reason, REJECTED);
            push_str(&mut reason, message.as_str());
            push_str(&mut reason, CLOSE);
        },
        EmbeddedError::Unverified => {
            push_str(&mut reason, THE);
            push_str(&mut reason, language);
            push_str(&mut reason, UNVERIFIED);
        },
        EmbeddedError::Panicked => {
            push_str(&mut reason, THE);
            push_str(&mut reason, language);
            push_str(&mut reason, PANICKED);
        },
    }
    note(NOT_FORMATTED, reason, location)
}

/// The warning note for a reformat that would disturb the program
/// structure.
pub fn structure_note(location: Span, language: &str) -> (d: Diagnostic)
    ensures
        is_embedded_note(d, DISTURBS_STRUCTURE@, structure_reason(language@), location),
{
    let mut reason = String::new();
    push_str(&mut reason, THE);
    push_str(&mut reason, language);
    push_str(&mut reason, ALTERS);
    note(DISTURBS_STRUCTURE, reason, location)
}

/// A clean reformat awaiting the structural bind: where it splices into the
/// skeleton text, the formatted body, and the note to record should the
/// splice prove to disturb the program structure.
pub struct Candidate {
    pub start: usize,
    pub end: usize,
    pub formatted: String,
    pub rejection: Diagnostic,
}

/// The candidates' ranges lie in a text of length `len`, in order, and do
/// not overlap.
pub open spec fn ordered(cands: Seq<Candidate>, len: int) -> bool {
    &&& forall|k: int| 0 <= k < cands.len() ==> (#[trigger] cands[k]).start <= cands[k].end <= len
    &&& forall|i: int, j: int| 0 <= i < j < cands.len() ==> (#[trigger] cands[i]).end <= (#[trigger] cands[j]).start
}

/// The splice a candidate makes: its range and its formatted body.
pub open spec fn cand_edit(c: Candidate) -> (int, int, Seq<char>) {
    (c.start as int, c.end as int, c.formatted@)
}

/// The splices the candidates make, in order.
pub open spec fn cand_edits(cands: Seq<Candidate>) -> Seq<(int, int, Seq<char>)> {
    cands.map_values(|c: Candidate| cand_edit(c))
}

/// `base` with every edit's text spliced over its range, the last first, so
/// that each range still points where it did.
pub open spec fn applied(base: Seq<char>, edits: Seq<(int, int, Seq<char>)>) -> Seq<char>
    decreases edits.len(),
{
    if edits.len() == 0 {
        base
    } else {
        let last = edits.last();
        applied(splice(base, last.0, last.1, last.2), edits.drop_last())
    }
}

/// `base` with every candidate spliced in.
pub fn apply(base: &Vec<char>, cands: &Vec<Candidate>) -> (r: Vec<char>)
    requires
        ordered(cands@, base@.len() as int),
    ensures
        r@ == applied(base@, cand_edits(cands@)),
{
    let mut text = slice_chars(base.as_slice(), 0, base.len());
    proof {
        assert(text@ =~= base@);
        assert(cands@.take(cands@.len() as int) =~= cands@);
    }
    let mut k = cands.len();
    while k > 0
        invariant
            k <= cands@.len(),
            ordered(cands@, base@.len() as int),
            applied(base@, cand_edits(cands@)) == applied(text@, cand_edits(cands@.take(k as int))),
            forall|j: int| 0 <= j < k ==> (#[trigger] cands@[j]).end <= text@.len(),
        decreases k,
    {
        let c = &cands[k - 1];
        let body = chars_of(c.formatted.as_str());
        let ghost before = text@;
        text = spliced(&text, c.start, c.end, &body);
        proof {
            assert(cand_edits(cands@.take(k as int)).drop_last() =~= cand_edits(cands@.take(k - 1)));
            assert(cand_edits(cands@.take(k as int)).last() == cand_edit(cands@[k - 1]));
            assert forall|j: int| 0 <= j < k - 1 implies (#[trigger] cands@[j]).end <= text@.len() by {
                assert(cands@[j].end <= cands@[k - 1].start);
            }
        }
        k = k - 1;
    }
    proof {
        assert(cand_edits(cands@.take(0)) =~= Seq::<(int, int, Seq<char>)>::empty());
    }
    text
}

/// The scripts' bodies lie in a text of length `len`, in order, and do not
/// overlap.
pub open spec fn bodies_ordered(scripts: Seq<Script>, len: int) -> bool {
    &&& forall|k: int|
        0 <= k < scripts.len() && (#[trigger] scripts[k]).body is Some ==> scripts[k].body->0.start
            <= scripts[k].body->0.end <= len
    &&& forall|i: int, j: int|
        0 <= i < j < scripts.len() && (#[trigger] scripts[i]).body is Some && (
        #[trigger] scripts[j]).body is Some ==> scripts[i].body->0.end <= scripts[j].body->0.start
}

/// `text` re-parses, under `reparse`, to tokens that agree with the
/// skeleton's everywhere but inside script bodies.
pub open spec fn bound<F: Fn(&str) -> Vec<Token>>(reparse: F, skeleton: Seq<Token>, text: Seq<char>) -> bool {
    exists|s: &str, tokens: Vec<Token>|
        s@ == text && #[trigger] call_ensures(reparse, (s,), tokens) && divergence_from(
            skeleton,
            tokens@,
            0,
        ) is None
}

/// The reparse, run on `text`, gave tokens that agree with the skeleton's
/// everywhere but inside script bodies exactly when `b`.
pub open spec fn bind_answer<F: Fn(&str) -> Vec<Token>>(
    reparse: F,
    skeleton: Seq<Token>,
    text: Seq<char>,
    b: bool,
) -> bool {
    exists|s: &str, tokens: Vec<Token>|
        s@ == text && #[trigger] call_ensures(reparse, (s,), tokens) && b == (divergence_from(
            skeleton,
            tokens@,
            0,
        ) is None)
}

/// `d` is a warning that a body was kept verbatim.
pub open spec fn embedded_note(d: Diagnostic) -> bool {
    &&& d.namespace@ == NAMESPACE@
    &&& d.severity == Severity::Warning
    &&& (d.name@ == NOT_FORMATTED@ || d.name@ == DISTURBS_STRUCTURE@)
}

/// Every note is a warning that a body was kept verbatim.
pub open spec fn embedded_notes(notes: Seq<Diagnostic>) -> bool {
    forall|k: int| 0 <= k < notes.len() ==> embedded_note(#[trigger] notes[k])
}

/// Whether `text` passes the bind against the skeleton's tokens.
fn binds<F: Fn(&str) -> Vec<Token>>(reparse: &F, skeleton: &Vec<Token>, text: &str) -> (r: bool)
    requires
        forall|s: &str| call_requires(*reparse, (s,)),
    ensures
        bind_answer(*reparse, skeleton@, text@, r),
        r ==> bound(*reparse, skeleton@, text@),
{
    let tokens = reparse(text);
    let r = equal_except_script_bodies(skeleton, &tokens).is_ok();
    proof {
        assert(call_ensures(*reparse, (text,), tokens));
    }
    r
}

/// The clean reformats among the first `k` scripts, in script order: the
/// script's index and the formatted body, wherever the backend returned a
/// body that differs from the verbatim one.
pub open spec fn planned(
    scripts: Seq<Script>,
    outcomes: Seq<Option<Result<String, EmbeddedError>>>,
    k: int,
) -> Seq<(int, Seq<char>)>
    decreases k,
{
    if k <= 0 {
        Seq::empty()
    } else {
        let p = planned(scripts, outcomes, k - 1);
        match outcomes[k - 1] {
            Some(Ok(f)) => if scripts[k - 1].body is Some && f@ != scripts[k - 1].body->0.text@ {
                p.push((k - 1, f@))
            } else {
                p
            },
            _ => p,
        }
    }
}

/// The scripts among the first `k` whose backend refused, in order.
pub open spec fn refused(outcomes: Seq<Option<Result<String, EmbeddedError>>>, k: int) -> Seq<int>
    decreases k,
{
    if k <= 0 {
        Seq::empty()
    } else {
        let p = refused(outcomes, k - 1);
        match outcomes[k - 1] {
            Some(Err(_)) => p.push(k - 1),
            _ => p,
        }
    }
}

/// The splice a planned reformat makes: its script's body range and the
/// formatted body.
pub open spec fn plan_edit(scripts: Seq<Script>, e: (int, Seq<char>)) -> (int, int, Seq<char>) {
    (scripts[e.0].body->0.start as int, scripts[e.0].body->0.end as int, e.1)
}

/// The splices a run of planned reformats makes, in order.
pub open spec fn plan_edits(scripts: Seq<Script>, plan: Seq<(int, Seq<char>)>) -> Seq<
    (int, int, Seq<char>),
> {
    plan.map_values(|e: (int, Seq<char>)| plan_edit(scripts, e))
}

/// The script indices of a run of planned reformats.
pub open spec fn indices(plan: Seq<(int, Seq<char>)>) -> Seq<int> {
    plan.map_values(|e: (int, Seq<char>)| e.0)
}

/// The first `k` entries of `plan` whose answer in `alone` is `keep`, in
/// order.
pub open spec fn sifted(plan: Seq<(int, Seq<char>)>, alone: Seq<bool>, keep: bool, k: int) -> Seq<
    (int, Seq<char>),
>
    decreases k,
{
    if k <= 0 {
        Seq::empty()
    } else {
        sifted(plan, alone, keep, k - 1) + if alone[k - 1] == keep {
            seq![plan[k - 1]]
        } else {
            Seq::empty()
        }
    }
}

/// `d` is the note for the refusal of script `j`'s backend.
pub open spec fn refusal_for(
    scripts: Seq<Script>,
    outcomes: Seq<Option<Result<String, EmbeddedError>>>,
    j: int,
    d: Diagnostic,
) -> bool {
    match outcomes[j] {
        Some(Err(e)) => is_embedded_note(
            d,
            NOT_FORMATTED@,
            refusal_reason(scripts[j].language->0@, e),
            scripts[j].location,
        ),
        _ => false,
    }
}

/// `d` is the note for script `j`'s reformat, kept out for disturbing the
/// program structure.
pub open spec fn rejection_for(scripts: Seq<Script>, j: int, d: Diagnostic) -> bool {
    is_embedded_note(
        d,
        DISTURBS_STRUCTURE@,
        structure_reason(scripts[j].language->0@),
        scripts[j].location,
    )
}

/// `notes` are the refusal notes of the scripts `refusals`, then the
/// structure notes of the scripts `rejected`, in order.
pub open spec fn notes_for(
    scripts: Seq<Script>,
    outcomes: Seq<Option<Result<String, EmbeddedError>>>,
    notes: Seq<Diagnostic>,
    refusals: Seq<int>,
    rejected: Seq<int>,
) -> bool {
    &&& notes.len() == refusals.len() + rejected.len()
    &&& forall|i: int|
        0 <= i < refusals.len() ==> refusal_for(scripts, outcomes, refusals[i], #[trigger] notes[i])
    &&& forall|i: int|
        0 <= i < rejected.len() ==> rejection_for(
            scripts,
            rejected[i],
            #[trigger] notes[refusals.len() + i],
        )
}

/// The pass's result given the bind's answers: `whole` for the text with
/// every clean reformat spliced in, `alone[k]` for the skeleton with only
/// the `k`-th spliced in, `rest` for the text with the reformats that bound
/// alone spliced in. Each answer asked for is the reparse's verdict on its
/// text, so an answer that accepts is sound: the text it accepts binds. Without reformats the skeleton stands; with all of them binding
/// together, all go in; else those that bound alone go in when together they
/// bind, and the others are noted; else none goes in and all are noted. The
/// refusals are noted first, in script order.
pub open spec fn settled_by<F: Fn(&str) -> Vec<Token>>(
    reparse: F,
    scripts: Seq<Script>,
    skeleton: Seq<char>,
    tokens: Seq<Token>,
    outcomes: Seq<Option<Result<String, EmbeddedError>>>,
    text: Seq<char>,
    changed: bool,
    notes: Seq<Diagnostic>,
    whole: bool,
    alone: Seq<bool>,
    rest: bool,
) -> bool {
    let plan = planned(scripts, outcomes, scripts.len() as int);
    let refusals = refused(outcomes, scripts.len() as int);
    let edits = plan_edits(scripts, plan);
    let kept = sifted(plan, alone, true, plan.len() as int);
    let dropped = sifted(plan, alone, false, plan.len() as int);
    &&& alone.len() == plan.len()
    &&& plan.len() > 0 ==> bind_answer(reparse, tokens, applied(skeleton, edits), whole)
    &&& plan.len() > 0 && !whole ==> forall|k: int|
        0 <= k < plan.len() ==> bind_answer(
            reparse,
            tokens,
            splice(skeleton, edits[k].0, edits[k].1, edits[k].2),
            #[trigger] alone[k],
        )
    &&& plan.len() > 0 && !whole ==> bind_answer(
        reparse,
        tokens,
        applied(skeleton, plan_edits(scripts, kept)),
        rest,
    )
    &&& whole ==> bound(reparse, tokens, applied(skeleton, edits))
    &&& forall|k: int|
        0 <= k < plan.len() && #[trigger] alone[k] ==> bound(
            reparse,
            tokens,
            splice(skeleton, edits[k].0, edits[k].1, edits[k].2),
        )
    &&& rest ==> bound(reparse, tokens, applied(skeleton, plan_edits(scripts, kept)))
    &&& if plan.len() == 0 {
        &&& text == skeleton
        &&& !changed
        &&& notes_for(scripts, outcomes, notes, refusals, Seq::empty())
    } else if whole {
        &&& text == applied(skeleton, edits)
        &&& changed
        &&& notes_for(scripts, outcomes, notes, refusals, Seq::empty())
    } else if rest {
        &&& text == applied(skeleton, plan_edits(scripts, kept))
        &&& changed == (kept.len() > 0)
        &&& notes_for(scripts, outcomes, notes, refusals, indices(dropped))
    } else {
        &&& text == skeleton
        &&& !changed
        &&& notes_for(scripts, outcomes, notes, refusals, indices(dropped) + indices(kept))
    }
}

/// The pass's result is what the backends' `outcomes` give under some sound
/// answers of the bind.
pub open spec fn settles<F: Fn(&str) -> Vec<Token>>(
    reparse: F,
    scripts: Seq<Script>,
    skeleton: Seq<char>,
    tokens: Seq<Token>,
    outcomes: Seq<Option<Result<String, EmbeddedError>>>,
    text: Seq<char>,
    changed: bool,
    notes: Seq<Diagnostic>,
) -> bool {
    exists|whole: bool, alone: Seq<bool>, rest: bool|
        #[trigger] settled_by(
            reparse,
            scripts,
            skeleton,
            tokens,
            outcomes,
            text,
            changed,
            notes,
            whole,
            alone,
            rest,
        )
}

/// The backends' answers fit the scripts: one per script, nothing exactly
/// where a script names no language or has no body, `Unsupported` for a
/// language no backend claims, and otherwise an answer the backend
/// registered for the language may give for the body at `line_width`.
pub open spec fn answered(
    embedded: EmbeddedFormatters,
    scripts: Seq<Script>,
    line_width: usize,
    outcomes: Seq<Option<Result<String, EmbeddedError>>>,
) -> bool {
    &&& outcomes.len() == scripts.len()
    &&& forall|k: int|
        0 <= k < scripts.len() ==> ((#[trigger] outcomes[k]) is None <==> (scripts[k].language is None
            || scripts[k].body is None))
    &&& forall|k: int|
        0 <= k < scripts.len() && (#[trigger] scripts[k]).language is Some && scripts[k].body is Some
            && !embedded.claims(scripts[k].language->0@) ==> outcomes[k] == Some(
            Err::<String, EmbeddedError>(EmbeddedError::Unsupported),
        )
    &&& forall|k: int|
        0 <= k < scripts.len() && (#[trigger] scripts[k]).language is Some && scripts[k].body is Some
            && embedded.claims(scripts[k].language->0@) ==> outcomes[k] is Some && embedded.answers(
            scripts[k].language->0@,
            scripts[k].body->0.text@,
            EmbeddedContext { line_width },
            outcomes[k]->0,
        )
}

/// The candidates stand for the planned reformats, one for one: the same
/// splice, and the structure note of the same script.
pub open spec fn stands_for(scripts: Seq<Script>, cands: Seq<Candidate>, plan: Seq<(int, Seq<char>)>) -> bool {
    &&& cands.len() == plan.len()
    &&& forall|c: int|
        0 <= c < cands.len() ==> cand_edit(#[trigger] cands[c]) == plan_edit(scripts, plan[c])
            && rejection_for(scripts, plan[c].0, cands[c].rejection)
}

proof fn lemma_sifted_extend(plan: Seq<(int, Seq<char>)>, alone: Seq<bool>, b: bool, keep: bool, k: int)
    requires
        0 <= k <= alone.len(),
    ensures
        sifted(plan, alone.push(b), keep, k) == sifted(plan, alone, keep, k),
    decreases k,
{
    if k > 0 {
        lemma_sifted_extend(plan, alone, b, keep, k - 1);
        assert(alone.push(b)[k - 1] == alone[k - 1]);
    }
}

/// Whatever the backends and the bind answered, the pass is safe: its text
/// is the skeleton itself or a text that binds, it is the skeleton when
/// nothing changed, and every note is a warning that a body was kept
/// verbatim.
pub proof fn lemma_settled_pass_sound<F: Fn(&str) -> Vec<Token>>(
    reparse: F,
    scripts: Seq<Script>,
    skeleton: Seq<char>,
    tokens: Seq<Token>,
    outcomes: Seq<Option<Result<String, EmbeddedError>>>,
    text: Seq<char>,
    changed: bool,
    notes: Seq<Diagnostic>,
)
    requires
        settles(reparse, scripts, skeleton, tokens, outcomes, text, changed, notes),
    ensures
        text == skeleton || bound(reparse, tokens, text),
        !changed ==> text == skeleton,
        embedded_notes(notes),
{
    let (whole, alone, rest) = choose|whole: bool, alone: Seq<bool>, rest: bool|
        #[trigger] settled_by(
            reparse,
            scripts,
            skeleton,
            tokens,
            outcomes,
            text,
            changed,
            notes,
            whole,
            alone,
            rest,
        );
    let plan = planned(scripts, outcomes, scripts.len() as int);
    let refusals = refused(outcomes, scripts.len() as int);
    let kept = sifted(plan, alone, true, plan.len() as int);
    let dropped = sifted(plan, alone, false, plan.len() as int);
    let rejected: Seq<int> = if plan.len() == 0 || whole {
        Seq::empty()
    } else if rest {
        indices(dropped)
    } else {
        indices(dropped) + indices(kept)
    };
    assert(notes_for(scripts, outcomes, notes, refusals, rejected));
    if plan.len() > 0 && !whole && rest && kept.len() == 0 {
        assert(plan_edits(scripts, kept) =~= Seq::<(int, int, Seq<char>)>::empty());
    }
    assert forall|k: int| 0 <= k < notes.len() implies embedded_note(#[trigger] notes[k]) by {
        if k < refusals.len() {
            assert(refusal_for(scripts, outcomes, refusals[k], notes[k]));
        } else {
            let q = k - refusals.len();
            assert(rejection_for(scripts, rejected[q], notes[refusals.len() + q]));
        }
    }
}

/// Settle the embedded pass over the backends' `outcomes`: each clean
/// reformat becomes a candidate, each refusal a note; every candidate is
/// spliced in together first; when the whole does not bind, a candidate is
/// at fault when splicing it alone disturbs the skeleton, and the culprits
/// stay verbatim with a note; should the rest still not bind, every body
/// stays verbatim.
pub fn settle_scripts<F: Fn(&str) -> Vec<Token>>(
    scripts: &Vec<Script>,
    skeleton_text: &str,
    skeleton_tokens: &Vec<Token>,
    outcomes: &Vec<Option<Result<String, EmbeddedError>>>,
    reparse: F,
) -> (r: EmbeddedPass)
    requires
        forall|s: &str| call_requires(reparse, (s,)),
        bodies_ordered(scripts@, skeleton_text@.len() as int),
        outcomes@.len() == scripts@.len(),
        forall|k: int|
            0 <= k < scripts@.len() && (#[trigger] outcomes@[k]) is Some ==> scripts@[k].language is Some
                && scripts@[k].body is Some,
    ensures
        settles(
            reparse,
            scripts@,
            skeleton_text@,
            skeleton_tokens@,
            outcomes@,
            r.text@,
            r.changed,
            r.notes@,
        ),
{
    let base = chars_of(skeleton_text);
    let ghost n = scripts@.len() as int;
    let mut candidates: Vec<Candidate> = Vec::new();
    let mut notes: Vec<Diagnostic> = Vec::new();
    let mut i: usize = 0;
    while i < scripts.len()
        invariant
            i <= scripts@.len(),
            n == scripts@.len(),
            outcomes@.len() == n,
            forall|k: int|
                0 <= k < n && (#[trigger] outcomes@[k]) is Some ==> scripts@[k].language is Some
                    && scripts@[k].body is Some,
            base@ == skeleton_text@,
            bodies_ordered(scripts@, base@.len() as int),
            ordered(candidates@, base@.len() as int),
            stands_for(scripts@, candidates@, planned(scripts@, outcomes@, i as int)),
            forall|c: int, j: int|
                0 <= c < candidates@.len() && i <= j < n && (#[trigger] scripts@[j]).body is Some
                    ==> (#[trigger] candidates@[c]).end <= scripts@[j].body->0.start,
            notes_for(scripts@, outcomes@, notes@, refused(outcomes@, i as int), Seq::empty()),
        decreases scripts.len() - i,
    {
        let script = &scripts[i];
        let ghost plan = planned(scripts@, outcomes@, i as int);
        let ghost refusals = refused(outcomes@, i as int);
        match (&outcomes[i], &script.language, &script.body) {
            (Some(Ok(formatted)), Some(language), Some(body)) => {
                if !same_text(formatted.as_str(), body.text.as_str()) {
                    let rejection = structure_note(script.location, language.as_str());
                    let ghost before = candidates@;
                    candidates.push(
                        Candidate {
                            start: body.start,
                            end: body.end,
                            formatted: formatted.clone(),
                            rejection,
                        },
                    );
                    proof {
                        assert forall|a: int, b: int| 0 <= a < b < candidates@.len() implies (#[trigger] candidates@[a]).end <= (#[trigger] candidates@[b]).start by {
                            if b == before.len() {
                                assert(before[a].end <= scripts@[i as int].body->0.start);
                            }
                        }
                        assert forall|c: int, j: int|
                            0 <= c < candidates@.len() && i + 1 <= j < n && (#[trigger] scripts@[j]).body is Some
                            implies (#[trigger] candidates@[c]).end <= scripts@[j].body->0.start by {
                            if c == before.len() {
                                assert(scripts@[i as int].body->0.end <= scripts@[j].body->0.start);
                            }
                        }
                        let next = planned(scripts@, outcomes@, i + 1);
                        assert(next == plan.push((i as int, formatted@)));
                        assert forall|c: int| 0 <= c < candidates@.len() implies cand_edit(#[trigger] candidates@[c])
                            == plan_edit(scripts@, next[c]) && rejection_for(scripts@, next[c].0, candidates@[c].rejection) by {
                            if c < before.len() {
                                assert(candidates@[c] == before[c]);
                                assert(next[c] == plan[c]);
                            }
                        }
                    }
                }
            },
            (Some(Err(error)), Some(language), _) => {
                let ghost before = notes@;
                notes.push(refusal_note(script.location, language.as_str(), error));
                proof {
                    let next = refused(outcomes@, i + 1);
                    assert(next == refusals.push(i as int));
                    assert forall|k: int| 0 <= k < next.len() implies refusal_for(scripts@, outcomes@, next[k], #[trigger] notes@[k]) by {
                        if k < refusals.len() {
                            assert(notes@[k] == before[k]);
                        }
                    }
                }
            },
            _ => {},
        }
        i = i + 1;
    }
    let ghost plan = planned(scripts@, outcomes@, n);
    let ghost refusals = refused(outcomes@, n);
    let ghost edits = plan_edits(scripts@, plan);
    proof {
        assert(cand_edits(candidates@) =~= edits);
    }
    if candidates.len() == 0 {
        let r = EmbeddedPass { text: skeleton_text.to_owned(), changed: false, notes };
        proof {
            assert(notes_for(scripts@, outcomes@, r.notes@, refusals, Seq::empty()));
            assert(settled_by(
                reparse,
                scripts@,
                skeleton_text@,
                skeleton_tokens@,
                outcomes@,
                r.text@,
                r.changed,
                r.notes@,
                false,
                Seq::empty(),
                false,
            ));
        }
        return r;
    }
    let composed = string_of(&apply(&base, &candidates));
    if binds(&reparse, skeleton_tokens, composed.as_str()) {
        let r = EmbeddedPass { text: composed, changed: true, notes };
        proof {
            let alone = Seq::new(plan.len(), |k: int| false);
            assert(settled_by(
                reparse,
                scripts@,
                skeleton_text@,
                skeleton_tokens@,
                outcomes@,
                r.text@,
                r.changed,
                r.notes@,
                true,
                alone,
                false,
            ));
        }
        return r;
    }
    let mut survivors: Vec<Candidate> = Vec::new();
    let ghost all = candidates@;
    let ghost mut alone: Seq<bool> = Seq::empty();
    proof {
        assert(bind_answer(reparse, skeleton_tokens@, applied(skeleton_text@, edits), false));
    }
    while candidates.len() > 0
        invariant
            base@ == skeleton_text@,
            bind_answer(reparse, skeleton_tokens@, applied(skeleton_text@, edits), false),
            forall|k: int|
                0 <= k < alone.len() ==> bind_answer(
                    reparse,
                    skeleton_tokens@,
                    splice(skeleton_text@, edits[k].0, edits[k].1, edits[k].2),
                    #[trigger] alone[k],
                ),
            forall|s: &str| call_requires(reparse, (s,)),
            ordered(survivors@ + candidates@, base@.len() as int),
            stands_for(scripts@, all, plan),
            alone.len() <= all.len(),
            candidates@ == all.skip(alone.len() as int),
            stands_for(scripts@, survivors@, sifted(plan, alone, true, alone.len() as int)),
            notes_for(
                scripts@,
                outcomes@,
                notes@,
                refusals,
                indices(sifted(plan, alone, false, alone.len() as int)),
            ),
            edits == plan_edits(scripts@, plan),
            forall|k: int|
                0 <= k < alone.len() && #[trigger] alone[k] ==> bound(
                    reparse,
                    skeleton_tokens@,
                    splice(skeleton_text@, edits[k].0, edits[k].1, edits[k].2),
                ),
        decreases candidates.len(),
    {
        let ghost joined = survivors@ + candidates@;
        let ghost ns = survivors@.len();
        let ghost k = alone.len() as int;
        let ghost kept = sifted(plan, alone, true, k);
        let ghost dropped = sifted(plan, alone, false, k);
        let c = candidates.remove(0);
        proof {
            assert(c == joined[ns as int]);
            assert(c == all[k]);
            assert(candidates@ =~= all.skip(k + 1));
            assert(cand_edit(c) == plan_edit(scripts@, plan[k]));
        }
        let body = chars_of(c.formatted.as_str());
        let alone_text = string_of(&spliced(&base, c.start, c.end, &body));
        let fits = binds(&reparse, skeleton_tokens, alone_text.as_str());
        proof {
            assert(alone_text@ == splice(skeleton_text@, edits[k].0, edits[k].1, edits[k].2));
            assert forall|q: int| 0 <= q < k + 1 implies bind_answer(
                reparse,
                skeleton_tokens@,
                splice(skeleton_text@, edits[q].0, edits[q].1, edits[q].2),
                #[trigger] alone.push(fits)[q],
            ) by {
                if q < k {
                    assert(alone.push(fits)[q] == alone[q]);
                }
            }
            lemma_sifted_extend(plan, alone, fits, true, k);
            lemma_sifted_extend(plan, alone, fits, false, k);
            assert(edits[k] == plan_edit(scripts@, plan[k]));
        }
        if fits {
            let ghost before = survivors@;
            survivors.push(c);
            proof {
                assert(survivors@ + candidates@ =~= joined);
                let next = sifted(plan, alone.push(true), true, k + 1);
                assert(next == kept.push(plan[k]));
                assert(sifted(plan, alone.push(true), false, k + 1) == dropped);
                assert forall|j: int| 0 <= j < survivors@.len() implies cand_edit(#[trigger] survivors@[j])
                    == plan_edit(scripts@, next[j]) && rejection_for(scripts@, next[j].0, survivors@[j].rejection) by {
                    if j < before.len() {
                        assert(survivors@[j] == before[j]);
                        assert(next[j] == kept[j]);
                    }
                }
            }
        } else {
            proof {
                let next = survivors@ + candidates@;
                assert forall|a: int, b: int| 0 <= a < b < next.len() implies (#[trigger] next[a]).end <= (#[trigger] next[b]).start by {
                    let a2 = if a < ns { a } else { a + 1 };
                    let b2 = if b < ns { b } else { b + 1 };
                    assert(next[a] == joined[a2] && next[b] == joined[b2]);
                }
                assert forall|q: int| 0 <= q < next.len() implies (#[trigger] next[q]).start <= next[q].end <= base@.len() by {
                    let q2 = if q < ns { q } else { q + 1 };
                    assert(next[q] == joined[q2]);
                }
            }
            let ghost before = notes@;
            notes.push(c.rejection);
            proof {
                let nd = sifted(plan, alone.push(false), false, k + 1);
                assert(nd == dropped.push(plan[k]));
                assert(sifted(plan, alone.push(false), true, k + 1) == kept);
                assert(indices(nd) =~= indices(dropped).push(plan[k].0));
                assert forall|q: int| 0 <= q < refusals.len() implies refusal_for(scripts@, outcomes@, refusals[q], #[trigger] notes@[q]) by {
                    assert(notes@[q] == before[q]);
                }
                assert forall|q: int| 0 <= q < indices(nd).len() implies rejection_for(scripts@, indices(nd)[q], #[trigger] notes@[refusals.len() + q]) by {
                    if q < indices(dropped).len() {
                        assert(notes@[refusals.len() + q] == before[refusals.len() + q]);
                    }
                }
            }
        }
        proof {
            alone = alone.push(fits);
        }
    }
    proof {
        assert(survivors@ + candidates@ =~= survivors@);
        assert(alone.len() == plan.len());
    }
    let ghost kept = sifted(plan, alone, true, plan.len() as int);
    let ghost dropped = sifted(plan, alone, false, plan.len() as int);
    let text = string_of(&apply(&base, &survivors));
    proof {
        assert(cand_edits(survivors@) =~= plan_edits(scripts@, kept));
    }
    if binds(&reparse, skeleton_tokens, text.as_str()) {
        let changed = survivors.len() > 0;
        let r = EmbeddedPass { text, changed, notes };
        proof {
            assert(settled_by(
                reparse,
                scripts@,
                skeleton_text@,
                skeleton_tokens@,
                outcomes@,
                r.text@,
                r.changed,
                r.notes@,
                false,
                alone,
                true,
            ));
        }
        return r;
    }
    let ghost all_kept = survivors@;
    let ghost mut j: int = 0;
    proof {
        assert(bind_answer(reparse, skeleton_tokens@, applied(skeleton_text@, plan_edits(scripts@, kept)), false));
    }
    while survivors.len() > 0
        invariant
            0 <= j <= all_kept.len(),
            bind_answer(reparse, skeleton_tokens@, applied(skeleton_text@, edits), false),
            forall|k: int|
                0 <= k < alone.len() ==> bind_answer(
                    reparse,
                    skeleton_tokens@,
                    splice(skeleton_text@, edits[k].0, edits[k].1, edits[k].2),
                    #[trigger] alone[k],
                ),
            bind_answer(reparse, skeleton_tokens@, applied(skeleton_text@, plan_edits(scripts@, kept)), false),
            survivors@ == all_kept.skip(j),
            stands_for(scripts@, all_kept, kept),
            notes_for(scripts@, outcomes@, notes@, refusals, indices(dropped) + indices(kept).take(j)),
        decreases survivors.len(),
    {
        let ghost before = notes@;
        let ghost left = survivors@;
        let s = survivors.remove(0);
        proof {
            assert(s == left[0]);
            assert(s == all_kept[j]);
            assert(survivors@ =~= all_kept.skip(j + 1));
        }
        notes.push(s.rejection);
        proof {
            let rj = indices(dropped) + indices(kept).take(j + 1);
            assert(rj =~= (indices(dropped) + indices(kept).take(j)).push(kept[j].0));
            assert forall|q: int| 0 <= q < refusals.len() implies refusal_for(scripts@, outcomes@, refusals[q], #[trigger] notes@[q]) by {
                assert(notes@[q] == before[q]);
            }
            assert forall|q: int| 0 <= q < rj.len() implies rejection_for(scripts@, rj[q], #[trigger] notes@[refusals.len() + q]) by {
                if q < rj.len() - 1 {
                    assert(notes@[refusals.len() + q] == before[refusals.len() + q]);
                }
            }
            j = j + 1;
        }
    }
    proof {
        assert(j == all_kept.len());
    }
    let r = EmbeddedPass { text: skeleton_text.to_owned(), changed: false, notes };
    proof {
        assert(indices(kept).take(all_kept.len() as int) =~= indices(kept));
        assert(settled_by(
            reparse,
            scripts@,
            skeleton_text@,
            skeleton_tokens@,
            outcomes@,
            r.text@,
            r.changed,
            r.notes@,
            false,
            alone,
            false,
        ));
    }
    r
}

/// Format the `#script` bodies of the certified skeleton: ask the backend
/// claiming each body's language for its reformat, then settle the pass
/// over the answers — splice each clean reformat in, keep every failure
/// verbatim with a note, and bind the composed text against the skeleton.
/// Nothing here refuses the format.
pub fn format_scripts<F: Fn(&str) -> Vec<Token>>(
    scripts: &Vec<Script>,
    skeleton_text: &str,
    skeleton_tokens: &Vec<Token>,
    embedded: &EmbeddedFormatters,
    line_width: usize,
    reparse: F,
) -> (r: EmbeddedPass)
    requires
        forall|s: &str| call_requires(reparse, (s,)),
        bodies_ordered(scripts@, skeleton_text@.len() as int),
    ensures
        r.text@ == skeleton_text@ || bound(reparse, skeleton_tokens@, r.text@),
        bound(reparse, skeleton_tokens@, skeleton_text@) ==> bound(reparse, skeleton_tokens@, r.text@),
        !r.changed ==> r.text@ == skeleton_text@,
        embedded_notes(r.notes@),
        exists|outcomes: Seq<Option<Result<String, EmbeddedError>>>|
            #[trigger] answered(*embedded, scripts@, line_width, outcomes) && settles(
                reparse,
                scripts@,
                skeleton_text@,
                skeleton_tokens@,
                outcomes,
                r.text@,
                r.changed,
                r.notes@,
            ),
{
    let context = EmbeddedContext { line_width };
    let mut outcomes: Vec<Option<Result<String, EmbeddedError>>> = Vec::new();
    let mut i: usize = 0;
    while i < scripts.len()
        invariant
            i <= scripts@.len(),
            outcomes@.len() == i,
            forall|k: int|
                0 <= k < i ==> ((#[trigger] outcomes@[k]) is None <==> (scripts@[k].language is None
                    || scripts@[k].body is None)),
            forall|k: int|
                0 <= k < i && (#[trigger] scripts@[k]).language is Some && scripts@[k].body is Some
                    && !embedded.claims(scripts@[k].language->0@) ==> outcomes@[k] == Some(
                    Err::<String, EmbeddedError>(EmbeddedError::Unsupported),
                ),
            forall|k: int|
                0 <= k < i && (#[trigger] scripts@[k]).language is Some && scripts@[k].body is Some
                    && embedded.claims(scripts@[k].language->0@) ==> outcomes@[k] is Some
                    && embedded.answers(
                    scripts@[k].language->0@,
                    scripts@[k].body->0.text@,
                    context,
                    outcomes@[k]->0,
                ),
            context == (EmbeddedContext { line_width }),
        decreases scripts.len() - i,
    {
        let outcome = match (&scripts[i].language, &scripts[i].body) {
            (Some(language), Some(body)) => Some(
                embedded.format(language.as_str(), body.text.as_str(), &context),
            ),
            _ => None,
        };
        outcomes.push(outcome);
        i = i + 1;
    }
    let r = settle_scripts(scripts, skeleton_text, skeleton_tokens, &outcomes, reparse);
    proof {
        assert(answered(*embedded, scripts@, line_width, outcomes@));
        lemma_settled_pass_sound(
            reparse,
            scripts@,
            skeleton_text@,
            skeleton_tokens@,
            outcomes@,
            r.text@,
            r.changed,
            r.notes@,
        );
    }
    r
}

} // verus!
