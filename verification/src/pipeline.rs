//! The formatting pipeline's last step: the certified skeleton, with the
//! embedded pass applied when the caller opts in, becomes the formatted
//! result; a certificate the certifier refused becomes the typed refusal.

use vstd::prelude::*;

use crate::certify::Token;
use crate::embedded::{
    EmbeddedFormatters, EmbeddedPass, Script, answered, bodies_ordered, bound, embedded_notes,
    format_scripts, same_text, settles,
};
use crate::options::{Certificate, CertificateBreak, FormatError, Formatted, ReorderError, Reordered};
use crate::reorder::{reorder_error, reorder_error_of, unmoved};
use crate::syntax::SyntaxError;
use crate::text::chars_of;

verus! {

/// Finish formatting `input_text`: a refused certificate is a formatter
/// defect, surfaced as [`FormatError::CertificateBroke`] naming the target;
/// a granted one yields the skeleton — or, when the embedded pass ran, its
/// text, change flag and notes — and whether the text differs from the
/// input. The embedded pass never touches the certificate.
pub fn finish_format(
    input_text: &str,
    skeleton: String,
    certified: Result<Certificate, CertificateBreak>,
    target: Certificate,
    pass: Option<EmbeddedPass>,
) -> (r: Result<Formatted, FormatError>)
    ensures
        match certified {
            Err(reason) => r == Err::<Formatted, FormatError>(
                FormatError::CertificateBroke { certificate: target, reason },
            ),
            Ok(c) => r matches Ok(f) && {
                &&& f.certificate == c
                &&& f.changed == (f.text@ != input_text@)
                &&& match pass {
                    None => f.text@ == skeleton@ && !f.embedded_changed && f.notes@.len() == 0,
                    Some(p) => f.text == p.text && f.embedded_changed == p.changed && f.notes
                        == p.notes,
                }
            },
        },
{
    let certificate = match certified {
        Ok(c) => c,
        Err(reason) => {
            return Err(FormatError::CertificateBroke { certificate: target, reason });
        },
    };
    let (text, embedded_changed, notes) = match pass {
        Some(p) => (p.text, p.changed, p.notes),
        None => (skeleton, false, Vec::new()),
    };
    let changed = !same_text(text.as_str(), input_text);
    Ok(Formatted { text, certificate, embedded_changed, changed, notes })
}

/// Admit a parse for formatting: a parse with errors is refused with the
/// parser's own diagnostics, unchanged.
pub fn admitted(errors: Vec<SyntaxError>) -> (r: Result<(), FormatError>)
    ensures
        errors@.len() == 0 <==> r is Ok,
        r matches Err(e) ==> e matches FormatError::HasParseErrors(v) && v@ == errors@,
{
    if errors.len() == 0 {
        Ok(())
    } else {
        Err(FormatError::HasParseErrors(errors))
    }
}

/// Admit a parse for reordering: refused as formatting refuses it.
pub fn admitted_for_reorder(errors: Vec<SyntaxError>) -> (r: Result<(), ReorderError>)
    ensures
        errors@.len() == 0 <==> r is Ok,
        r matches Err(e) ==> e matches ReorderError::HasParseErrors(v) && v@ == errors@,
{
    if errors.len() == 0 {
        Ok(())
    } else {
        Err(ReorderError::HasParseErrors(errors))
    }
}

/// Whether the embedded pass runs: only when the caller asked for it and
/// the skeleton was certified.
pub fn runs_embedded(asked: bool, certified: &Result<Certificate, CertificateBreak>) -> (r: bool)
    ensures
        r == (asked && certified is Ok),
{
    asked && certified.is_ok()
}

/// Whether the scripts' bodies lie in a text of `len` characters, in order,
/// without overlapping.
pub fn bodies_in_order(scripts: &Vec<Script>, len: usize) -> (r: bool)
    ensures
        r == bodies_ordered(scripts@, len as int),
{
    let mut last: usize = 0;
    let ghost mut at: int = -1;
    let mut k: usize = 0;
    while k < scripts.len()
        invariant
            k <= scripts@.len(),
            -1 <= at < k,
            at == -1 ==> last == 0,
            at >= 0 ==> scripts@[at].body is Some && scripts@[at].body->0.end == last,
            forall|a: int|
                0 <= a < k && (#[trigger] scripts@[a]).body is Some ==> scripts@[a].body->0.start
                    <= scripts@[a].body->0.end <= len && scripts@[a].body->0.end <= last,
            forall|a: int, b: int|
                0 <= a < b < k && (#[trigger] scripts@[a]).body is Some && (
                #[trigger] scripts@[b]).body is Some ==> scripts@[a].body->0.end
                    <= scripts@[b].body->0.start,
        decreases scripts.len() - k,
    {
        match &scripts[k].body {
            Some(b) => {
                if !(b.start <= b.end && b.end <= len && last <= b.start) {
                    proof {
                        if at >= 0 && last > b.start {
                            assert(scripts@[at].body->0.end > scripts@[k as int].body->0.start);
                        }
                    }
                    return false;
                }
                last = b.end;
                proof {
                    at = k as int;
                }
            },
            None => {},
        }
        k = k + 1;
    }
    true
}

/// The embedded pass over the certified skeleton, when it runs: it runs
/// only when `runs` and the scripts' bodies lie in the skeleton in order;
/// then it is [`format_scripts`]'s pass.
pub fn embedded_pass<F: Fn(&str) -> Vec<Token>>(
    runs: bool,
    scripts: &Vec<Script>,
    skeleton_text: &str,
    skeleton_tokens: &Vec<Token>,
    embedded: &EmbeddedFormatters,
    line_width: usize,
    reparse: F,
) -> (r: Option<EmbeddedPass>)
    requires
        forall|s: &str| call_requires(reparse, (s,)),
    ensures
        r is Some <==> runs && bodies_ordered(scripts@, skeleton_text@.len() as int),
        r matches Some(p) ==> {
            &&& p.text@ == skeleton_text@ || bound(reparse, skeleton_tokens@, p.text@)
            &&& !p.changed ==> p.text@ == skeleton_text@
            &&& embedded_notes(p.notes@)
            &&& exists|outcomes: Seq<Option<Result<String, crate::embedded::EmbeddedError>>>|
                #[trigger] answered(*embedded, scripts@, line_width, outcomes) && settles(
                    reparse,
                    scripts@,
                    skeleton_text@,
                    skeleton_tokens@,
                    outcomes,
                    p.text@,
                    p.changed,
                    p.notes@,
                )
        },
{
    if !runs {
        return None;
    }
    let len = chars_of(skeleton_text).len();
    if !bodies_in_order(scripts, len) {
        return None;
    }
    Some(format_scripts(scripts, skeleton_text, skeleton_tokens, embedded, line_width, reparse))
}

/// The reorder's result where nothing moved: the plain format, reported as
/// not reordered; a format refusal becomes the reorder's refusal.
pub fn unmoved_result(formatted: Result<Formatted, FormatError>) -> (r: Result<Reordered, ReorderError>)
    ensures
        match formatted {
            Ok(f) => r matches Ok(o) && {
                &&& o.text == f.text
                &&& o.certificate == f.certificate
                &&& !o.reordered
                &&& o.changed == f.changed
                &&& o.notes == f.notes
            },
            Err(e) => r == Err::<Reordered, ReorderError>(reorder_error_of(e)),
        },
{
    match formatted {
        Ok(f) => Ok(unmoved(f)),
        Err(e) => Err(reorder_error(e)),
    }
}

} // verus!
