//! The certifier: the formatter re-parses its own candidate output and
//! checks that it stands in the target relation to the input — layout only,
//! or up to spelling. The certifier decides nothing about layout; it only checks,
//! and a refusal is always a formatter defect, never the input's fault. The
//! same module holds the check that binds the embedded pass to the
//! certificate, and the structural permutation certificate of the reorder.

use vstd::prelude::*;

use crate::embedded::same_text;
use crate::options::{BijectionBreach, Certificate, CertificateBreak};
use crate::syntax::{Mismatch, Side, Span, SyntaxError, SyntaxKind, is_comment, is_comment_kind};
use crate::text::{chars_of, trim_end, trim_end_of};

verus! {

/// The certificate the lowering's canonicalization dictates: `LayoutOnly`
/// when spellings are preserved, `UpToSpelling` when they are normalized.
pub open spec fn target_spec(preserve_spellings: bool) -> Certificate {
    if preserve_spellings {
        Certificate::LayoutOnly
    } else {
        Certificate::UpToSpelling
    }
}

/// The certificate to prove.
pub fn target(preserve_spellings: bool) -> (c: Certificate)
    ensures
        c == target_spec(preserve_spellings),
{
    if preserve_spellings {
        Certificate::LayoutOnly
    } else {
        Certificate::UpToSpelling
    }
}

/// One non-whitespace token of a parsed text, in source order: its kind, its
/// text, and where it stands.
#[derive(Debug)]
pub struct Token {
    pub kind: SyntaxKind,
    pub text: String,
    pub location: Span,
}

/// Two tokens agree when their kinds are equal and, outside a script body,
/// their texts are too: a script body's content is the one thing the
/// embedded pass may change.
pub open spec fn tokens_agree(a: Token, b: Token) -> bool {
    a.kind == b.kind && (a.kind == SyntaxKind::ScriptBody || a.text@ == b.text@)
}

/// The first index at or after `i` where the two token runs part: a
/// disagreeing pair, or one run ended before the other.
pub open spec fn divergence_from(l: Seq<Token>, r: Seq<Token>, i: int) -> Option<int>
    decreases l.len() + r.len() - i,
{
    if i < 0 || (i >= l.len() && i >= r.len()) {
        None
    } else if i < l.len() && i < r.len() && tokens_agree(l[i], r[i]) {
        divergence_from(l, r, i + 1)
    } else {
        Some(i)
    }
}

/// `side` is the witness of token `i` of `s`, or `None` where `s` ran out.
pub open spec fn witnesses(side: Option<Side>, s: Seq<Token>, i: int) -> bool {
    if 0 <= i < s.len() {
        &&& side is Some
        &&& side->0.kind == s[i].kind
        &&& side->0.content@ == s[i].text@
        &&& side->0.location == s[i].location
    } else {
        side is None
    }
}

/// The witness of one token.
fn side_of(token: &Token) -> (s: Side)
    ensures
        s.kind == token.kind,
        s.content@ == token.text@,
        s.location == token.location,
{
    Side { kind: token.kind, content: token.text.clone(), location: token.location }
}

/// Whether two tokens agree.
fn agree(a: &Token, b: &Token) -> (r: bool)
    ensures
        r == tokens_agree(*a, *b),
{
    a.kind == b.kind && (a.kind == SyntaxKind::ScriptBody || same_text(
        a.text.as_str(),
        b.text.as_str(),
    ))
}

/// Bind the embedded pass to the certificate: the final text's
/// non-whitespace tokens must be the skeleton's exactly — same kinds, same
/// order, same texts — save that a script body's content may differ. A
/// divergence anywhere else means a backend's output disturbed the program
/// around it; the witness locates the first one.
pub fn equal_except_script_bodies(skeleton: &Vec<Token>, candidate: &Vec<Token>) -> (r: Result<
    (),
    Mismatch,
>)
    ensures
        r is Ok <==> divergence_from(skeleton@, candidate@, 0) is None,
        r matches Err(m) ==> {
            &&& divergence_from(skeleton@, candidate@, 0) == Some(m.index as int)
            &&& witnesses(m.left, skeleton@, m.index as int)
            &&& witnesses(m.right, candidate@, m.index as int)
        },
{
    let mut i: usize = 0;
    while i < skeleton.len() || i < candidate.len()
        invariant
            i <= skeleton@.len() || i <= candidate@.len(),
            divergence_from(skeleton@, candidate@, 0) == divergence_from(
                skeleton@,
                candidate@,
                i as int,
            ),
        decreases skeleton@.len() + candidate@.len() - i,
    {
        if i < skeleton.len() && i < candidate.len() && agree(&skeleton[i], &candidate[i]) {
            i = i + 1;
        } else {
            let left = if i < skeleton.len() {
                Some(side_of(&skeleton[i]))
            } else {
                None
            };
            let right = if i < candidate.len() {
                Some(side_of(&candidate[i]))
            } else {
                None
            };
            return Err(Mismatch { index: i, left, right });
        }
    }
    Ok(())
}

/// The certifier's answer on a re-parsed candidate: a candidate with parse
/// errors is no member, and the parser's own diagnostics say why; a member
/// whose tokens stand in the target relation to the input earns the target;
/// else the first divergence is the witness.
pub fn certify(
    candidate_errors: Vec<SyntaxError>,
    relation: Result<(), Mismatch>,
    target: Certificate,
) -> (r: Result<Certificate, CertificateBreak>)
    ensures
        candidate_errors@.len() > 0 ==> r == Err::<Certificate, CertificateBreak>(
            CertificateBreak::NotAMember(candidate_errors),
        ),
        candidate_errors@.len() == 0 ==> match relation {
            Ok(()) => r == Ok::<Certificate, CertificateBreak>(target),
            Err(m) => r == Err::<Certificate, CertificateBreak>(CertificateBreak::TokenMismatch(m)),
        },
{
    if candidate_errors.len() > 0 {
        return Err(CertificateBreak::NotAMember(candidate_errors));
    }
    match relation {
        Ok(()) => Ok(target),
        Err(m) => Err(CertificateBreak::TokenMismatch(m)),
    }
}

/// A token's content for comparison: its text, with a comment's trailing
/// white space trimmed — the one thing about a comment that is layout.
pub open spec fn content(kind: SyntaxKind, text: Seq<char>) -> Seq<char> {
    if is_comment_kind(kind) {
        trim_end(text)
    } else {
        text
    }
}

/// A token's content.
pub fn content_of(kind: SyntaxKind, text: &str) -> (r: Vec<char>)
    ensures
        r@ == content(kind, text@),
{
    let cs = chars_of(text);
    if is_comment(kind) {
        trim_end_of(&cs)
    } else {
        cs
    }
}

/// One token of a unit's identity: its kind, its text, and its canonical
/// spelling — the spelling the parser tier respells its content to.
#[derive(Debug)]
pub struct SignatureToken {
    pub kind: SyntaxKind,
    pub text: String,
    pub canonical: String,
}

/// A token read under `relation`: verbatim content under `LayoutOnly`, the
/// canonical spelling under `UpToSpelling`.
pub open spec fn spelled(t: SignatureToken, relation: Certificate) -> (SyntaxKind, Seq<char>) {
    (
        t.kind,
        match relation {
            Certificate::LayoutOnly => content(t.kind, t.text@),
            Certificate::UpToSpelling => t.canonical@,
        },
    )
}

/// A unit's or barrier's identity: its non-whitespace token-and-comment
/// subsequence, each token read under `relation`.
pub open spec fn signature(ts: Seq<SignatureToken>, relation: Certificate) -> Seq<
    (SyntaxKind, Seq<char>),
> {
    ts.map_values(|t: SignatureToken| spelled(t, relation))
}

/// A top-level element as the permutation certificate reads it: whether it
/// is a barrier, and its identity tokens.
#[derive(Debug)]
pub struct SignedItem {
    pub barrier: bool,
    pub tokens: Vec<SignatureToken>,
}

/// Whether two character runs are equal.
fn same_chars(a: &Vec<char>, b: &Vec<char>) -> (r: bool)
    ensures
        r == (a@ == b@),
{
    if a.len() != b.len() {
        return false;
    }
    let mut i: usize = 0;
    while i < a.len()
        invariant
            i <= a@.len(),
            a@.len() == b@.len(),
            forall|k: int| 0 <= k < i ==> a@[k] == b@[k],
        decreases a.len() - i,
    {
        if a[i] != b[i] {
            return false;
        }
        i = i + 1;
    }
    assert(a@ =~= b@);
    true
}

/// A token's spelling under `relation`.
fn spelling(t: &SignatureToken, relation: Certificate) -> (r: Vec<char>)
    ensures
        r@ == spelled(*t, relation).1,
{
    match relation {
        Certificate::LayoutOnly => content_of(t.kind, t.text.as_str()),
        Certificate::UpToSpelling => chars_of(t.canonical.as_str()),
    }
}

/// Whether two identities are equal under `relation`.
fn same_signature(a: &Vec<SignatureToken>, b: &Vec<SignatureToken>, relation: Certificate) -> (r:
    bool)
    ensures
        r == (signature(a@, relation) == signature(b@, relation)),
{
    if a.len() != b.len() {
        proof {
            assert(signature(a@, relation).len() != signature(b@, relation).len());
        }
        return false;
    }
    let mut i: usize = 0;
    while i < a.len()
        invariant
            i <= a@.len(),
            a@.len() == b@.len(),
            forall|k: int| 0 <= k < i ==> spelled(a@[k], relation) == spelled(b@[k], relation),
        decreases a.len() - i,
    {
        let x = spelling(&a[i], relation);
        let y = spelling(&b[i], relation);
        if a[i].kind != b[i].kind || !same_chars(&x, &y) {
            proof {
                assert(signature(a@, relation)[i as int] != signature(b@, relation)[i as int]);
            }
            return false;
        }
        i = i + 1;
    }
    assert(signature(a@, relation) =~= signature(b@, relation));
    true
}

/// The units of each region of the first `n` items (by index), the last
/// region still open.
pub open spec fn region_lists(items: Seq<SignedItem>, n: int) -> Seq<Seq<usize>>
    decreases n,
{
    if n <= 0 {
        seq![Seq::<usize>::empty()]
    } else {
        let p = region_lists(items, n - 1);
        if items[n - 1].barrier {
            p.push(Seq::<usize>::empty())
        } else {
            p.update(p.len() - 1, p.last().push((n - 1) as usize))
        }
    }
}

/// The indices of the barriers among the first `n` items.
pub open spec fn barrier_list(items: Seq<SignedItem>, n: int) -> Seq<usize>
    decreases n,
{
    if n <= 0 {
        Seq::empty()
    } else if items[n - 1].barrier {
        barrier_list(items, n - 1).push((n - 1) as usize)
    } else {
        barrier_list(items, n - 1)
    }
}

proof fn lemma_region_lists(items: Seq<SignedItem>, n: int)
    requires
        0 <= n <= items.len(),
    ensures
        region_lists(items, n).len() == barrier_list(items, n).len() + 1,
        forall|k: int, j: int|
            0 <= k < region_lists(items, n).len() && 0 <= j < region_lists(items, n)[k].len()
                ==> #[trigger] region_lists(items, n)[k][j] < n,
        forall|k: int| 0 <= k < barrier_list(items, n).len() ==> #[trigger] barrier_list(items, n)[k] < n,
    decreases n,
{
    if n > 0 {
        lemma_region_lists(items, n - 1);
        let p = region_lists(items, n - 1);
        let q = region_lists(items, n);
        if !items[n - 1].barrier {
            assert forall|k: int, j: int| 0 <= k < q.len() && 0 <= j < q[k].len() implies #[trigger] q[k][j] < n by {
                if k < p.len() - 1 {
                    assert(q[k] == p[k]);
                } else if j < p.last().len() {
                    assert(q[k][j] == p.last()[j]);
                }
            }
        } else {
            assert forall|k: int, j: int| 0 <= k < q.len() && 0 <= j < q[k].len() implies #[trigger] q[k][j] < n by {
                assert(q[k] == p[k]);
            }
        }
    }
}

/// The top level split into the regions its barriers divide: the units of
/// each region, and the barriers between them — one more region than
/// barriers, any of them possibly empty.
pub struct Regions {
    pub units: Vec<Vec<usize>>,
    pub barriers: Vec<usize>,
}

/// The views of a region list.
pub open spec fn region_views(units: Seq<Vec<usize>>) -> Seq<Seq<usize>> {
    units.map_values(|v: Vec<usize>| v@)
}

/// Split `items` into regions.
pub fn regions(items: &Vec<SignedItem>) -> (r: Regions)
    ensures
        region_views(r.units@) == region_lists(items@, items@.len() as int),
        r.barriers@ == barrier_list(items@, items@.len() as int),
{
    let mut units: Vec<Vec<usize>> = Vec::new();
    let mut barriers: Vec<usize> = Vec::new();
    let mut current: Vec<usize> = Vec::new();
    let mut i: usize = 0;
    while i < items.len()
        invariant
            i <= items@.len(),
            region_views(units@).push(current@) == region_lists(items@, i as int),
            barriers@ == barrier_list(items@, i as int),
        decreases items.len() - i,
    {
        let ghost p = region_lists(items@, i as int);
        if items[i].barrier {
            let done = current;
            current = Vec::new();
            units.push(done);
            barriers.push(i);
            proof {
                assert(region_views(units@).push(current@) =~= p.push(Seq::<usize>::empty()));
            }
        } else {
            current.push(i);
            proof {
                assert(region_views(units@).push(current@) =~= p.update(
                    p.len() - 1,
                    p.last().push(i),
                ));
            }
        }
        i = i + 1;
    }
    units.push(current);
    Regions { units, barriers }
}

/// The identities of the items at `idx`.
pub open spec fn sigs(items: Seq<SignedItem>, idx: Seq<usize>, relation: Certificate) -> Seq<
    Seq<(SyntaxKind, Seq<char>)>,
> {
    idx.map_values(|i: usize| signature(items[i as int].tokens@, relation))
}

/// How often `x` occurs in `s`.
pub open spec fn occ(s: Seq<Seq<(SyntaxKind, Seq<char>)>>, x: Seq<(SyntaxKind, Seq<char>)>) -> nat
    decreases s.len(),
{
    if s.len() == 0 {
        0
    } else {
        occ(s.drop_last(), x) + if s.last() == x {
            1nat
        } else {
            0nat
        }
    }
}

/// All of `idx` indexes `items`.
pub open spec fn indexes(items: Seq<SignedItem>, idx: Seq<usize>) -> bool {
    forall|k: int| 0 <= k < idx.len() ==> #[trigger] idx[k] < items.len()
}

/// How often the identity of `x` occurs among the items at `idx`.
fn occurrences(
    items: &Vec<SignedItem>,
    idx: &Vec<usize>,
    x: &Vec<SignatureToken>,
    relation: Certificate,
) -> (c: usize)
    requires
        indexes(items@, idx@),
    ensures
        c == occ(sigs(items@, idx@, relation), signature(x@, relation)),
{
    let ghost s = sigs(items@, idx@, relation);
    let ghost t = signature(x@, relation);
    let mut c: usize = 0;
    let mut j: usize = 0;
    while j < idx.len()
        invariant
            j <= idx@.len(),
            indexes(items@, idx@),
            s == sigs(items@, idx@, relation),
            t == signature(x@, relation),
            c == occ(s.take(j as int), t),
            c <= j,
        decreases idx.len() - j,
    {
        proof {
            assert(s.take(j + 1).drop_last() =~= s.take(j as int));
        }
        let k = idx[j];
        if same_signature(&items[k].tokens, x, relation) {
            c = c + 1;
        }
        j = j + 1;
    }
    proof {
        assert(s.take(idx@.len() as int) =~= s);
    }
    c
}

/// An identity: a signature.
pub type Sig = Seq<(SyntaxKind, Seq<char>)>;

/// Every identity occurs as often on one side as on the other: the two
/// runs are equal as multisets.
pub open spec fn balanced(a: Seq<Sig>, b: Seq<Sig>) -> bool {
    &&& forall|i: int| 0 <= i < a.len() ==> occ(a, #[trigger] a[i]) == occ(b, a[i])
    &&& forall|j: int| 0 <= j < b.len() ==> occ(b, #[trigger] b[j]) == occ(a, b[j])
}

/// The first index at or after `i` whose identity occurs more often in `a`
/// than in `b`.
pub open spec fn first_excess(a: Seq<Sig>, b: Seq<Sig>, i: int) -> Option<int>
    decreases a.len() - i,
{
    if i < 0 || i >= a.len() {
        None
    } else if occ(a, a[i]) > occ(b, a[i]) {
        Some(i)
    } else {
        first_excess(a, b, i + 1)
    }
}

/// The first way one region's units differ from the other's: an input unit
/// with no output match is dropped, an output unit with no input match is
/// added; `None` when they are equal as multisets.
pub open spec fn region_breach_spec(a: Seq<Sig>, b: Seq<Sig>) -> Option<BijectionBreach> {
    if balanced(a, b) {
        None
    } else {
        match first_excess(a, b, 0) {
            Some(i) => Some(BijectionBreach::UnitDropped { at: i as usize }),
            None => Some(
                BijectionBreach::UnitAdded {
                    at: match first_excess(b, a, 0) {
                        Some(j) => j as usize,
                        None => 0,
                    },
                },
            ),
        }
    }
}

/// The first way the units at `a_idx` of `a_items` differ from the units at
/// `b_idx` of `b_items`, as multisets of identities.
fn region_breach(
    a_items: &Vec<SignedItem>,
    a_idx: &Vec<usize>,
    b_items: &Vec<SignedItem>,
    b_idx: &Vec<usize>,
    relation: Certificate,
) -> (r: Option<BijectionBreach>)
    requires
        indexes(a_items@, a_idx@),
        indexes(b_items@, b_idx@),
    ensures
        r == region_breach_spec(sigs(a_items@, a_idx@, relation), sigs(b_items@, b_idx@, relation)),
{
    let ghost a = sigs(a_items@, a_idx@, relation);
    let ghost b = sigs(b_items@, b_idx@, relation);
    let mut even = true;
    let mut i: usize = 0;
    while i < a_idx.len()
        invariant
            i <= a_idx@.len(),
            indexes(a_items@, a_idx@),
            indexes(b_items@, b_idx@),
            a == sigs(a_items@, a_idx@, relation),
            b == sigs(b_items@, b_idx@, relation),
            even == (forall|k: int| 0 <= k < i ==> occ(a, #[trigger] a[k]) == occ(b, a[k])),
        decreases a_idx.len() - i,
    {
        let x = &a_items[a_idx[i]].tokens;
        let ca = occurrences(a_items, a_idx, x, relation);
        let cb = occurrences(b_items, b_idx, x, relation);
        proof {
            assert(a[i as int] == signature(x@, relation));
        }
        if ca != cb {
            even = false;
        }
        proof {
            assert(even == (forall|k: int| 0 <= k < i + 1 ==> occ(a, #[trigger] a[k]) == occ(b, a[k]))) by {
                if even {
                    assert forall|k: int| 0 <= k < i + 1 implies occ(a, #[trigger] a[k]) == occ(b, a[k]) by {
                        if k < i {
                        }
                    }
                }
            }
        }
        i = i + 1;
    }
    let mut j: usize = 0;
    while j < b_idx.len()
        invariant
            j <= b_idx@.len(),
            indexes(a_items@, a_idx@),
            indexes(b_items@, b_idx@),
            a == sigs(a_items@, a_idx@, relation),
            b == sigs(b_items@, b_idx@, relation),
            even == ((forall|k: int| 0 <= k < a.len() ==> occ(a, #[trigger] a[k]) == occ(b, a[k]))
                && (forall|k: int| 0 <= k < j ==> occ(b, #[trigger] b[k]) == occ(a, b[k]))),
        decreases b_idx.len() - j,
    {
        let x = &b_items[b_idx[j]].tokens;
        let cb = occurrences(b_items, b_idx, x, relation);
        let ca = occurrences(a_items, a_idx, x, relation);
        proof {
            assert(b[j as int] == signature(x@, relation));
        }
        if ca != cb {
            even = false;
        }
        proof {
            assert(even == ((forall|k: int| 0 <= k < a.len() ==> occ(a, #[trigger] a[k]) == occ(b, a[k]))
                && (forall|k: int| 0 <= k < j + 1 ==> occ(b, #[trigger] b[k]) == occ(a, b[k])))) by {
                if even {
                    assert forall|k: int| 0 <= k < j + 1 implies occ(b, #[trigger] b[k]) == occ(a, b[k]) by {
                        if k < j {
                        }
                    }
                }
            }
        }
        j = j + 1;
    }
    if even {
        return None;
    }
    let mut i: usize = 0;
    while i < a_idx.len()
        invariant
            i <= a_idx@.len(),
            indexes(a_items@, a_idx@),
            indexes(b_items@, b_idx@),
            a == sigs(a_items@, a_idx@, relation),
            b == sigs(b_items@, b_idx@, relation),
            first_excess(a, b, 0) == first_excess(a, b, i as int),
        decreases a_idx.len() - i,
    {
        let x = &a_items[a_idx[i]].tokens;
        let ca = occurrences(a_items, a_idx, x, relation);
        let cb = occurrences(b_items, b_idx, x, relation);
        proof {
            assert(a[i as int] == signature(x@, relation));
        }
        if ca > cb {
            return Some(BijectionBreach::UnitDropped { at: i });
        }
        i = i + 1;
    }
    let mut j: usize = 0;
    while j < b_idx.len()
        invariant
            j <= b_idx@.len(),
            indexes(a_items@, a_idx@),
            indexes(b_items@, b_idx@),
            a == sigs(a_items@, a_idx@, relation),
            b == sigs(b_items@, b_idx@, relation),
            first_excess(a, b, 0) is None,
            first_excess(b, a, 0) == first_excess(b, a, j as int),
        decreases b_idx.len() - j,
    {
        let x = &b_items[b_idx[j]].tokens;
        let cb = occurrences(b_items, b_idx, x, relation);
        let ca = occurrences(a_items, a_idx, x, relation);
        proof {
            assert(b[j as int] == signature(x@, relation));
        }
        if cb > ca {
            return Some(BijectionBreach::UnitAdded { at: j });
        }
        j = j + 1;
    }
    Some(BijectionBreach::UnitAdded { at: 0 })
}

/// The first index at or after `k` where two identity runs of equal length
/// differ.
pub open spec fn first_difference(a: Seq<Sig>, b: Seq<Sig>, k: int) -> Option<int>
    decreases a.len() - k,
{
    if k < 0 || k >= a.len() || k >= b.len() {
        None
    } else if a[k] != b[k] {
        Some(k)
    } else {
        first_difference(a, b, k + 1)
    }
}

/// The index of the first barrier that did not hold — a differing count, or
/// a barrier whose identity changed — else `None`.
pub open spec fn barrier_moved_spec(a: Seq<Sig>, b: Seq<Sig>) -> Option<int> {
    if a.len() != b.len() {
        Some(if a.len() < b.len() {
            a.len() as int
        } else {
            b.len() as int
        })
    } else {
        first_difference(a, b, 0)
    }
}

/// The first barrier that did not hold.
fn barrier_moved(
    a_items: &Vec<SignedItem>,
    a_idx: &Vec<usize>,
    b_items: &Vec<SignedItem>,
    b_idx: &Vec<usize>,
    relation: Certificate,
) -> (r: Option<usize>)
    requires
        indexes(a_items@, a_idx@),
        indexes(b_items@, b_idx@),
    ensures
        r matches Some(k) ==> barrier_moved_spec(
            sigs(a_items@, a_idx@, relation),
            sigs(b_items@, b_idx@, relation),
        ) == Some(k as int),
        r is None ==> barrier_moved_spec(
            sigs(a_items@, a_idx@, relation),
            sigs(b_items@, b_idx@, relation),
        ) is None,
{
    let ghost a = sigs(a_items@, a_idx@, relation);
    let ghost b = sigs(b_items@, b_idx@, relation);
    if a_idx.len() != b_idx.len() {
        return Some(
            if a_idx.len() < b_idx.len() {
                a_idx.len()
            } else {
                b_idx.len()
            },
        );
    }
    let mut k: usize = 0;
    while k < a_idx.len()
        invariant
            k <= a_idx@.len(),
            a_idx@.len() == b_idx@.len(),
            indexes(a_items@, a_idx@),
            indexes(b_items@, b_idx@),
            a == sigs(a_items@, a_idx@, relation),
            b == sigs(b_items@, b_idx@, relation),
            first_difference(a, b, 0) == first_difference(a, b, k as int),
        decreases a_idx.len() - k,
    {
        if !same_signature(&a_items[a_idx[k]].tokens, &b_items[b_idx[k]].tokens, relation) {
            return Some(k);
        }
        k = k + 1;
    }
    None
}

/// The identities of each region's units.
pub open spec fn region_sigs(items: Seq<SignedItem>, relation: Certificate) -> Seq<Seq<Sig>> {
    region_lists(items, items.len() as int).map_values(|idx: Seq<usize>| sigs(items, idx, relation))
}

/// The first region at or after `k` whose units differ, and how.
pub open spec fn first_region_breach(a: Seq<Seq<Sig>>, b: Seq<Seq<Sig>>, k: int) -> Option<
    BijectionBreach,
>
    decreases a.len() - k,
{
    if k < 0 || k >= a.len() || k >= b.len() {
        None
    } else {
        match region_breach_spec(a[k], b[k]) {
            Some(breach) => Some(breach),
            None => first_region_breach(a, b, k + 1),
        }
    }
}

/// The permutation certificate's answer: the first barrier that did not hold, else the
/// first region whose units are not the input's exactly; `None` when the
/// output is a pure permutation of the input within its regions.
pub open spec fn permutation_outcome(
    input: Seq<SignedItem>,
    output: Seq<SignedItem>,
    relation: Certificate,
) -> Option<BijectionBreach> {
    let ib = sigs(input, barrier_list(input, input.len() as int), relation);
    let ob = sigs(output, barrier_list(output, output.len() as int), relation);
    match barrier_moved_spec(ib, ob) {
        Some(at) => Some(BijectionBreach::BarrierMoved { at: at as usize }),
        None => first_region_breach(region_sigs(input, relation), region_sigs(output, relation), 0),
    }
}

/// Prove that the reassembled output is a pure permutation of the input: it
/// re-parses as a member; every barrier holds, the same barriers in the
/// same order; and within each region the output's units are the input's
/// exactly, counted both ways. Identities are read under the relation each
/// unit's own certificate earned.
pub fn permutation_certificate(
    output_errors: Vec<SyntaxError>,
    input: &Vec<SignedItem>,
    output: &Vec<SignedItem>,
    preserve_spellings: bool,
) -> (r: Result<(), BijectionBreach>)
    ensures
        output_errors@.len() > 0 ==> r == Err::<(), BijectionBreach>(
            BijectionBreach::NotAMember(output_errors),
        ),
        output_errors@.len() == 0 ==> match permutation_outcome(
            input@,
            output@,
            target_spec(preserve_spellings),
        ) {
            None => r is Ok,
            Some(breach) => r == Err::<(), BijectionBreach>(breach),
        },
{
    if output_errors.len() > 0 {
        return Err(BijectionBreach::NotAMember(output_errors));
    }
    let relation = target(preserve_spellings);
    let ir = regions(input);
    let or = regions(output);
    proof {
        lemma_region_lists(input@, input@.len() as int);
        lemma_region_lists(output@, output@.len() as int);
    }
    match barrier_moved(input, &ir.barriers, output, &or.barriers, relation) {
        Some(at) => {
            return Err(BijectionBreach::BarrierMoved { at });
        },
        None => {},
    }
    let ghost a = region_sigs(input@, relation);
    let ghost b = region_sigs(output@, relation);
    let ghost il = region_lists(input@, input@.len() as int);
    let ghost ol = region_lists(output@, output@.len() as int);
    let mut k: usize = 0;
    while k < ir.units.len() && k < or.units.len()
        invariant
            region_views(ir.units@) == il,
            region_views(or.units@) == ol,
            il == region_lists(input@, input@.len() as int),
            ol == region_lists(output@, output@.len() as int),
            a == region_sigs(input@, relation),
            b == region_sigs(output@, relation),
            forall|m: int, j: int|
                0 <= m < il.len() && 0 <= j < il[m].len() ==> #[trigger] il[m][j] < input@.len(),
            forall|m: int, j: int|
                0 <= m < ol.len() && 0 <= j < ol[m].len() ==> #[trigger] ol[m][j] < output@.len(),
            first_region_breach(a, b, 0) == first_region_breach(a, b, k as int),
            output_errors@.len() == 0,
            relation == target_spec(preserve_spellings),
            permutation_outcome(input@, output@, relation) == first_region_breach(a, b, 0),
        decreases ir.units.len() - k,
    {
        let iu = &ir.units[k];
        let ou = &or.units[k];
        proof {
            assert(iu@ == il[k as int]);
            assert(ou@ == ol[k as int]);
            assert(a[k as int] == sigs(input@, iu@, relation));
            assert(b[k as int] == sigs(output@, ou@, relation));
            assert(indexes(input@, iu@)) by {
                assert forall|j: int| 0 <= j < iu@.len() implies #[trigger] iu@[j] < input@.len() by {
                    assert(il[k as int][j] < input@.len());
                }
            }
            assert(indexes(output@, ou@)) by {
                assert forall|j: int| 0 <= j < ou@.len() implies #[trigger] ou@[j] < output@.len() by {
                    assert(ol[k as int][j] < output@.len());
                }
            }
        }
        match region_breach(input, iu, output, ou, relation) {
            Some(breach) => {
                return Err(breach);
            },
            None => {},
        }
        k = k + 1;
    }
    Ok(())
}

/// The barriers of `input` and `output` carry the same identities, in the
/// same order.
pub open spec fn same_barriers(
    input: Seq<SignedItem>,
    output: Seq<SignedItem>,
    relation: Certificate,
) -> bool {
    sigs(input, barrier_list(input, input.len() as int), relation) == sigs(
        output,
        barrier_list(output, output.len() as int),
        relation,
    )
}

/// Region by region, the units of `input` and `output` are the same
/// identities, counted with multiplicity.
pub open spec fn same_regions(
    input: Seq<SignedItem>,
    output: Seq<SignedItem>,
    relation: Certificate,
) -> bool {
    &&& region_sigs(input, relation).len() == region_sigs(output, relation).len()
    &&& forall|k: int|
        0 <= k < region_sigs(input, relation).len() ==> (#[trigger] region_sigs(input, relation)[k]).to_multiset()
            == region_sigs(output, relation)[k].to_multiset()
}

proof fn lemma_occ_count(s: Seq<Sig>, x: Sig)
    ensures
        occ(s, x) == s.to_multiset().count(x),
    decreases s.len(),
{
    broadcast use vstd::multiset::group_multiset_axioms;
    broadcast use vstd::seq_lib::to_multiset_build;
    broadcast use vstd::seq_lib::to_multiset_len;

    if s.len() == 0 {
        vstd::seq_lib::to_multiset_len(s);
        assert(s.to_multiset().len() == 0);
        if s.to_multiset().count(x) > 0 {
            assert(s.to_multiset().contains(x));
        }
    } else {
        let s0 = s.drop_last();
        lemma_occ_count(s0, x);
        assert(s0.push(s.last()) =~= s);
    }
}

proof fn lemma_balanced_multiset(a: Seq<Sig>, b: Seq<Sig>)
    ensures
        balanced(a, b) <==> a.to_multiset() == b.to_multiset(),
{
    broadcast use vstd::multiset::group_multiset_axioms;
    broadcast use vstd::seq_lib::to_multiset_contains;

    if balanced(a, b) {
        assert forall|x: Sig| a.to_multiset().count(x) == b.to_multiset().count(x) by {
            lemma_occ_count(a, x);
            lemma_occ_count(b, x);
            if a.contains(x) {
                let i = choose|i: int| 0 <= i < a.len() && a[i] == x;
                assert(occ(a, a[i]) == occ(b, a[i]));
            } else if b.contains(x) {
                let j = choose|j: int| 0 <= j < b.len() && b[j] == x;
                assert(occ(b, b[j]) == occ(a, b[j]));
            } else {
                assert(a.to_multiset().count(x) == 0);
                assert(b.to_multiset().count(x) == 0);
            }
        }
        assert(a.to_multiset() =~= b.to_multiset());
    }
    if a.to_multiset() == b.to_multiset() {
        assert forall|i: int| 0 <= i < a.len() implies occ(a, #[trigger] a[i]) == occ(b, a[i]) by {
            lemma_occ_count(a, a[i]);
            lemma_occ_count(b, a[i]);
        }
        assert forall|j: int| 0 <= j < b.len() implies occ(b, #[trigger] b[j]) == occ(a, b[j]) by {
            lemma_occ_count(a, b[j]);
            lemma_occ_count(b, b[j]);
        }
    }
}

proof fn lemma_first_difference(a: Seq<Sig>, b: Seq<Sig>, k: int)
    requires
        a.len() == b.len(),
        0 <= k <= a.len(),
    ensures
        first_difference(a, b, k) is None <==> forall|j: int| k <= j < a.len() ==> a[j] == b[j],
    decreases a.len() - k,
{
    if k < a.len() {
        lemma_first_difference(a, b, k + 1);
        if a[k] == b[k] {
            assert forall|j: int| k <= j < a.len() && (forall|m: int| k + 1 <= m < a.len() ==> a[m]
                == b[m]) implies a[j] == b[j] by {
                if j > k {
                }
            }
        }
    }
}

proof fn lemma_first_region_breach(a: Seq<Seq<Sig>>, b: Seq<Seq<Sig>>, k: int)
    requires
        a.len() == b.len(),
        0 <= k <= a.len(),
    ensures
        first_region_breach(a, b, k) is None <==> forall|j: int| k <= j < a.len() ==> balanced(#[trigger] a[j], b[j]),
    decreases a.len() - k,
{
    if k < a.len() {
        lemma_first_region_breach(a, b, k + 1);
        if balanced(a[k], b[k]) {
            assert forall|j: int| k <= j < a.len() && (forall|m: int| k + 1 <= m < a.len() ==> balanced(#[trigger] a[m], b[m]))
                implies balanced(#[trigger] a[j], b[j]) by {
                if j > k {
                    assert(balanced(a[j], b[j]));
                }
            }
        }
    }
}

/// The permutation certificate grants exactly the true permutations: it
/// holds of an output if and only if the output's barriers are the input's,
/// the same identities in the same order, and each region between them
/// holds the input's units, the same identities counted with multiplicity.
pub proof fn lemma_certificate_characterized(
    input: Seq<SignedItem>,
    output: Seq<SignedItem>,
    relation: Certificate,
)
    ensures
        permutation_outcome(input, output, relation) is None <==> (same_barriers(
            input,
            output,
            relation,
        ) && same_regions(input, output, relation)),
{
    let ib = sigs(input, barrier_list(input, input.len() as int), relation);
    let ob = sigs(output, barrier_list(output, output.len() as int), relation);
    let a = region_sigs(input, relation);
    let b = region_sigs(output, relation);
    lemma_region_lists(input, input.len() as int);
    lemma_region_lists(output, output.len() as int);
    assert(a.len() == ib.len() + 1);
    assert(b.len() == ob.len() + 1);
    if ib.len() == ob.len() {
        lemma_first_difference(ib, ob, 0);
        if barrier_moved_spec(ib, ob) is None {
            assert(ib =~= ob);
        }
        if ib == ob {
            assert(first_difference(ib, ob, 0) is None);
        }
        lemma_first_region_breach(a, b, 0);
        assert forall|k: int| 0 <= k < a.len() implies balanced(#[trigger] a[k], b[k]) == (a[k].to_multiset()
            == b[k].to_multiset()) by {
            lemma_balanced_multiset(a[k], b[k]);
        }
    }
}

/// Region lists follow the barrier flags alone: two runs flagged alike
/// split alike.
proof fn lemma_lists_follow_flags(a: Seq<SignedItem>, b: Seq<SignedItem>, n: int)
    requires
        0 <= n <= a.len(),
        n <= b.len(),
        forall|k: int| 0 <= k < n ==> (#[trigger] a[k]).barrier == b[k].barrier,
    ensures
        region_lists(a, n) == region_lists(b, n),
        barrier_list(a, n) == barrier_list(b, n),
    decreases n,
{
    if n > 0 {
        lemma_lists_follow_flags(a, b, n - 1);
        assert(a[n - 1].barrier == b[n - 1].barrier);
    }
}

/// The barriers among the first `m` items, counted.
pub open spec fn barriers_before(items: Seq<SignedItem>, m: int) -> nat {
    barrier_list(items, m).len()
}

/// The `i`-th item stands in the region list of the first `n` items, in the
/// region numbered by the barriers before it.
spec fn in_region(items: Seq<SignedItem>, n: int, i: int) -> bool {
    &&& barriers_before(items, i) < region_lists(items, n).len()
    &&& region_lists(items, n)[barriers_before(items, i) as int].contains(i as usize)
}

/// Where a region list puts an item: a unit stands in the region numbered by
/// the barriers before it, the units of a region in increasing order, and a
/// barrier list holds only barriers.
proof fn lemma_region_members(items: Seq<SignedItem>, n: int)
    requires
        0 <= n <= items.len(),
        items.len() <= usize::MAX,
    ensures
        forall|r: int, j: int|
            0 <= r < region_lists(items, n).len() && 0 <= j < region_lists(items, n)[r].len()
                ==> !items[#[trigger] region_lists(items, n)[r][j] as int].barrier
                && barriers_before(items, region_lists(items, n)[r][j] as int) == r,
        forall|r: int, j1: int, j2: int|
            0 <= r < region_lists(items, n).len() && 0 <= j1 < j2 < region_lists(items, n)[r].len()
                ==> #[trigger] region_lists(items, n)[r][j1] < #[trigger] region_lists(
                items,
                n,
            )[r][j2],
        forall|i: int| 0 <= i < n && !items[i].barrier ==> #[trigger] in_region(items, n, i),
        forall|j: int|
            0 <= j < barrier_list(items, n).len() ==> items[#[trigger] barrier_list(
                items,
                n,
            )[j] as int].barrier,
    decreases n,
{
    lemma_region_lists(items, n);
    if n > 0 {
        lemma_region_members(items, n - 1);
        lemma_region_lists(items, n - 1);
        let p = region_lists(items, n - 1);
        let q = region_lists(items, n);
        let bp = barrier_list(items, n - 1);
        let bq = barrier_list(items, n);
        if items[n - 1].barrier {
            assert forall|r: int, j: int| 0 <= r < q.len() && 0 <= j < q[r].len() implies !items[#[trigger] q[r][j] as int].barrier
                && barriers_before(items, q[r][j] as int) == r by {
                assert(q[r] == p[r]);
            }
            assert forall|r: int, j1: int, j2: int| 0 <= r < q.len() && 0 <= j1 < j2 < q[r].len() implies #[trigger] q[r][j1]
                < #[trigger] q[r][j2] by {
                assert(q[r] == p[r]);
            }
            assert forall|i: int| 0 <= i < n && !items[i].barrier implies #[trigger] in_region(
                items,
                n,
                i,
            ) by {
                let c = barriers_before(items, i) as int;
                assert(in_region(items, n - 1, i));
                assert(p[c].contains(i as usize));
                assert(q[c] == p[c]);
            }
            assert forall|j: int| 0 <= j < bq.len() implies items[#[trigger] bq[j] as int].barrier by {
                if j < bp.len() {
                    assert(bq[j] == bp[j]);
                } else {
                    assert(bq[j] == (n - 1) as usize);
                }
            }
        } else {
            let last = p.len() - 1;
            assert forall|r: int, j: int| 0 <= r < q.len() && 0 <= j < q[r].len() implies !items[#[trigger] q[r][j] as int].barrier
                && barriers_before(items, q[r][j] as int) == r by {
                if r < last {
                    assert(q[r] == p[r]);
                } else if j < p[last].len() {
                    assert(q[r][j] == p[last][j]);
                } else {
                    assert(q[r][j] == (n - 1) as usize);
                }
            }
            assert forall|r: int, j1: int, j2: int| 0 <= r < q.len() && 0 <= j1 < j2 < q[r].len() implies #[trigger] q[r][j1]
                < #[trigger] q[r][j2] by {
                if r < last {
                    assert(q[r] == p[r]);
                } else if j2 < p[last].len() {
                    assert(q[r][j1] == p[last][j1]);
                    assert(q[r][j2] == p[last][j2]);
                } else {
                    assert(q[r][j1] == p[last][j1]);
                    assert(p[last][j1] < n - 1);
                }
            }
            assert forall|i: int| 0 <= i < n && !items[i].barrier implies #[trigger] in_region(
                items,
                n,
                i,
            ) by {
                let c = barriers_before(items, i) as int;
                if i < n - 1 {
                    assert(in_region(items, n - 1, i));
                    assert(p[c].contains(i as usize));
                    let w = choose|w: int| 0 <= w < p[c].len() && p[c][w] == i as usize;
                    if c < last {
                        assert(q[c] == p[c]);
                    } else {
                        assert(q[c][w] == p[c][w]);
                    }
                } else {
                    assert(q[last][p[last].len() as int] == (n - 1) as usize);
                }
            }
            assert forall|j: int| 0 <= j < bq.len() implies items[#[trigger] bq[j] as int].barrier by {
                assert(bq[j] == bp[j]);
            }
        }
    }
}

/// With no barrier in `[a, b)`, as many barriers stand before `a` as before
/// `b`.
proof fn lemma_no_barrier_between(items: Seq<SignedItem>, a: int, b: int)
    requires
        0 <= a <= b <= items.len(),
        forall|p: int| a <= p < b ==> !(#[trigger] items[p]).barrier,
    ensures
        barriers_before(items, a) == barriers_before(items, b),
    decreases b - a,
{
    if a < b {
        lemma_no_barrier_between(items, a, b - 1);
        assert(!items[b - 1].barrier);
    }
}

/// Two runs without repeats, of one length, the first drawn from the
/// second, hold the same elements.
proof fn lemma_same_members(a: Seq<usize>, b: Seq<usize>)
    requires
        a.no_duplicates(),
        b.no_duplicates(),
        a.len() == b.len(),
        forall|i: int| 0 <= i < a.len() ==> b.contains(#[trigger] a[i]),
    ensures
        a.to_multiset() =~= b.to_multiset(),
{
    broadcast use vstd::seq_lib::group_to_multiset_ensures;
    broadcast use vstd::set::group_set_axioms;
    broadcast use vstd::seq_lib::seq_to_set_is_finite;

    a.unique_seq_to_set();
    b.unique_seq_to_set();
    assert(a.to_set().subset_of(b.to_set())) by {
        assert forall|x: usize| a.to_set().contains(x) implies b.to_set().contains(x) by {
            let i = choose|i: int| 0 <= i < a.len() && a[i] == x;
            assert(b.contains(a[i]));
        }
    }
    vstd::set_lib::lemma_subset_equality(a.to_set(), b.to_set());
    a.lemma_multiset_has_no_duplicates();
    b.lemma_multiset_has_no_duplicates();
    assert forall|x: usize| a.to_multiset().count(x) == b.to_multiset().count(x) by {
        if a.contains(x) {
            assert(a.to_set().contains(x));
            assert(b.to_set().contains(x));
            assert(a.to_multiset().contains(x));
            assert(b.to_multiset().contains(x));
        } else {
            assert(!a.to_set().contains(x));
            assert(!b.to_set().contains(x));
            assert(!b.contains(x));
        }
    }
}

/// Mapping keeps two runs with equal elements equal in their elements.
proof fn lemma_map_same_members<B>(a: Seq<usize>, b: Seq<usize>, f: spec_fn(usize) -> B)
    requires
        a.to_multiset() == b.to_multiset(),
    ensures
        a.map_values(f).to_multiset() == b.map_values(f).to_multiset(),
    decreases a.len(),
{
    broadcast use vstd::seq_lib::group_to_multiset_ensures;
    broadcast use vstd::multiset::group_multiset_axioms;
    broadcast use vstd::seq_lib::to_multiset_len;

    if a.len() == 0 {
        vstd::seq_lib::to_multiset_len(a);
        vstd::seq_lib::to_multiset_len(b);
        assert(b.len() == 0);
        assert(a.map_values(f) =~= Seq::<B>::empty());
        assert(b.map_values(f) =~= Seq::<B>::empty());
    } else {
        let x = a.last();
        assert(a.to_multiset().count(x) > 0) by {
            assert(a.contains(x));
        }
        assert(b.contains(x));
        let i = choose|i: int| 0 <= i < b.len() && b[i] == x;
        assert(a.drop_last().push(x) =~= a);
        assert(a.drop_last().to_multiset() =~= b.remove(i).to_multiset()) by {
            assert(a.to_multiset() =~= a.drop_last().to_multiset().insert(x));
            assert(b.remove(i).to_multiset() =~= b.to_multiset().remove(x));
        }
        lemma_map_same_members(a.drop_last(), b.remove(i), f);
        assert(a.map_values(f) =~= a.drop_last().map_values(f).push(f(x)));
        assert(b.remove(i).map_values(f) =~= b.map_values(f).remove(i));
        assert(b.map_values(f)[i] == f(x));
        assert(b.map_values(f).remove(i).to_multiset() =~= b.map_values(f).to_multiset().remove(f(x)));
        assert(b.map_values(f).to_multiset().count(f(x)) > 0) by {
            assert(b.map_values(f).contains(f(x)));
        }
    }
}

/// The certificate grants every output that only moves units within their
/// regions: when each output position `k` holds, by identity, the input's
/// item at `sources[k]`, where `sources` is one-to-one, leaves every
/// barrier where it stands, and sends no unit across a barrier, the output
/// is accepted.
pub proof fn lemma_regional_moves_granted(
    input: Seq<SignedItem>,
    output: Seq<SignedItem>,
    sources: Seq<usize>,
    relation: Certificate,
)
    requires
        input.len() <= usize::MAX,
        output.len() == input.len(),
        sources.len() == input.len(),
        forall|k: int| 0 <= k < sources.len() ==> #[trigger] sources[k] < input.len(),
        forall|k1: int, k2: int|
            0 <= k1 < sources.len() && 0 <= k2 < sources.len() && k1 != k2 ==> #[trigger] sources[k1]
                != #[trigger] sources[k2],
        forall|p: int| 0 <= p < input.len() && (#[trigger] input[p]).barrier ==> sources[p] == p,
        forall|p: int, k: int|
            0 <= p < input.len() && (#[trigger] input[p]).barrier && 0 <= k < sources.len() ==> (k < p
                <==> #[trigger] sources[k] < p),
        forall|k: int|
            0 <= k < output.len() ==> (#[trigger] output[k]).barrier == input[sources[k] as int].barrier
                && signature(output[k].tokens@, relation) == signature(
                input[sources[k] as int].tokens@,
                relation,
            ),
    ensures
        permutation_outcome(input, output, relation) is None,
{
    let n = input.len() as int;
    assert forall|k: int| 0 <= k < n implies (#[trigger] input[k]).barrier == output[k].barrier by {
        if !input[k].barrier && input[sources[k] as int].barrier {
            let p = sources[k] as int;
            assert(sources[p] == p);
        }
    }
    lemma_lists_follow_flags(input, output, n);
    lemma_region_members(input, n);
    lemma_region_lists(input, n);
    let bl = barrier_list(input, n);
    assert(sigs(input, bl, relation) =~= sigs(output, bl, relation)) by {
        assert forall|j: int| 0 <= j < bl.len() implies sigs(input, bl, relation)[j] == sigs(
            output,
            bl,
            relation,
        )[j] by {
            let p = bl[j] as int;
            assert(input[p].barrier);
            assert(sources[p] == p);
        }
    }
    let a = region_sigs(input, relation);
    let b = region_sigs(output, relation);
    let rl = region_lists(input, n);
    assert forall|r: int| 0 <= r < a.len() implies (#[trigger] a[r]).to_multiset() == b[r].to_multiset() by {
        let l = rl[r];
        let m = l.map_values(|i: usize| sources[i as int]);
        assert(a[r] == sigs(input, l, relation));
        assert(b[r] == sigs(output, l, relation));
        assert(sigs(output, l, relation) =~= sigs(input, m, relation));
        assert forall|j: int| 0 <= j < m.len() implies l.contains(#[trigger] m[j]) by {
            let i = l[j] as int;
            let t = sources[i] as int;
            assert(!input[i].barrier);
            assert(barriers_before(input, i) == r);
            if input[t].barrier {
                assert(sources[t] == t);
            }
            if i < t {
                assert forall|p: int| i <= p < t implies !(#[trigger] input[p]).barrier by {
                    if input[p].barrier {
                        assert(i < p <==> sources[i] < p);
                    }
                }
                lemma_no_barrier_between(input, i, t);
            } else if t < i {
                assert forall|p: int| t <= p < i implies !(#[trigger] input[p]).barrier by {
                    if input[p].barrier {
                        assert(i < p <==> sources[i] < p);
                    }
                }
                lemma_no_barrier_between(input, t, i);
            }
            assert(in_region(input, n, t));
        }
        assert(l.no_duplicates()) by {
            assert forall|j1: int, j2: int| 0 <= j1 < l.len() && 0 <= j2 < l.len() && j1 != j2 implies l[j1]
                != l[j2] by {
                if j1 < j2 {
                    assert(rl[r][j1] < rl[r][j2]);
                } else {
                    assert(rl[r][j2] < rl[r][j1]);
                }
            }
        }
        assert(m.no_duplicates()) by {
            assert forall|j1: int, j2: int| 0 <= j1 < m.len() && 0 <= j2 < m.len() && j1 != j2 implies m[j1]
                != m[j2] by {
                assert(l[j1] != l[j2]);
                assert(sources[l[j1] as int] != sources[l[j2] as int]);
            }
        }
        lemma_same_members(m, l);
        lemma_map_same_members(m, l, |i: usize| signature(input[i as int].tokens@, relation));
        assert(sigs(input, m, relation) == m.map_values(
            |i: usize| signature(input[i as int].tokens@, relation),
        ));
        assert(sigs(input, l, relation) == l.map_values(
            |i: usize| signature(input[i as int].tokens@, relation),
        ));
    }
    lemma_certificate_characterized(input, output, relation);
}

} // verus!
