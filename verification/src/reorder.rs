//! The sound reorder: the opt-in, order-changing transformation that organizes
//! a program's top-level statements into a canonical signature order —
//! `#defined`, then `#const`, then rules, then `#show` — conservatively. A
//! reorderable top-level statement (with the comments bound to it) is a
//! **unit**; an order-sensitive statement, or a program-level floating
//! comment, is a **barrier** the reorder never moves and never permutes a unit
//! across. Within each region the barriers divide, the units are emitted
//! section by section in the active order, each section's units in source
//! order: a stable bucket sort.

use vstd::prelude::*;
use vstd::multiset::Multiset;

use crate::certify::{SignedItem, lemma_regional_moves_granted, permutation_outcome, signature};
use crate::embedded::same_text;
use crate::options::{
    BijectionBreach, Certificate, CertificateBreak, FormatError, Formatted, ReorderError, Reordered,
};
use crate::syntax::{Diagnostic, Severity, Span};
use crate::text::{chars_of, decimal, decimal_of, push_chars, push_str, string_of, trim_end, trim_end_of};

verus! {

/// A bucket of the reorder's section order.
#[derive(Clone, Copy, PartialEq, Eq, Hash, Debug, Structural)]
pub enum Section {
    /// `#include`, hoisted to the front under `reorder_includes`.
    Include,
    /// `#defined` — the input signature.
    Defined,
    /// A plain (non-override) `#const` — the parameters.
    Const,
    /// Rules and every other order-insensitive statement.
    Body,
    /// `#show` — the output signature.
    Show,
}

/// The kind of a top-level statement, as the reorder classifies it.
#[derive(Clone, Copy, PartialEq, Eq, Debug, Structural)]
pub enum StatementKind {
    Rule,
    WeakConstraint,
    Optimize,
    Show,
    Project,
    Defined,
    Edge,
    Heuristic,
    External,
    TheoryDefinition,
    ProgramPart,
    Script,
    Query,
    Include,
    /// A `#const`; `overrides` when it carries the override policy, which
    /// resolves by position.
    Const { overrides: bool },
}

/// The bucket a statement emits into, or `None` for the inherently
/// order-sensitive kinds that are always barriers — `#program`, `#script`,
/// and the query.
pub open spec fn section_of(kind: StatementKind) -> Option<Section> {
    match kind {
        StatementKind::Defined => Some(Section::Defined),
        StatementKind::Const { .. } => Some(Section::Const),
        StatementKind::Show => Some(Section::Show),
        StatementKind::Include => Some(Section::Include),
        StatementKind::ProgramPart => None,
        StatementKind::Script => None,
        StatementKind::Query => None,
        _ => Some(Section::Body),
    }
}

/// Every statement but a `#defined`, a `#const`, a `#show`, an `#include`
/// and the barriers `#program`, `#script` and the query is placed in the
/// body section: rules, weak constraints, `#minimize`/`#maximize`,
/// `#project`, `#edge`, `#heuristic`, `#external` and `#theory` alike.
pub proof fn lemma_body_section(kind: StatementKind)
    ensures
        (section_of(kind) == Some(Section::Body)) == !(kind is Defined || kind is Const || kind is Show
            || kind is Include || kind is ProgramPart || kind is Script || kind is Query),
        kind is Defined ==> section_of(kind) == Some(Section::Defined),
        kind is Const ==> section_of(kind) == Some(Section::Const),
        kind is Show ==> section_of(kind) == Some(Section::Show),
        kind is Include ==> section_of(kind) == Some(Section::Include),
{
}

/// The bucket a statement emits into.
pub fn section(kind: StatementKind) -> (r: Option<Section>)
    ensures
        r == section_of(kind),
{
    match kind {
        StatementKind::Defined => Some(Section::Defined),
        StatementKind::Const { .. } => Some(Section::Const),
        StatementKind::Show => Some(Section::Show),
        StatementKind::Include => Some(Section::Include),
        StatementKind::Rule | StatementKind::WeakConstraint | StatementKind::Optimize
        | StatementKind::Project | StatementKind::Edge | StatementKind::Heuristic
        | StatementKind::External | StatementKind::TheoryDefinition => Some(Section::Body),
        StatementKind::ProgramPart | StatementKind::Script | StatementKind::Query => None,
    }
}

/// Whether a statement is a barrier: `#program`, `#script`, and the query
/// always; `#include` unless `reorder_includes`; an override `#const`, which
/// resolves by position. Every other kind is reorderable.
pub open spec fn barrier_kind(kind: StatementKind, reorder_includes: bool) -> bool {
    match kind {
        StatementKind::ProgramPart => true,
        StatementKind::Script => true,
        StatementKind::Query => true,
        StatementKind::Include => !reorder_includes,
        StatementKind::Const { overrides } => overrides,
        _ => false,
    }
}

/// Whether a statement is a barrier.
pub fn is_barrier(kind: StatementKind, reorder_includes: bool) -> (r: bool)
    ensures
        r == barrier_kind(kind, reorder_includes),
{
    match kind {
        StatementKind::ProgramPart | StatementKind::Script | StatementKind::Query => true,
        StatementKind::Include => !reorder_includes,
        StatementKind::Const { overrides } => overrides,
        StatementKind::Rule | StatementKind::WeakConstraint | StatementKind::Optimize
        | StatementKind::Show | StatementKind::Project | StatementKind::Defined
        | StatementKind::Edge | StatementKind::Heuristic | StatementKind::External
        | StatementKind::TheoryDefinition => false,
    }
}

/// The active section order: `#defined` → `#const` → body → `#show`, with
/// `#include` hoisted to a leading bucket under `reorder_includes`.
pub open spec fn order_spec(reorder_includes: bool) -> Seq<Section> {
    if reorder_includes {
        seq![Section::Include, Section::Defined, Section::Const, Section::Body, Section::Show]
    } else {
        seq![Section::Defined, Section::Const, Section::Body, Section::Show]
    }
}

/// The active section order.
pub fn order(reorder_includes: bool) -> (r: Vec<Section>)
    ensures
        r@ == order_spec(reorder_includes),
{
    let r = if reorder_includes {
        vec![Section::Include, Section::Defined, Section::Const, Section::Body, Section::Show]
    } else {
        vec![Section::Defined, Section::Const, Section::Body, Section::Show]
    };
    assert(r@ =~= order_spec(reorder_includes));
    r
}

/// One top-level element of the reorder's item stream: a unit tagged with
/// its section, or a held barrier; `offset` and `end` are where it starts and
/// ends in the source.
#[derive(Clone, Copy, PartialEq, Eq, Debug, Structural)]
pub struct Item {
    pub section: Option<Section>,
    pub offset: u32,
    pub end: u32,
}

impl Item {
    /// Whether this item is a barrier bounding a region.
    pub open spec fn barrier(self) -> bool {
        self.section is None
    }
}

/// Read a statement into the item stream: a unit when it has a section and is
/// not a barrier, else a held barrier — an unclassifiable statement fails safe.
pub fn statement_item(kind: StatementKind, offset: u32, end: u32, reorder_includes: bool) -> (r: Item)
    ensures
        r.offset == offset,
        r.end == end,
        r.section == if barrier_kind(kind, reorder_includes) {
            None
        } else {
            section_of(kind)
        },
{
    let s = section(kind);
    if s.is_some() && !is_barrier(kind, reorder_includes) {
        Item { section: s, offset, end }
    } else {
        Item { section: None, offset, end }
    }
}

/// A program-level floating comment, held in place as a barrier.
pub fn dangling_item(offset: u32, end: u32) -> (r: Item)
    ensures
        r.offset == offset && r.end == end && r.section is None,
{
    Item { section: None, offset, end }
}

/// The rank a unit's section takes in `order`: its position, or `order`'s
/// length for a section the order lacks — emitted after every ordered
/// section rather than dropped.
pub open spec fn rank_in(section: Section, order: Seq<Section>) -> nat
    decreases order.len(),
{
    if order.len() == 0 {
        0
    } else if order[0] == section {
        0
    } else {
        1 + rank_in(section, order.drop_first())
    }
}

proof fn lemma_rank_bound(section: Section, order: Seq<Section>)
    ensures
        rank_in(section, order) <= order.len(),
    decreases order.len(),
{
    if order.len() > 0 && order[0] != section {
        lemma_rank_bound(section, order.drop_first());
    }
}

/// The rank of `section` in `order`.
pub fn rank(section: Section, order: &[Section]) -> (r: usize)
    ensures
        r == rank_in(section, order@),
        r <= order@.len(),
{
    let mut i: usize = 0;
    proof {
        assert(order@.skip(0) =~= order@);
    }
    while i < order.len()
        invariant
            i <= order@.len(),
            rank_in(section, order@) == i + rank_in(section, order@.skip(i as int)),
        decreases order.len() - i,
    {
        proof {
            assert(order@.skip(i as int).drop_first() =~= order@.skip(i + 1));
        }
        if order[i] == section {
            return i;
        }
        i = i + 1;
    }
    proof {
        lemma_rank_bound(section, order@);
    }
    i
}

/// The rank a unit takes in `order`; a barrier, which never sits in a
/// region, ranks last.
pub open spec fn rank_key(item: Item, order: Seq<Section>) -> nat {
    match item.section {
        Some(s) => rank_in(s, order),
        None => order.len(),
    }
}

/// The rank of an item in `order`.
pub fn item_rank(item: Item, order: &[Section]) -> (r: usize)
    ensures
        r == rank_key(item, order@),
        r <= order@.len(),
{
    match item.section {
        Some(s) => rank(s, order),
        None => order.len(),
    }
}

/// The test that picks bucket `r` out of a region.
pub open spec fn in_bucket(order: Seq<Section>, r: nat) -> spec_fn(Item) -> bool {
    |it: Item| rank_key(it, order) == r
}

/// The units of `region` whose rank is `r`, in source order.
pub open spec fn bucket(region: Seq<Item>, order: Seq<Section>, r: nat) -> Seq<Item> {
    region.filter(in_bucket(order, r))
}

/// Buckets `0 .. n` of `region`, one after another.
pub open spec fn drain_upto(region: Seq<Item>, order: Seq<Section>, n: nat) -> Seq<Item>
    decreases n,
{
    if n == 0 {
        Seq::empty()
    } else {
        drain_upto(region, order, (n - 1) as nat) + bucket(region, order, (n - 1) as nat)
    }
}

/// A region emitted in section order: every bucket of `order`, then the
/// guard bucket for a section `order` lacks, so that no unit is lost.
pub open spec fn drain(region: Seq<Item>, order: Seq<Section>) -> Seq<Item> {
    drain_upto(region, order, order.len() + 1)
}

/// The bucket sort of the item stream `items`, with the units of the
/// current region gathered in `region`: at each barrier the region is
/// drained and the barrier emitted in place.
pub open spec fn emit_from(items: Seq<Item>, region: Seq<Item>, order: Seq<Section>) -> Seq<Item>
    decreases items.len(),
{
    if items.len() == 0 {
        drain(region, order)
    } else if items[0].section is None {
        drain(region, order) + seq![items[0]] + emit_from(
            items.drop_first(),
            Seq::empty(),
            order,
        )
    } else {
        emit_from(items.drop_first(), region.push(items[0]), order)
    }
}

/// The reordered item stream.
pub open spec fn emitted(items: Seq<Item>, order: Seq<Section>) -> Seq<Item> {
    emit_from(items, Seq::empty(), order)
}

/// Append bucket `r` of `region` to `out`.
fn push_bucket(region: &Vec<Item>, order: &[Section], r: usize, out: &mut Vec<Item>)
    ensures
        final(out)@ == old(out)@ + bucket(region@, order@, r as nat),
{
    let ghost start = out@;
    let mut j: usize = 0;
    while j < region.len()
        invariant
            j <= region@.len(),
            out@ == start + region@.take(j as int).filter(in_bucket(order@, r as nat)),
        decreases region.len() - j,
    {
        let item = region[j];
        proof {
            assert(region@.take(j + 1) =~= region@.take(j as int).push(item));
            region@.take(j as int).lemma_filter_push(item, in_bucket(order@, r as nat));
        }
        if item_rank(item, order) == r {
            out.push(item);
        }
        j = j + 1;
    }
    proof {
        assert(region@.take(region@.len() as int) =~= region@);
    }
}

/// Emit `region`'s units into `out` in the section order, each section's
/// units in source order; the guard bucket catches a section the order
/// lacks.
fn drain_region(region: &Vec<Item>, order: &[Section], out: &mut Vec<Item>)
    ensures
        final(out)@ == old(out)@ + drain(region@, order@),
{
    let ghost start = out@;
    let n = order.len();
    let mut r: usize = 0;
    while r < n
        invariant
            r <= n,
            n == order@.len(),
            out@ == start + drain_upto(region@, order@, r as nat),
        decreases n - r,
    {
        push_bucket(region, order, r, out);
        proof {
            assert(drain_upto(region@, order@, (r + 1) as nat) == drain_upto(
                region@,
                order@,
                r as nat,
            ) + bucket(region@, order@, r as nat));
            assert(out@ =~= start + drain_upto(region@, order@, (r + 1) as nat));
        }
        r = r + 1;
    }
    push_bucket(region, order, n, out);
    proof {
        assert(drain_upto(region@, order@, (n + 1) as nat) == drain_upto(region@, order@, n as nat)
            + bucket(region@, order@, n as nat));
        assert(out@ =~= start + drain(region@, order@));
    }
}

/// The stable bucket sort: split the item stream on its barriers and, within
/// each region, emit each section of `order` in turn with its units in
/// source order. Every barrier stays where it stood.
pub fn bucket_emit(items: &Vec<Item>, order: &[Section]) -> (out: Vec<Item>)
    ensures
        out@ == emitted(items@, order@),
{
    let mut out: Vec<Item> = Vec::new();
    let mut region: Vec<Item> = Vec::new();
    let mut i: usize = 0;
    proof {
        assert(items@.skip(0) =~= items@);
        assert(out@ + emit_from(items@.skip(0), region@, order@) =~= emitted(items@, order@));
    }
    while i < items.len()
        invariant
            i <= items@.len(),
            out@ + emit_from(items@.skip(i as int), region@, order@) == emitted(items@, order@),
        decreases items.len() - i,
    {
        let item = items[i];
        let ghost rest = items@.skip(i as int);
        proof {
            assert(rest[0] == item);
            assert(rest.drop_first() =~= items@.skip(i + 1));
        }
        if item.section.is_none() {
            let ghost before = out@;
            let ghost reg = region@;
            drain_region(&region, order, &mut out);
            out.push(item);
            region = Vec::new();
            proof {
                assert(emit_from(rest, reg, order@) == drain(reg, order@) + seq![item]
                    + emit_from(items@.skip(i + 1), Seq::empty(), order@));
                assert(out@ + emit_from(items@.skip(i + 1), region@, order@) =~= before + (
                drain(reg, order@) + seq![item] + emit_from(
                    items@.skip(i + 1),
                    Seq::empty(),
                    order@,
                )));
            }
        } else {
            let ghost reg = region@;
            region.push(item);
            proof {
                assert(emit_from(rest, reg, order@) == emit_from(
                    items@.skip(i + 1),
                    reg.push(item),
                    order@,
                ));
            }
        }
        i = i + 1;
    }
    let ghost before = out@;
    proof {
        assert(items@.skip(i as int).len() == 0);
        assert(emit_from(items@.skip(i as int), region@, order@) == drain(region@, order@));
    }
    drain_region(&region, order, &mut out);
    out
}


/// The items of `s` stand in strictly increasing source order.
pub open spec fn increasing(s: Seq<Item>) -> bool {
    forall|i: int, j: int| 0 <= i < j < s.len() ==> #[trigger] s[i].offset < #[trigger] s[j].offset
}

/// Every item of `s` is a unit.
pub open spec fn all_units(s: Seq<Item>) -> bool {
    forall|i: int| 0 <= i < s.len() ==> (#[trigger] s[i]).section is Some
}

proof fn lemma_filter_all(s: Seq<Item>, p: spec_fn(Item) -> bool)
    requires
        forall|i: int| 0 <= i < s.len() ==> p(#[trigger] s[i]),
    ensures
        s.filter(p) == s,
    decreases s.len(),
{
    reveal(Seq::filter);
    if s.len() > 0 {
        lemma_filter_all(s.drop_last(), p);
        assert(s.drop_last().push(s.last()) =~= s);
    }
}

proof fn lemma_filter_none(s: Seq<Item>, p: spec_fn(Item) -> bool)
    requires
        forall|i: int| 0 <= i < s.len() ==> !p(#[trigger] s[i]),
    ensures
        s.filter(p) == Seq::<Item>::empty(),
    decreases s.len(),
{
    reveal(Seq::filter);
    if s.len() > 0 {
        lemma_filter_none(s.drop_last(), p);
    }
}

proof fn lemma_filter_increasing(s: Seq<Item>, p: spec_fn(Item) -> bool)
    requires
        increasing(s),
    ensures
        increasing(s.filter(p)),
        forall|k: int| 0 <= k < s.filter(p).len() ==> s.contains(#[trigger] s.filter(p)[k]),
    decreases s.len(),
{
    reveal(Seq::filter);
    if s.len() > 0 {
        let s0 = s.drop_last();
        let f0 = s0.filter(p);
        lemma_filter_increasing(s0, p);
        assert forall|k: int| 0 <= k < f0.len() implies #[trigger] f0[k].offset < s.last().offset by {
            assert(s0.contains(f0[k]));
            let i = choose|i: int| 0 <= i < s0.len() && s0[i] == f0[k];
            assert(s[i] == f0[k]);
        }
        assert forall|k: int| 0 <= k < f0.len() implies s.contains(#[trigger] f0[k]) by {
            assert(s0.contains(f0[k]));
            let i = choose|i: int| 0 <= i < s0.len() && s0[i] == f0[k];
            assert(s[i] == f0[k]);
        }
        if p(s.last()) {
            let f = f0.push(s.last());
            assert(s.filter(p) == f);
            assert forall|i: int, j: int| 0 <= i < j < f.len() implies #[trigger] f[i].offset
                < #[trigger] f[j].offset by {
                if j == f.len() - 1 {
                    assert(f[i] == f0[i]);
                } else {
                    assert(f[i] == f0[i] && f[j] == f0[j]);
                }
            }
            assert forall|k: int| 0 <= k < f.len() implies s.contains(#[trigger] f[k]) by {
                if k == f.len() - 1 {
                    assert(s[s.len() - 1] == f[k]);
                } else {
                    assert(f[k] == f0[k]);
                }
            }
        }
    }
}

proof fn lemma_bucket_ranks(region: Seq<Item>, order: Seq<Section>, r: nat)
    ensures
        forall|k: int|
            0 <= k < bucket(region, order, r).len() ==> rank_key(
                #[trigger] bucket(region, order, r)[k],
                order,
            ) == r,
{
    broadcast use Seq::lemma_filter_pred;

    assert forall|k: int| 0 <= k < bucket(region, order, r).len() implies rank_key(
        #[trigger] bucket(region, order, r)[k],
        order,
    ) == r by {
        region.lemma_filter_pred(in_bucket(order, r), k);
    }
}

proof fn lemma_bucket_units(region: Seq<Item>, order: Seq<Section>, r: nat)
    requires
        all_units(region),
    ensures
        all_units(bucket(region, order, r)),
{
    let b = bucket(region, order, r);
    assert forall|k: int| 0 <= k < b.len() implies (#[trigger] b[k]).section is Some by {
        assert(b.contains(b[k]));
        region.lemma_filter_contains_rev(in_bucket(order, r), b[k]);
    }
}

proof fn lemma_drain_upto_facts(region: Seq<Item>, order: Seq<Section>, n: nat)
    ensures
        forall|k: int|
            0 <= k < drain_upto(region, order, n).len() ==> rank_key(
                #[trigger] drain_upto(region, order, n)[k],
                order,
            ) < n,
        all_units(region) ==> all_units(drain_upto(region, order, n)),
    decreases n,
{
    if n > 0 {
        let m = (n - 1) as nat;
        lemma_drain_upto_facts(region, order, m);
        lemma_bucket_ranks(region, order, m);
        let d0 = drain_upto(region, order, m);
        let b = bucket(region, order, m);
        let d = drain_upto(region, order, n);
        assert(d == d0 + b);
        assert forall|k: int| 0 <= k < d.len() implies rank_key(#[trigger] d[k], order) < n by {
            if k < d0.len() {
                assert(d[k] == d0[k]);
            } else {
                assert(d[k] == b[k - d0.len()]);
            }
        }
        if all_units(region) {
            lemma_bucket_units(region, order, m);
            assert forall|k: int| 0 <= k < d.len() implies (#[trigger] d[k]).section is Some by {
                if k < d0.len() {
                    assert(d[k] == d0[k]);
                } else {
                    assert(d[k] == b[k - d0.len()]);
                }
            }
        }
    }
}

proof fn lemma_drain_upto_push(region: Seq<Item>, x: Item, order: Seq<Section>, n: nat)
    ensures
        drain_upto(region.push(x), order, n).to_multiset() == if rank_key(x, order) < n {
            drain_upto(region, order, n).to_multiset().insert(x)
        } else {
            drain_upto(region, order, n).to_multiset()
        },
    decreases n,
{
    broadcast use vstd::multiset::group_multiset_axioms;
    broadcast use vstd::seq_lib::lemma_multiset_commutative;
    broadcast use vstd::seq_lib::to_multiset_build;

    let r2 = region.push(x);
    if n == 0 {
        assert(drain_upto(r2, order, n).to_multiset() =~= drain_upto(
            region,
            order,
            n,
        ).to_multiset());
    } else {
        let m = (n - 1) as nat;
        lemma_drain_upto_push(region, x, order, m);
        region.lemma_filter_push(x, in_bucket(order, m));
        let a0 = drain_upto(region, order, m);
        let a1 = drain_upto(r2, order, m);
        let b0 = bucket(region, order, m);
        let b1 = bucket(r2, order, m);
        assert(drain_upto(r2, order, n) == a1 + b1);
        assert(drain_upto(region, order, n) == a0 + b0);
        if rank_key(x, order) < m {
            assert((a1 + b1).to_multiset() =~= (a0 + b0).to_multiset().insert(x));
        } else if rank_key(x, order) == m {
            assert(b1 == b0.push(x));
            assert((a1 + b1).to_multiset() =~= (a0 + b0).to_multiset().insert(x));
        } else {
            assert((a1 + b1).to_multiset() =~= (a0 + b0).to_multiset());
        }
    }
}

proof fn lemma_drain_upto_empty(order: Seq<Section>, n: nat)
    ensures
        drain_upto(Seq::<Item>::empty(), order, n) == Seq::<Item>::empty(),
    decreases n,
{
    reveal(Seq::filter);
    if n > 0 {
        lemma_drain_upto_empty(order, (n - 1) as nat);
        assert(drain_upto(Seq::<Item>::empty(), order, n) =~= Seq::<Item>::empty());
    }
}

proof fn lemma_drain_multiset(region: Seq<Item>, order: Seq<Section>)
    ensures
        drain(region, order).to_multiset() == region.to_multiset(),
        drain(region, order).len() == region.len(),
    decreases region.len(),
{
    broadcast use vstd::multiset::group_multiset_axioms;
    broadcast use vstd::seq_lib::to_multiset_build;
    broadcast use vstd::seq_lib::to_multiset_len;

    if region.len() == 0 {
        lemma_drain_upto_empty(order, order.len() + 1);
        assert(region =~= Seq::<Item>::empty());
    } else {
        let r0 = region.drop_last();
        let x = region.last();
        assert(r0.push(x) =~= region);
        lemma_drain_multiset(r0, order);
        match x.section {
            Some(s) => lemma_rank_bound(s, order),
            None => {},
        }
        lemma_drain_upto_push(r0, x, order, order.len() + 1);
    }
    vstd::seq_lib::to_multiset_len(drain(region, order));
    vstd::seq_lib::to_multiset_len(region);
}

proof fn lemma_empty_multiset(s: Seq<Item>)
    requires
        s.len() == 0,
    ensures
        s.to_multiset() == Multiset::<Item>::empty(),
{
    broadcast use vstd::multiset::group_multiset_axioms;
    broadcast use vstd::seq_lib::to_multiset_contains;

    assert forall|a: Item| s.to_multiset().count(a) == 0 by {
        assert(!s.contains(a));
    }
    assert(s.to_multiset() =~= Multiset::<Item>::empty());
}

proof fn lemma_emit_multiset(items: Seq<Item>, region: Seq<Item>, order: Seq<Section>)
    ensures
        emit_from(items, region, order).to_multiset() == region.to_multiset().add(
            items.to_multiset(),
        ),
    decreases items.len(),
{
    broadcast use vstd::multiset::group_multiset_axioms;
    broadcast use vstd::seq_lib::lemma_multiset_commutative;
    broadcast use vstd::seq_lib::to_multiset_build;

    lemma_drain_multiset(region, order);
    if items.len() == 0 {
        lemma_empty_multiset(items);
        assert(region.to_multiset().add(items.to_multiset()) =~= region.to_multiset());
    } else {
        let rest = items.drop_first();
        assert(items =~= seq![items[0]] + rest);
        assert(seq![items[0]] =~= Seq::<Item>::empty().push(items[0]));
        if items[0].section is None {
            lemma_emit_multiset(rest, Seq::empty(), order);
            lemma_empty_multiset(Seq::<Item>::empty());
            assert(emit_from(items, region, order).to_multiset() =~= region.to_multiset().add(
                items.to_multiset(),
            ));
        } else {
            lemma_emit_multiset(rest, region.push(items[0]), order);
            lemma_empty_multiset(Seq::<Item>::empty());
            assert(emit_from(items, region, order) == emit_from(rest, region.push(items[0]), order));
            assert(items.to_multiset() =~= rest.to_multiset().insert(items[0]));
            assert(emit_from(items, region, order).to_multiset() =~= region.to_multiset().add(
                items.to_multiset(),
            ));
        }
    }
}

proof fn lemma_emit_barrier(items: Seq<Item>, region: Seq<Item>, order: Seq<Section>, k: int)
    requires
        0 <= k < items.len(),
        items[k].section is None,
    ensures
        emit_from(items, region, order).len() > region.len() + k,
        emit_from(items, region, order)[region.len() + k] == items[k],
        emit_from(items, region, order).take(region.len() + k).to_multiset()
            == region.to_multiset().add(items.take(k).to_multiset()),
    decreases items.len(),
{
    broadcast use vstd::multiset::group_multiset_axioms;
    broadcast use vstd::seq_lib::lemma_multiset_commutative;
    broadcast use vstd::seq_lib::to_multiset_build;

    lemma_drain_multiset(region, order);
    let rest = items.drop_first();
    let out = emit_from(items, region, order);
    let n = region.len();
    if items[0].section is None {
        let d = drain(region, order);
        let e = emit_from(rest, Seq::empty(), order);
        assert(out == d + seq![items[0]] + e);
        if k == 0 {
            assert(out[n + k] == items[0]);
            assert(out.take(n + k) =~= d);
            assert(items.take(k) =~= Seq::<Item>::empty());
            lemma_empty_multiset(items.take(k));
            assert(region.to_multiset().add(items.take(k).to_multiset()) =~= region.to_multiset());
        } else {
            lemma_emit_barrier(rest, Seq::empty(), order, k - 1);
            assert(rest[k - 1] == items[k]);
            assert(out[n + k] == e[k - 1]);
            assert(out.take(n + k) =~= d + seq![items[0]] + e.take(k - 1));
            assert(items.take(k) =~= seq![items[0]] + rest.take(k - 1));
            assert(seq![items[0]] =~= Seq::<Item>::empty().push(items[0]));
            lemma_empty_multiset(Seq::<Item>::empty());
            assert(out.take(n + k).to_multiset() =~= region.to_multiset().add(
                items.take(k).to_multiset(),
            ));
        }
    } else {
        assert(k > 0);
        let r2 = region.push(items[0]);
        lemma_emit_barrier(rest, r2, order, k - 1);
        assert(rest[k - 1] == items[k]);
        assert(items.take(k) =~= seq![items[0]] + rest.take(k - 1));
        assert(seq![items[0]] =~= Seq::<Item>::empty().push(items[0]));
        lemma_empty_multiset(Seq::<Item>::empty());
        assert(out.take(n + k).to_multiset() =~= region.to_multiset().add(
            items.take(k).to_multiset(),
        ));
    }
}

/// The reorder is a permutation: it emits every item exactly once, drops
/// none and invents none.
pub proof fn lemma_reorder_permutes(items: Seq<Item>, order: Seq<Section>)
    ensures
        emitted(items, order).to_multiset() == items.to_multiset(),
        emitted(items, order).len() == items.len(),
{
    broadcast use vstd::multiset::group_multiset_axioms;
    broadcast use vstd::seq_lib::to_multiset_len;

    lemma_emit_multiset(items, Seq::empty(), order);
    lemma_empty_multiset(Seq::<Item>::empty());
    assert(Multiset::<Item>::empty().add(items.to_multiset()) =~= items.to_multiset());
    vstd::seq_lib::to_multiset_len(emitted(items, order));
    vstd::seq_lib::to_multiset_len(items);
}

/// A barrier never moves, and no unit crosses one: the barrier at position
/// `p` is still at `p`, and the items before it are the same items as
/// before.
pub proof fn lemma_reorder_holds_barriers(items: Seq<Item>, order: Seq<Section>, p: int)
    requires
        0 <= p < items.len(),
        items[p].section is None,
    ensures
        emitted(items, order)[p] == items[p],
        emitted(items, order).take(p).to_multiset() == items.take(p).to_multiset(),
{
    broadcast use vstd::multiset::group_multiset_axioms;

    lemma_emit_barrier(items, Seq::empty(), order, p);
    lemma_empty_multiset(Seq::<Item>::empty());
    assert(Multiset::<Item>::empty().add(items.take(p).to_multiset()) =~= items.take(
        p,
    ).to_multiset());
}

/// `d` runs by rank in `order`, and units of equal rank stand in source
/// order.
pub open spec fn in_section_order(d: Seq<Item>, order: Seq<Section>) -> bool {
    forall|i: int, j: int|
        0 <= i < j < d.len() ==> {
            &&& rank_key(#[trigger] d[i], order) <= rank_key(#[trigger] d[j], order)
            &&& rank_key(d[i], order) == rank_key(d[j], order) ==> d[i].offset < d[j].offset
        }
}

proof fn lemma_drain_upto_sorted(region: Seq<Item>, order: Seq<Section>, n: nat)
    requires
        increasing(region),
    ensures
        in_section_order(drain_upto(region, order, n), order),
    decreases n,
{
    if n > 0 {
        let m = (n - 1) as nat;
        lemma_drain_upto_sorted(region, order, m);
        lemma_drain_upto_facts(region, order, m);
        lemma_bucket_ranks(region, order, m);
        lemma_filter_increasing(region, in_bucket(order, m));
        let d0 = drain_upto(region, order, m);
        let b = bucket(region, order, m);
        let d = drain_upto(region, order, n);
        assert(d == d0 + b);
        assert forall|i: int, j: int| 0 <= i < j < d.len() implies {
            &&& rank_key(#[trigger] d[i], order) <= rank_key(#[trigger] d[j], order)
            &&& rank_key(d[i], order) == rank_key(d[j], order) ==> d[i].offset < d[j].offset
        } by {
            if j < d0.len() {
                assert(d[i] == d0[i] && d[j] == d0[j]);
            } else if i < d0.len() {
                assert(d[i] == d0[i] && d[j] == b[j - d0.len()]);
            } else {
                assert(d[i] == b[i - d0.len()] && d[j] == b[j - d0.len()]);
            }
        }
    }
}

/// Within a region the units come out by section, in the order's sequence,
/// and units of one section keep their source order: the sort is stable.
pub proof fn lemma_region_in_order(region: Seq<Item>, order: Seq<Section>)
    requires
        increasing(region),
    ensures
        in_section_order(drain(region, order), order),
{
    lemma_drain_upto_sorted(region, order, order.len() + 1);
}

proof fn lemma_bucket_of_bucket(region: Seq<Item>, order: Seq<Section>, r: nat, s: nat)
    ensures
        bucket(bucket(region, order, s), order, r) == if r == s {
            bucket(region, order, s)
        } else {
            Seq::<Item>::empty()
        },
{
    lemma_bucket_ranks(region, order, s);
    let b = bucket(region, order, s);
    if r == s {
        lemma_filter_all(b, in_bucket(order, r));
    } else {
        lemma_filter_none(b, in_bucket(order, r));
    }
}

proof fn lemma_bucket_of_drain_upto(region: Seq<Item>, order: Seq<Section>, r: nat, n: nat)
    ensures
        bucket(drain_upto(region, order, n), order, r) == if r < n {
            bucket(region, order, r)
        } else {
            Seq::<Item>::empty()
        },
    decreases n,
{
    reveal(Seq::filter);
    if n > 0 {
        let m = (n - 1) as nat;
        lemma_bucket_of_drain_upto(region, order, r, m);
        lemma_bucket_of_bucket(region, order, r, m);
        Seq::filter_distributes_over_add(
            drain_upto(region, order, m),
            bucket(region, order, m),
            in_bucket(order, r),
        );
        assert(bucket(drain_upto(region, order, n), order, r) =~= if r < n {
            bucket(region, order, r)
        } else {
            Seq::<Item>::empty()
        });
    }
}

proof fn lemma_drain_upto_of_drain(region: Seq<Item>, order: Seq<Section>, m: nat)
    requires
        m <= order.len() + 1,
    ensures
        drain_upto(drain(region, order), order, m) == drain_upto(region, order, m),
    decreases m,
{
    if m > 0 {
        let k = (m - 1) as nat;
        lemma_drain_upto_of_drain(region, order, k);
        lemma_bucket_of_drain_upto(region, order, k, order.len() + 1);
    }
}

proof fn lemma_emit_units_prefix(
    units: Seq<Item>,
    rest: Seq<Item>,
    region: Seq<Item>,
    order: Seq<Section>,
)
    requires
        all_units(units),
    ensures
        emit_from(units + rest, region, order) == emit_from(rest, region + units, order),
    decreases units.len(),
{
    if units.len() == 0 {
        assert(units + rest =~= rest);
        assert(region + units =~= region);
    } else {
        let u = units[0];
        let tail = units.drop_first();
        assert((units + rest)[0] == u);
        assert((units + rest).drop_first() =~= tail + rest);
        assert(all_units(tail)) by {
            assert forall|i: int| 0 <= i < tail.len() implies (#[trigger] tail[i]).section is Some by {
                assert(tail[i] == units[i + 1]);
            }
        }
        lemma_emit_units_prefix(tail, rest, region.push(u), order);
        assert(region.push(u) + tail =~= region + units);
    }
}

proof fn lemma_drain_fixed(region: Seq<Item>, order: Seq<Section>)
    requires
        all_units(region),
    ensures
        all_units(drain(region, order)),
        drain(drain(region, order), order) == drain(region, order),
{
    lemma_drain_upto_facts(region, order, order.len() + 1);
    lemma_drain_upto_of_drain(region, order, order.len() + 1);
}

proof fn lemma_emit_idempotent_end(region: Seq<Item>, order: Seq<Section>)
    requires
        all_units(region),
    ensures
        emit_from(drain(region, order), Seq::empty(), order) == drain(region, order),
{
    let d = drain(region, order);
    lemma_drain_fixed(region, order);
    lemma_emit_units_prefix(d, Seq::empty(), Seq::empty(), order);
    assert(d + Seq::<Item>::empty() =~= d);
    assert(Seq::<Item>::empty() + d =~= d);
    assert(emit_from(Seq::<Item>::empty(), d, order) == drain(d, order));
}

proof fn lemma_emit_barrier_step(b: Item, e: Seq<Item>, region: Seq<Item>, order: Seq<Section>)
    requires
        b.section is None,
    ensures
        emit_from(seq![b] + e, region, order) == drain(region, order) + seq![b] + emit_from(
            e,
            Seq::empty(),
            order,
        ),
{
    let tail = seq![b] + e;
    assert(tail.len() > 0 && tail[0] == b);
    assert(tail.drop_first() == e) by {
        assert(tail.drop_first() =~= e);
    }
}

#[verifier::spinoff_prover]
#[verifier::rlimit(30)]
proof fn lemma_emit_idempotent_barrier(
    region: Seq<Item>,
    b: Item,
    e: Seq<Item>,
    order: Seq<Section>,
)
    requires
        all_units(region),
        b.section is None,
        emit_from(e, Seq::empty(), order) == e,
    ensures
        emit_from(drain(region, order) + seq![b] + e, Seq::empty(), order) == drain(region, order)
            + seq![b] + e,
{
    let d = drain(region, order);
    lemma_drain_fixed(region, order);
    let tail = seq![b] + e;
    let x = d + seq![b] + e;
    assert(x == d + tail) by {
        assert(x =~= d + tail);
    }
    lemma_emit_units_prefix(d, tail, Seq::empty(), order);
    assert(Seq::<Item>::empty() + d == d) by {
        assert(Seq::<Item>::empty() + d =~= d);
    }
    assert(emit_from(x, Seq::empty(), order) == emit_from(tail, d, order));
    lemma_emit_barrier_step(b, e, d, order);
}

proof fn lemma_emit_idempotent(items: Seq<Item>, region: Seq<Item>, order: Seq<Section>)
    requires
        all_units(region),
    ensures
        emit_from(emit_from(items, region, order), Seq::empty(), order) == emit_from(
            items,
            region,
            order,
        ),
    decreases items.len(),
{
    if items.len() == 0 {
        lemma_emit_idempotent_end(region, order);
    } else if items[0].section is None {
        let rest = items.drop_first();
        lemma_emit_idempotent(rest, Seq::empty(), order);
        lemma_emit_idempotent_barrier(region, items[0], emit_from(rest, Seq::empty(), order), order);
    } else {
        let r2 = region.push(items[0]);
        assert(all_units(r2)) by {
            assert forall|i: int| 0 <= i < r2.len() implies (#[trigger] r2[i]).section is Some by {
                if i < region.len() {
                    assert(r2[i] == region[i]);
                }
            }
        }
        lemma_emit_idempotent(items.drop_first(), r2, order);
    }
}

/// Reordering is idempotent: reordering the reordered stream changes
/// nothing.
pub proof fn lemma_reorder_idempotent(items: Seq<Item>, order: Seq<Section>)
    ensures
        emitted(emitted(items, order), order) == emitted(items, order),
{
    lemma_emit_idempotent(items, Seq::empty(), order);
}

/// No barrier stands in `d` from `i` through `j`.
pub open spec fn unbroken(d: Seq<Item>, i: int, j: int) -> bool {
    forall|k: int| i <= k <= j ==> (#[trigger] d[k]).section is Some
}

/// Between any two barriers of `d`, the units run by section in the
/// order's sequence, and units of one section keep their source order.
pub open spec fn sorted_between_barriers(d: Seq<Item>, order: Seq<Section>) -> bool {
    forall|i: int, j: int|
        0 <= i < j < d.len() && unbroken(d, i, j) ==> {
            &&& rank_key(#[trigger] d[i], order) <= rank_key(#[trigger] d[j], order)
            &&& rank_key(d[i], order) == rank_key(d[j], order) ==> d[i].offset < d[j].offset
        }
}

proof fn lemma_emit_sorted(items: Seq<Item>, region: Seq<Item>, order: Seq<Section>)
    requires
        increasing(region + items),
    ensures
        sorted_between_barriers(emit_from(items, region, order), order),
    decreases items.len(),
{
    let d = emit_from(items, region, order);
    if items.len() == 0 {
        assert(region + items =~= region);
        lemma_region_in_order(region, order);
    } else if items[0].section is None {
        assert forall|i: int, j: int| 0 <= i < j < region.len() implies #[trigger] region[i].offset
            < #[trigger] region[j].offset by {
            assert((region + items)[i] == region[i] && (region + items)[j] == region[j]);
        }
        lemma_region_in_order(region, order);
        let rest = items.drop_first();
        assert forall|i: int, j: int| 0 <= i < j < rest.len() implies #[trigger] rest[i].offset
            < #[trigger] rest[j].offset by {
            assert((region + items)[region.len() + 1 + i] == rest[i]);
            assert((region + items)[region.len() + 1 + j] == rest[j]);
        }
        assert(Seq::<Item>::empty() + rest =~= rest);
        lemma_emit_sorted(rest, Seq::empty(), order);
        let dr = drain(region, order);
        let tail = emit_from(rest, Seq::empty(), order);
        assert(d == dr + seq![items[0]] + tail);
        let n = dr.len() as int;
        assert(d[n] == items[0]);
        assert forall|i: int, j: int| 0 <= i < j < d.len() && unbroken(d, i, j) implies {
            &&& rank_key(#[trigger] d[i], order) <= rank_key(#[trigger] d[j], order)
            &&& rank_key(d[i], order) == rank_key(d[j], order) ==> d[i].offset < d[j].offset
        } by {
            if j < n {
                assert(d[i] == dr[i] && d[j] == dr[j]);
            } else if i > n {
                assert(d[i] == tail[i - n - 1] && d[j] == tail[j - n - 1]);
                assert forall|k: int| i - n - 1 <= k <= j - n - 1 implies (#[trigger] tail[k]).section
                    is Some by {
                    assert(d[k + n + 1] == tail[k]);
                }
                assert(unbroken(tail, i - n - 1, j - n - 1));
            } else {
                assert(d[n].section is None);
            }
        }
    } else {
        assert(region.push(items[0]) + items.drop_first() =~= region + items);
        lemma_emit_sorted(items.drop_first(), region.push(items[0]), order);
    }
}

/// Between two barriers the reordered stream runs by section, in the
/// order's sequence, and units of one section keep their source order.
pub proof fn lemma_reorder_in_order(items: Seq<Item>, order: Seq<Section>)
    requires
        increasing(items),
    ensures
        sorted_between_barriers(emitted(items, order), order),
{
    assert(Seq::<Item>::empty() + items =~= items);
    lemma_emit_sorted(items, Seq::empty(), order);
}

/// The top-level statements `a` and the program-level floating comments
/// `b`, each in source order, merged into one stream by start offset; on a
/// tie the statement comes first.
pub open spec fn merged(a: Seq<Item>, b: Seq<Item>) -> Seq<Item>
    decreases a.len() + b.len(),
{
    if a.len() == 0 {
        b
    } else if b.len() == 0 {
        a
    } else if a[0].offset <= b[0].offset {
        seq![a[0]] + merged(a.drop_first(), b)
    } else {
        seq![b[0]] + merged(a, b.drop_first())
    }
}

/// For each item of `merged(a, b)`, whether it came from `a`.
pub open spec fn merged_from(a: Seq<Item>, b: Seq<Item>) -> Seq<bool>
    decreases a.len() + b.len(),
{
    if a.len() == 0 {
        Seq::new(b.len(), |k: int| false)
    } else if b.len() == 0 {
        Seq::new(a.len(), |k: int| true)
    } else if a[0].offset <= b[0].offset {
        seq![true] + merged_from(a.drop_first(), b)
    } else {
        seq![false] + merged_from(a, b.drop_first())
    }
}

/// No statement starts where a floating comment does.
pub open spec fn apart(a: Seq<Item>, b: Seq<Item>) -> bool {
    forall|i: int, j: int| 0 <= i < a.len() && 0 <= j < b.len() ==> #[trigger] a[i].offset != #[trigger] b[j].offset
}

proof fn lemma_merged_bound(a: Seq<Item>, b: Seq<Item>, lo: int)
    requires
        forall|i: int| 0 <= i < a.len() ==> (#[trigger] a[i]).offset >= lo,
        forall|j: int| 0 <= j < b.len() ==> (#[trigger] b[j]).offset >= lo,
    ensures
        merged(a, b).len() == a.len() + b.len(),
        forall|k: int| 0 <= k < merged(a, b).len() ==> (#[trigger] merged(a, b)[k]).offset >= lo,
    decreases a.len() + b.len(),
{
    if a.len() > 0 && b.len() > 0 {
        if a[0].offset <= b[0].offset {
            lemma_merged_bound(a.drop_first(), b, lo);
        } else {
            lemma_merged_bound(a, b.drop_first(), lo);
        }
    }
}

/// Merging two runs in increasing source order whose items never share an
/// offset gives a run in increasing source order.
proof fn lemma_merged_increasing(a: Seq<Item>, b: Seq<Item>)
    requires
        increasing(a),
        increasing(b),
        apart(a, b),
    ensures
        increasing(merged(a, b)),
    decreases a.len() + b.len(),
{
    let m = merged(a, b);
    if a.len() > 0 && b.len() > 0 {
        if a[0].offset <= b[0].offset {
            let (a1, x) = (a.drop_first(), a[0]);
            lemma_merged_increasing(a1, b);
            assert forall|j: int| 0 <= j < b.len() implies (#[trigger] b[j]).offset >= x.offset + 1 by {
                assert(a[0].offset != b[j].offset);
                if j > 0 {
                    assert(b[0].offset < b[j].offset);
                }
            }
            assert forall|i: int| 0 <= i < a1.len() implies (#[trigger] a1[i]).offset >= x.offset + 1 by {
                assert(a[0].offset < a[i + 1].offset);
            }
            lemma_merged_bound(a1, b, x.offset + 1);
            let rest = merged(a1, b);
            assert forall|i: int, j: int| 0 <= i < j < m.len() implies #[trigger] m[i].offset < #[trigger] m[j].offset by {
                if i == 0 {
                    assert(m[j] == rest[j - 1]);
                } else {
                    assert(m[i] == rest[i - 1] && m[j] == rest[j - 1]);
                }
            }
        } else {
            let (b1, y) = (b.drop_first(), b[0]);
            lemma_merged_increasing(a, b1);
            assert forall|i: int| 0 <= i < a.len() implies (#[trigger] a[i]).offset >= y.offset + 1 by {
                if i > 0 {
                    assert(a[0].offset < a[i].offset);
                }
            }
            assert forall|j: int| 0 <= j < b1.len() implies (#[trigger] b1[j]).offset >= y.offset + 1 by {
                assert(b[0].offset < b[j + 1].offset);
            }
            lemma_merged_bound(a, b1, y.offset + 1);
            let rest = merged(a, b1);
            assert forall|i: int, j: int| 0 <= i < j < m.len() implies #[trigger] m[i].offset < #[trigger] m[j].offset by {
                if i == 0 {
                    assert(m[j] == rest[j - 1]);
                } else {
                    assert(m[i] == rest[i - 1] && m[j] == rest[j - 1]);
                }
            }
        }
    }
}

/// The reorder's item stream, and for each item whether it is a statement.
pub struct Stream {
    pub items: Vec<Item>,
    pub from_statements: Vec<bool>,
}

/// Merge the top-level statements and the program-level floating comments,
/// each given in source order, into the item stream by start offset. Runs
/// in increasing source order that never share an offset give a stream in
/// increasing source order.
pub fn stream(statements: &Vec<Item>, dangling: &Vec<Item>) -> (s: Stream)
    ensures
        s.items@ == merged(statements@, dangling@),
        s.from_statements@ == merged_from(statements@, dangling@),
        increasing(statements@) && increasing(dangling@) && apart(statements@, dangling@)
            ==> increasing(s.items@),
{
    let ghost a = statements@;
    let ghost b = dangling@;
    let mut items: Vec<Item> = Vec::new();
    let mut from: Vec<bool> = Vec::new();
    let mut i: usize = 0;
    let mut j: usize = 0;
    proof {
        assert(a.skip(0) =~= a);
        assert(b.skip(0) =~= b);
        assert(items@ + merged(a, b) =~= merged(a, b));
        assert(from@ + merged_from(a, b) =~= merged_from(a, b));
    }
    while i < statements.len() || j < dangling.len()
        invariant
            a == statements@,
            b == dangling@,
            i <= a.len(),
            j <= b.len(),
            items@ + merged(a.skip(i as int), b.skip(j as int)) == merged(a, b),
            from@ + merged_from(a.skip(i as int), b.skip(j as int)) == merged_from(a, b),
        decreases a.len() - i + b.len() - j,
    {
        let ghost x = a.skip(i as int);
        let ghost y = b.skip(j as int);
        if j >= dangling.len() || (i < statements.len() && statements[i].offset <= dangling[j].offset) {
            proof {
                assert(x.drop_first() =~= a.skip(i + 1));
                if y.len() == 0 {
                    assert(merged(x, y) =~= seq![x[0]] + merged(x.drop_first(), y));
                    assert(merged_from(x, y) =~= seq![true] + merged_from(x.drop_first(), y));
                }
            }
            items.push(statements[i]);
            from.push(true);
            i = i + 1;
            proof {
                assert(items@ + merged(a.skip(i as int), y) =~= merged(a, b));
                assert(from@ + merged_from(a.skip(i as int), y) =~= merged_from(a, b));
            }
        } else {
            proof {
                assert(y.drop_first() =~= b.skip(j + 1));
                if x.len() == 0 {
                    assert(merged(x, y) =~= seq![y[0]] + merged(x, y.drop_first()));
                    assert(merged_from(x, y) =~= seq![false] + merged_from(x, y.drop_first()));
                }
            }
            items.push(dangling[j]);
            from.push(false);
            j = j + 1;
            proof {
                assert(items@ + merged(x, b.skip(j as int)) =~= merged(a, b));
                assert(from@ + merged_from(x, b.skip(j as int)) =~= merged_from(a, b));
            }
        }
    }
    proof {
        assert(a.skip(i as int) =~= Seq::<Item>::empty());
        assert(b.skip(j as int) =~= Seq::<Item>::empty());
        assert(items@ =~= merged(a, b));
        assert(from@ =~= merged_from(a, b));
        if increasing(a) && increasing(b) && apart(a, b) {
            lemma_merged_increasing(a, b);
        }
    }
    Stream { items, from_statements: from }
}

/// The start offsets of an item stream.
pub open spec fn offsets(s: Seq<Item>) -> Seq<u32> {
    s.map_values(|it: Item| it.offset)
}

/// The first index at or after `i` where `x` stands in `s`.
pub open spec fn first_index_from(s: Seq<u32>, x: u32, i: int) -> Option<int>
    decreases s.len() - i,
{
    if i < 0 || i >= s.len() {
        None
    } else if s[i] == x {
        Some(i)
    } else {
        first_index_from(s, x, i + 1)
    }
}

/// The first index where `x` stands in `s`.
pub open spec fn first_index(s: Seq<u32>, x: u32) -> Option<int> {
    first_index_from(s, x, 0)
}

/// The first position of `x` in `s`.
fn position(s: &Vec<u32>, x: u32) -> (r: Option<usize>)
    ensures
        r matches Some(i) ==> first_index(s@, x) == Some(i as int),
        r is None ==> first_index(s@, x) is None,
{
    let mut i: usize = 0;
    while i < s.len()
        invariant
            i <= s@.len(),
            first_index(s@, x) == first_index_from(s@, x, i as int),
        decreases s.len() - i,
    {
        if s[i] == x {
            return Some(i);
        }
        i = i + 1;
    }
    None
}

/// The start offsets of `items`.
fn offsets_of(items: &Vec<Item>) -> (r: Vec<u32>)
    ensures
        r@ == offsets(items@),
{
    let mut r: Vec<u32> = Vec::new();
    let mut i: usize = 0;
    while i < items.len()
        invariant
            i <= items@.len(),
            r@ == offsets(items@.take(i as int)),
        decreases items.len() - i,
    {
        proof {
            assert(offsets(items@.take(i + 1)) =~= offsets(items@.take(i as int)).push(
                items@[i as int].offset,
            ));
        }
        r.push(items[i].offset);
        i = i + 1;
    }
    proof {
        assert(items@.take(items@.len() as int) =~= items@);
    }
    r
}

/// Whether two offset runs are equal.
fn same_offsets(a: &Vec<u32>, b: &Vec<u32>) -> (r: bool)
    ensures
        r == (a@ == b@),
{
    if a.len() != b.len() {
        return false;
    }
    let mut i: usize = 0;
    while i < a.len()
        invariant
            i <= a@.len(),
            a@.len() == b@.len(),
            forall|k: int| 0 <= k < i ==> a@[k] == b@[k],
        decreases a.len() - i,
    {
        if a[i] != b[i] {
            return false;
        }
        i = i + 1;
    }
    assert(a@ =~= b@);
    true
}

/// The test for an `#include` unit that the reorder moved: its position in
/// the stream before differs from its position after.
pub open spec fn moved_include(before: Seq<Item>, after: Seq<Item>) -> spec_fn(Item) -> bool {
    |it: Item|
        it.section == Some(Section::Include) && first_index(offsets(before), it.offset)
            != first_index(offsets(after), it.offset)
}

/// The reorder's decision over an item stream: the reordered stream, where
/// each of its items stood in the source stream, whether any item moved, and
/// the `#include` units that were hoisted, in source order.
pub struct ReorderPlan {
    pub items: Vec<Item>,
    pub sources: Vec<usize>,
    pub moved: bool,
    pub hoisted: Vec<Item>,
}

/// Where `it` stands in `items`.
fn source_of(items: &Vec<Item>, it: Item) -> (r: usize)
    requires
        items@.contains(it),
    ensures
        r < items@.len(),
        items@[r as int] == it,
{
    let mut i: usize = 0;
    while i < items.len()
        invariant
            i <= items@.len(),
            items@.contains(it),
            forall|j: int| 0 <= j < i ==> items@[j] != it,
        decreases items.len() - i,
    {
        if items[i] == it {
            return i;
        }
        i = i + 1;
    }
    i
}

/// Reorder the item stream under the active section order and learn what
/// moved. A program that is all barriers or already in order moves nothing.
pub fn plan_reorder(items: &Vec<Item>, reorder_includes: bool) -> (p: ReorderPlan)
    ensures
        p.items@ == emitted(items@, order_spec(reorder_includes)),
        p.sources@.len() == p.items@.len(),
        forall|k: int|
            0 <= k < p.items@.len() ==> p.sources@[k] < items@.len() && items@[p.sources@[k] as int]
                == p.items@[k],
        p.moved == (offsets(items@) != offsets(p.items@)),
        p.hoisted@ == items@.filter(moved_include(items@, p.items@)),
{
    let order = order(reorder_includes);
    let after = bucket_emit(items, order.as_slice());
    let before_offsets = offsets_of(items);
    let after_offsets = offsets_of(&after);
    let moved = !same_offsets(&before_offsets, &after_offsets);
    let ghost pred = moved_include(items@, after@);
    let mut hoisted: Vec<Item> = Vec::new();
    let mut i: usize = 0;
    while i < items.len()
        invariant
            i <= items@.len(),
            before_offsets@ == offsets(items@),
            after_offsets@ == offsets(after@),
            pred == moved_include(items@, after@),
            hoisted@ == items@.take(i as int).filter(pred),
        decreases items.len() - i,
    {
        let item = items[i];
        proof {
            assert(items@.take(i + 1) =~= items@.take(i as int).push(item));
            items@.take(i as int).lemma_filter_push(item, pred);
        }
        if item.section == Some(Section::Include) {
            let a = position(&before_offsets, item.offset);
            let b = position(&after_offsets, item.offset);
            if a != b {
                hoisted.push(item);
            }
        }
        i = i + 1;
    }
    proof {
        assert(items@.take(items@.len() as int) =~= items@);
        lemma_reorder_permutes(items@, order@);
        items@.to_multiset_ensures();
        after@.to_multiset_ensures();
        assert forall|x: Item| after@.contains(x) implies items@.contains(x) by {
            assert(after@.to_multiset().count(x) > 0);
        }
    }
    let mut sources: Vec<usize> = Vec::new();
    let mut k: usize = 0;
    while k < after.len()
        invariant
            k <= after@.len(),
            sources@.len() == k,
            forall|x: Item| after@.contains(x) ==> items@.contains(x),
            forall|j: int|
                #![trigger sources@[j]]
                0 <= j < k ==> sources@[j] < items@.len() && items@[sources@[j] as int] == after@[j],
        decreases after.len() - k,
    {
        proof {
            assert(after@.contains(after@[k as int]));
        }
        let s = source_of(items, after[k]);
        let ghost before = sources@;
        sources.push(s);
        proof {
            assert forall|j: int| 0 <= j < k + 1 implies sources@[j] < items@.len()
                && items@[sources@[j] as int] == after@[j] by {
                if j < k {
                    assert(sources@[j] == before[j]);
                }
            }
        }
        k = k + 1;
    }
    ReorderPlan { items: after, sources, moved, hoisted }
}

/// The weaker of two certificates: `UpToSpelling` is weaker than
/// `LayoutOnly`, so any canonicalized unit weakens the whole claim.
pub open spec fn weaker_spec(left: Certificate, right: Certificate) -> Certificate {
    if left == Certificate::UpToSpelling || right == Certificate::UpToSpelling {
        Certificate::UpToSpelling
    } else {
        Certificate::LayoutOnly
    }
}

/// The weaker of two certificates.
pub fn weaker(left: Certificate, right: Certificate) -> (r: Certificate)
    ensures
        r == weaker_spec(left, right),
{
    match (left, right) {
        (Certificate::UpToSpelling, _) | (_, Certificate::UpToSpelling) => Certificate::UpToSpelling,
        (Certificate::LayoutOnly, Certificate::LayoutOnly) => Certificate::LayoutOnly,
    }
}

/// One rendered item of the reordered stream: a unit or held statement,
/// formatted as its own one-statement program, or a floating comment.
pub enum Piece {
    /// A formatted statement with the certificate it earned and its notes.
    Statement { text: String, certificate: Certificate, notes: Vec<Diagnostic> },
    /// A program-level floating comment, verbatim.
    Dangling { comment: String },
}

/// Whether `t` ends in a blank line.
pub open spec fn ends_blank(t: Seq<char>) -> bool {
    t.len() >= 2 && t[t.len() - 1] == '\n' && t[t.len() - 2] == '\n'
}

/// Append a floating comment with a blank line on each side — a blank
/// before unless the text is empty or already ends blank — so that it
/// re-parses floating rather than attached to a neighbour. Its trailing
/// white space is layout, trimmed.
pub open spec fn dangling_step(t: Seq<char>, comment: Seq<char>) -> Seq<char> {
    (if t.len() > 0 && !ends_blank(t) {
        t.push('\n')
    } else {
        t
    }) + trim_end(comment) + seq!['\n', '\n']
}

/// The text after appending one piece.
pub open spec fn piece_step(t: Seq<char>, piece: Piece) -> Seq<char> {
    match piece {
        Piece::Statement { text, .. } => t + text@,
        Piece::Dangling { comment } => dangling_step(t, comment@),
    }
}

/// The first `n` pieces, concatenated.
pub open spec fn assembled_upto(pieces: Seq<Piece>, n: int) -> Seq<char>
    decreases n,
{
    if n <= 0 {
        Seq::empty()
    } else {
        piece_step(assembled_upto(pieces, n - 1), pieces[n - 1])
    }
}

/// `t` with every final blank line dropped, so a single newline ends it.
pub open spec fn strip_blank(t: Seq<char>) -> Seq<char>
    decreases t.len(),
{
    if ends_blank(t) {
        strip_blank(t.drop_last())
    } else {
        t
    }
}

/// The reassembled program text.
pub open spec fn assembled_text(pieces: Seq<Piece>) -> Seq<char> {
    strip_blank(assembled_upto(pieces, pieces.len() as int))
}

/// The weakest certificate among the first `n` pieces.
pub open spec fn certificate_upto(pieces: Seq<Piece>, n: int) -> Certificate
    decreases n,
{
    if n <= 0 {
        Certificate::LayoutOnly
    } else {
        match pieces[n - 1] {
            Piece::Statement { certificate, .. } => weaker_spec(
                certificate_upto(pieces, n - 1),
                certificate,
            ),
            Piece::Dangling { .. } => certificate_upto(pieces, n - 1),
        }
    }
}

/// The notes of the first `n` pieces, in order.
pub open spec fn notes_upto(pieces: Seq<Piece>, n: int) -> Seq<Diagnostic>
    decreases n,
{
    if n <= 0 {
        Seq::empty()
    } else {
        match pieces[n - 1] {
            Piece::Statement { notes, .. } => notes_upto(pieces, n - 1) + notes@,
            Piece::Dangling { .. } => notes_upto(pieces, n - 1),
        }
    }
}

/// The reassembled reorder output: the concatenated piece texts, the
/// weakest-wins certificate over them, and their notes.
pub struct Assembled {
    pub text: String,
    pub certificate: Certificate,
    pub notes: Vec<Diagnostic>,
}

/// Whether the buffer ends in a blank line.
fn ends_blank_exec(t: &Vec<char>) -> (r: bool)
    ensures
        r == ends_blank(t@),
{
    let n = t.len();
    n >= 2 && t[n - 1] == '\n' && t[n - 2] == '\n'
}

/// Append a program-level floating comment with a blank line on each side,
/// so the re-parse keeps it floating rather than attached to a neighbour;
/// its trailing white space is trimmed.
pub fn push_dangling(text: &mut Vec<char>, comment: &str)
    ensures
        final(text)@ == dangling_step(old(text)@, comment@),
{
    let cs = chars_of(comment);
    let trimmed = trim_end_of(&cs);
    let ghost start = text@;
    if text.len() > 0 && !ends_blank_exec(text) {
        text.push('\n');
    }
    push_chars_vec(text, &trimmed);
    text.push('\n');
    text.push('\n');
    proof {
        assert(text@ =~= dangling_step(start, comment@));
    }
}

/// Concatenate the rendered pieces in the reordered order, one statement per
/// line, each floating comment kept floating by a blank line on each side;
/// a single newline ends the text.
pub fn assemble(pieces: Vec<Piece>) -> (a: Assembled)
    ensures
        a.text@ == assembled_text(pieces@),
        a.certificate == certificate_upto(pieces@, pieces@.len() as int),
        a.notes@ == notes_upto(pieces@, pieces@.len() as int),
{
    let ghost all = pieces@;
    let total = pieces.len();
    let mut pieces = pieces;
    let mut buf: Vec<char> = Vec::new();
    let mut certificate = Certificate::LayoutOnly;
    let mut notes: Vec<Diagnostic> = Vec::new();
    let mut i: usize = 0;
    while pieces.len() > 0
        invariant
            i + pieces@.len() == all.len(),
            all.len() == total,
            pieces@ == all.skip(i as int),
            buf@ == assembled_upto(all, i as int),
            certificate == certificate_upto(all, i as int),
            notes@ == notes_upto(all, i as int),
        decreases pieces.len(),
    {
        let piece = pieces.remove(0);
        proof {
            assert(piece == all[i as int]);
            assert(pieces@ =~= all.skip(i + 1));
        }
        match piece {
            Piece::Statement { text, certificate: c, notes: mut more } => {
                let cs = chars_of(text.as_str());
                push_chars_vec(&mut buf, &cs);
                certificate = weaker(certificate, c);
                notes.append(&mut more);
            },
            Piece::Dangling { comment } => {
                push_dangling(&mut buf, comment.as_str());
            },
        }
        i = i + 1;
    }
    while ends_blank_exec(&buf)
        invariant
            assembled_text(all) == strip_blank(buf@),
        decreases buf.len(),
    {
        let ghost before = buf@;
        buf.pop();
        proof {
            assert(buf@ =~= before.drop_last());
        }
    }
    Assembled { text: string_of(&buf), certificate, notes }
}

/// Append `more` to `buf`.
fn push_chars_vec(buf: &mut Vec<char>, more: &Vec<char>)
    ensures
        final(buf)@ == old(buf)@ + more@,
{
    let ghost start = buf@;
    let mut j: usize = 0;
    while j < more.len()
        invariant
            j <= more@.len(),
            buf@ == start + more@.take(j as int),
        decreases more.len() - j,
    {
        proof {
            assert(more@.take(j + 1) =~= more@.take(j as int).push(more@[j as int]));
        }
        buf.push(more[j]);
        j = j + 1;
    }
    proof {
        assert(more@.take(more@.len() as int) =~= more@);
    }
}

/// The identifier namespace of the formatter's own notes.
pub const NOTE_NAMESPACE: &'static str = "morphe";

/// The name of the note that an `#include` was hoisted.
pub const HOIST_NOTE_NAME: &'static str = "reorder-includes";

/// The hoist note's message for one `#include`.
pub const HOIST_ONE: &'static str = "reorder_includes moved an `#include` past other statements; morphe does not resolve includes, so this rests on your assertion that they are order-independent and is not certified meaning-preserving";

/// The hoist note's message for several, before the count.
pub const HOIST_MANY_HEAD: &'static str = "reorder_includes moved ";

/// The hoist note's message for several, after the count.
pub const HOIST_MANY_TAIL: &'static str = " `#include` directives past other statements; morphe does not resolve includes, so this rests on your assertion that they are order-independent and is not certified meaning-preserving";

/// The message that `count` includes were hoisted.
pub open spec fn hoist_message(count: nat) -> Seq<char> {
    if count == 1 {
        HOIST_ONE@
    } else {
        HOIST_MANY_HEAD@ + decimal(count) + HOIST_MANY_TAIL@
    }
}

/// `d` is the warning that `count` includes were hoisted, pointing at the
/// first of them.
pub open spec fn is_hoist_note(d: Diagnostic, first: Item, count: nat) -> bool {
    &&& d.namespace@ == NOTE_NAMESPACE@
    &&& d.name@ == HOIST_NOTE_NAME@
    &&& d.severity == Severity::Warning
    &&& d.message@ == hoist_message(count)
    &&& d.location == Span { start: first.offset as usize, end: first.end as usize }
}

/// The warning that `reorder_includes` hoisted `count` includes past other
/// statements: the one reorder that can change answer sets, resting on the
/// caller's assertion that the includes are pure — which the formatter
/// cannot check, never resolving them — so it is surfaced, never silent.
pub fn include_hoist_note(first: Item, count: usize) -> (d: Diagnostic)
    ensures
        is_hoist_note(d, first, count as nat),
{
    let mut message = String::new();
    if count == 1 {
        push_str(&mut message, HOIST_ONE);
    } else {
        push_str(&mut message, HOIST_MANY_HEAD);
        let digits = decimal_of(count);
        push_chars(&mut message, digits.as_slice());
        push_str(&mut message, HOIST_MANY_TAIL);
    }
    Diagnostic {
        namespace: NOTE_NAMESPACE.to_owned(),
        name: HOIST_NOTE_NAME.to_owned(),
        severity: Severity::Warning,
        message,
        location: Span { start: first.offset as usize, end: first.end as usize },
    }
}

/// The result of a reorder that moved a unit: the assembled text and its
/// certificate, whether the text differs from the source, and the notes —
/// with the hoist warning when an include was hoisted.
pub fn finish_reorder(assembled: Assembled, source: &str, hoisted: &Vec<Item>) -> (r: Reordered)
    ensures
        r.text@ == assembled.text@,
        r.certificate == assembled.certificate,
        r.reordered,
        r.changed == (assembled.text@ != source@),
        hoisted@.len() == 0 ==> r.notes@ == assembled.notes@,
        hoisted@.len() > 0 ==> {
            &&& r.notes@.len() == assembled.notes@.len() + 1
            &&& r.notes@.take(assembled.notes@.len() as int) == assembled.notes@
            &&& is_hoist_note(r.notes@.last(), hoisted@[0], hoisted@.len())
        },
{
    let changed = !same_text(assembled.text.as_str(), source);
    let mut notes = assembled.notes;
    let ghost before = notes@;
    if hoisted.len() > 0 {
        notes.push(include_hoist_note(hoisted[0], hoisted.len()));
        proof {
            assert(notes@.take(before.len() as int) =~= before);
        }
    }
    Reordered {
        text: assembled.text,
        certificate: assembled.certificate,
        reordered: true,
        changed,
        notes,
    }
}

/// The result of a reorder that moved nothing — a program that is all
/// barriers or already in order — which is merely formatted.
pub fn unmoved(formatted: Formatted) -> (r: Reordered)
    ensures
        r.text == formatted.text,
        r.certificate == formatted.certificate,
        !r.reordered,
        r.changed == formatted.changed,
        r.notes == formatted.notes,
{
    Reordered {
        text: formatted.text,
        certificate: formatted.certificate,
        reordered: false,
        changed: formatted.changed,
        notes: formatted.notes,
    }
}

/// The reorder's error for a unit whose format failed: a non-member stays a
/// non-member; a broken layout certificate is a broken permutation, with
/// the token witness when there is one.
pub open spec fn reorder_error_of(error: FormatError) -> ReorderError {
    match error {
        FormatError::HasParseErrors(errors) => ReorderError::HasParseErrors(errors),
        FormatError::CertificateBroke { reason, .. } => ReorderError::PermutationBroke {
            unit: match reason {
                CertificateBreak::TokenMismatch(m) => Some(m),
                CertificateBreak::NotAMember(_) => None,
            },
            bijection: None,
        },
    }
}

/// A per-unit format refusal carried out as the reorder's refusal: a
/// per-unit certificate break is a broken permutation, its token-mismatch
/// witness kept; a non-member forwards its diagnostics.
pub fn reorder_error(error: FormatError) -> (r: ReorderError)
    ensures
        r == reorder_error_of(error),
{
    match error {
        FormatError::HasParseErrors(errors) => ReorderError::HasParseErrors(errors),
        FormatError::CertificateBroke { reason, .. } => {
            let unit = match reason {
                CertificateBreak::TokenMismatch(mismatch) => Some(mismatch),
                CertificateBreak::NotAMember(_) => None,
            };
            ReorderError::PermutationBroke { unit, bijection: None }
        },
    }
}

proof fn lemma_strip_blank(t: Seq<char>)
    ensures
        !ends_blank(strip_blank(t)),
    decreases t.len(),
{
    if ends_blank(t) {
        lemma_strip_blank(t.drop_last());
    }
}

/// The reassembled text never ends in a blank line: a single newline ends
/// the file.
pub proof fn lemma_assembled_ends_once(pieces: Seq<Piece>)
    ensures
        !ends_blank(assembled_text(pieces)),
{
    lemma_strip_blank(assembled_upto(pieces, pieces.len() as int));
}

/// Reordering settles: planning the reorder of a reordered stream moves
/// nothing.
pub proof fn lemma_reorder_settles(items: Seq<Item>, reorder_includes: bool)
    ensures
        offsets(emitted(emitted(items, order_spec(reorder_includes)), order_spec(reorder_includes)))
            == offsets(emitted(items, order_spec(reorder_includes))),
{
    lemma_reorder_idempotent(items, order_spec(reorder_includes));
}

/// `p` is the piece for the unit `source`: its comment verbatim when the
/// unit is a floating comment, else a statement formatted by `format_unit`.
pub open spec fn piece_for<F: Fn(usize) -> Result<Formatted, FormatError>>(
    format_unit: F,
    comment: Option<String>,
    source: usize,
    p: Piece,
) -> bool {
    match comment {
        Some(c) => p matches Piece::Dangling { comment } && comment@ == c@,
        None => exists|f: Formatted|
            #[trigger] call_ensures(format_unit, (source,), Ok::<Formatted, FormatError>(f)) && p
                == Piece::Statement { text: f.text, certificate: f.certificate, notes: f.notes },
    }
}

/// The pieces of a reorder in its new order: for each reordered unit,
/// where it stood given by `sources`, its comment verbatim when
/// `comments` holds one for it, else the unit formatted by `format_unit`.
/// The first unit whose format fails ends the reorder with that failure.
pub fn reorder_pieces<F: Fn(usize) -> Result<Formatted, FormatError>>(
    sources: &Vec<usize>,
    comments: &Vec<Option<String>>,
    format_unit: F,
) -> (r: Result<Vec<Piece>, ReorderError>)
    requires
        forall|k: usize| call_requires(format_unit, (k,)),
        forall|k: int| 0 <= k < sources@.len() ==> #[trigger] sources@[k] < comments@.len(),
    ensures
        match r {
            Ok(pieces) => pieces@.len() == sources@.len() && forall|k: int|
                0 <= k < sources@.len() ==> piece_for(
                    format_unit,
                    comments@[sources@[k] as int],
                    sources@[k],
                    #[trigger] pieces@[k],
                ),
            Err(e) => exists|k: int, fe: FormatError|
                0 <= k < sources@.len() && comments@[sources@[k] as int] is None
                    && #[trigger] call_ensures(
                    format_unit,
                    (sources@[k],),
                    Err::<Formatted, FormatError>(fe),
                ) && e == reorder_error_of(fe),
        },
{
    let mut pieces: Vec<Piece> = Vec::new();
    let mut k: usize = 0;
    while k < sources.len()
        invariant
            k <= sources@.len(),
            pieces@.len() == k,
            forall|u: usize| call_requires(format_unit, (u,)),
            forall|j: int| 0 <= j < sources@.len() ==> #[trigger] sources@[j] < comments@.len(),
            forall|j: int|
                0 <= j < k ==> piece_for(
                    format_unit,
                    comments@[sources@[j] as int],
                    sources@[j],
                    #[trigger] pieces@[j],
                ),
        decreases sources.len() - k,
    {
        let source = sources[k];
        let piece = match &comments[source] {
            Some(c) => Piece::Dangling { comment: c.clone() },
            None => {
                let result = format_unit(source);
                match result {
                    Ok(f) => {
                        proof {
                            assert(call_ensures(format_unit, (source,), Ok::<Formatted, FormatError>(f)));
                        }
                        Piece::Statement { text: f.text, certificate: f.certificate, notes: f.notes }
                    },
                    Err(fe) => {
                        let e = reorder_error(fe);
                        proof {
                            assert(call_ensures(format_unit, (sources@[k as int],), Err::<Formatted, FormatError>(fe)));
                        }
                        return Err(e);
                    },
                }
            },
        };
        let ghost before = pieces@;
        pieces.push(piece);
        proof {
            assert forall|j: int| 0 <= j < k + 1 implies piece_for(
                format_unit,
                comments@[sources@[j] as int],
                sources@[j],
                #[trigger] pieces@[j],
            ) by {
                if j < k {
                    assert(pieces@[j] == before[j]);
                }
            }
        }
        k = k + 1;
    }
    Ok(pieces)
}

/// The reorder's result once its permutation certificate has answered: a
/// breach ends it as a broken permutation; else the reassembled text,
/// with the hoist noted.
pub fn conclude_reorder(
    assembled: Assembled,
    source: &str,
    hoisted: &Vec<Item>,
    bijection: Result<(), BijectionBreach>,
) -> (r: Result<Reordered, ReorderError>)
    ensures
        match bijection {
            Err(b) => r == Err::<Reordered, ReorderError>(
                ReorderError::PermutationBroke { unit: None, bijection: Some(b) },
            ),
            Ok(_) => r matches Ok(done) && done.text@ == assembled.text@ && done.certificate
                == assembled.certificate && done.reordered && done.changed == (assembled.text@
                != source@) && (hoisted@.len() == 0 ==> done.notes@ == assembled.notes@) && (
            hoisted@.len() > 0 ==> {
                &&& done.notes@.len() == assembled.notes@.len() + 1
                &&& done.notes@.take(assembled.notes@.len() as int) == assembled.notes@
                &&& is_hoist_note(done.notes@.last(), hoisted@[0], hoisted@.len())
            }),
        },
{
    match bijection {
        Err(b) => Err(ReorderError::PermutationBroke { unit: None, bijection: Some(b) }),
        Ok(()) => Ok(finish_reorder(assembled, source, hoisted)),
    }
}

/// Items in strictly increasing source order never repeat.
proof fn lemma_increasing_distinct(items: Seq<Item>)
    requires
        increasing(items),
    ensures
        items.no_duplicates(),
{
    assert forall|i: int, j: int| 0 <= i < items.len() && 0 <= j < items.len() && i != j implies items[i]
        != items[j] by {
        if i < j {
            assert(items[i].offset < items[j].offset);
        } else {
            assert(items[j].offset < items[i].offset);
        }
    }
}

/// Where the reorder takes each item from: one-to-one, every barrier from
/// its own place, and no unit from across a barrier.
proof fn lemma_sources_regional(items: Seq<Item>, order: Seq<Section>, sources: Seq<usize>)
    requires
        increasing(items),
        sources.len() == emitted(items, order).len(),
        forall|k: int|
            0 <= k < sources.len() ==> #[trigger] sources[k] < items.len() && items[sources[k] as int]
                == emitted(items, order)[k],
    ensures
        sources.len() == items.len(),
        forall|k1: int, k2: int|
            0 <= k1 < sources.len() && 0 <= k2 < sources.len() && k1 != k2 ==> #[trigger] sources[k1]
                != #[trigger] sources[k2],
        forall|p: int| 0 <= p < items.len() && (#[trigger] items[p]).section is None ==> sources[p] == p,
        forall|p: int, k: int|
            0 <= p < items.len() && (#[trigger] items[p]).section is None && 0 <= k < sources.len()
                ==> (k < p <==> #[trigger] sources[k] < p),
{
    broadcast use vstd::seq_lib::group_to_multiset_ensures;
    broadcast use vstd::multiset::group_multiset_axioms;

    let e = emitted(items, order);
    lemma_reorder_permutes(items, order);
    lemma_increasing_distinct(items);
    items.lemma_multiset_has_no_duplicates();
    e.lemma_multiset_has_no_duplicates_conv();
    assert forall|k1: int, k2: int|
        0 <= k1 < sources.len() && 0 <= k2 < sources.len() && k1 != k2 implies #[trigger] sources[k1]
        != #[trigger] sources[k2] by {
        assert(e[k1] != e[k2]);
    }
    assert forall|p: int| 0 <= p < items.len() && (#[trigger] items[p]).section is None implies sources[p]
        == p by {
        lemma_reorder_holds_barriers(items, order, p);
        assert(items[sources[p] as int] == items[p]);
    }
    assert forall|p: int, k: int|
        0 <= p < items.len() && (#[trigger] items[p]).section is None && 0 <= k < sources.len() implies (k
        < p <==> #[trigger] sources[k] < p) by {
        lemma_reorder_holds_barriers(items, order, p);
        let s = sources[k] as int;
        if k < p {
            assert(e.take(p)[k] == e[k]);
            assert(e.take(p).contains(e[k]));
            assert(e.take(p).to_multiset().count(e[k]) > 0);
            assert(items.take(p).contains(e[k]));
            let j = choose|j: int| 0 <= j < items.take(p).len() && items.take(p)[j] == e[k];
            assert(items[j] == items[s]);
        }
        if s < p {
            assert(items.take(p)[s] == items[s]);
            assert(items.take(p).contains(items[s]));
            assert(items.take(p).to_multiset().count(items[s]) > 0);
            assert(e.take(p).contains(e[k]));
            let j = choose|j: int| 0 <= j < e.take(p).len() && e.take(p)[j] == e[k];
            assert(e[j] == e[k]);
        }
    }
}

/// The reorder never trips its own permutation certificate: when the
/// reassembled output reads back, position by position, as the input's
/// unit or barrier that the reorder placed there — the same barrier flag
/// and the same identity — the certificate grants it, under either
/// relation.
pub proof fn lemma_reorder_granted(
    items: Seq<Item>,
    reorder_includes: bool,
    sources: Seq<usize>,
    input: Seq<SignedItem>,
    output: Seq<SignedItem>,
    relation: Certificate,
)
    requires
        items.len() <= usize::MAX,
        increasing(items),
        sources.len() == emitted(items, order_spec(reorder_includes)).len(),
        forall|k: int|
            0 <= k < sources.len() ==> #[trigger] sources[k] < items.len() && items[sources[k] as int]
                == emitted(items, order_spec(reorder_includes))[k],
        input.len() == items.len(),
        output.len() == items.len(),
        forall|i: int| 0 <= i < input.len() ==> (#[trigger] input[i]).barrier == (items[i].section is None),
        forall|k: int|
            0 <= k < output.len() ==> (#[trigger] output[k]).barrier == input[sources[k] as int].barrier
                && signature(output[k].tokens@, relation) == signature(
                input[sources[k] as int].tokens@,
                relation,
            ),
    ensures
        permutation_outcome(input, output, relation) is None,
{
    lemma_sources_regional(items, order_spec(reorder_includes), sources);
    assert forall|p: int| 0 <= p < input.len() && (#[trigger] input[p]).barrier implies sources[p] == p by {
        assert(items[p].section is None);
    }
    assert forall|p: int, k: int|
        0 <= p < input.len() && (#[trigger] input[p]).barrier && 0 <= k < sources.len() implies (k < p
        <==> #[trigger] sources[k] < p) by {
        assert(items[p].section is None);
    }
    lemma_regional_moves_granted(input, output, sources, relation);
}

} // verus!
