//! What the analysis reports, stated directly over the recorded fragments.

use vstd::prelude::*;
use vstd::utf8::encode_utf8;

use crate::model::{
    definition_identity_view, definition_kind_rank, finding_kind_rank, opt_span_view, span_view,
    Definition, DefinitionKind, Edge, EdgeKind, FindingKind, Fragment, IdentityView,
};
use crate::scope::{join, ScopeView};
use crate::text::{holds, starts_with, views};
use crate::walk::{str_reaches, Step};

verus! {

/// Every definition of the fragments, in order, with the position of the
/// fragment (its compilation unit) that records it.
pub open spec fn flat_defs(fs: Seq<Fragment>) -> Seq<(Definition, int)>
    decreases fs.len(),
{
    if fs.len() == 0 {
        Seq::empty()
    } else {
        flat_defs(fs.drop_last()) + in_unit(fs.last().definitions@, fs.len() - 1)
    }
}

/// Definitions tagged with the compilation unit `f`.
pub open spec fn in_unit(ds: Seq<Definition>, f: int) -> Seq<(Definition, int)> {
    ds.map_values(|d: Definition| (d, f))
}

/// Each flattened definition names a fragment of the sequence.
pub proof fn lemma_flat_defs_units(fs: Seq<Fragment>)
    ensures
        forall|k: int| 0 <= k < flat_defs(fs).len() ==> 0 <= (#[trigger] flat_defs(fs)[k]).1 < fs.len(),
    decreases fs.len(),
{
    if fs.len() > 0 {
        lemma_flat_defs_units(fs.drop_last());
        let a = flat_defs(fs.drop_last());
        let b = in_unit(fs.last().definitions@, fs.len() - 1);
        assert forall|k: int| 0 <= k < flat_defs(fs).len() implies 0 <= (#[trigger] flat_defs(fs)[k]).1 < fs.len() by {
            if k < a.len() {
                assert(flat_defs(fs)[k] == a[k]);
            } else {
                assert(flat_defs(fs)[k] == b[k - a.len()]);
            }
        }
    }
}

/// Every edge of the fragments, in order.
pub open spec fn flat_edges(fs: Seq<Fragment>) -> Seq<Edge>
    decreases fs.len(),
{
    if fs.len() == 0 {
        Seq::empty()
    } else {
        flat_edges(fs.drop_last()) + fs.last().edges@
    }
}

/// The definitions of the production fragments followed by those of the test fragments.
pub open spec fn all_defs(p: Seq<Fragment>, t: Seq<Fragment>) -> Seq<(Definition, int)> {
    flat_defs(p + t)
}

/// The edges of the production fragments followed by those of the test fragments.
pub open spec fn all_edges(p: Seq<Fragment>, t: Seq<Fragment>) -> Seq<Edge> {
    flat_edges(p) + flat_edges(t)
}

/// The fragments of one side: production or test.
pub open spec fn side_frags(p: Seq<Fragment>, t: Seq<Fragment>, prod: bool) -> Seq<Fragment> {
    if prod {
        p
    } else {
        t
    }
}

/// The edges of one side.
pub open spec fn side_edges(p: Seq<Fragment>, t: Seq<Fragment>, prod: bool) -> Seq<Edge> {
    flat_edges(side_frags(p, t, prod))
}

/// The position of the last definition whose id is `s`, or -1.
pub open spec fn last_def(ds: Seq<(Definition, int)>, s: Seq<char>) -> int
    decreases ds.len(),
{
    if ds.len() == 0 {
        -1
    } else if ds.last().0.id@ == s {
        ds.len() - 1
    } else {
        last_def(ds.drop_last(), s)
    }
}

/// `last_def` finds the last definition with id `s`, or none when no definition has it.
pub proof fn lemma_last_def(ds: Seq<(Definition, int)>, s: Seq<char>)
    ensures
        -1 <= last_def(ds, s) < ds.len(),
        last_def(ds, s) >= 0 ==> ds[last_def(ds, s)].0.id@ == s,
        forall|j: int| last_def(ds, s) < j < ds.len() ==> (#[trigger] ds[j]).0.id@ != s,
    decreases ds.len(),
{
    if ds.len() > 0 {
        lemma_last_def(ds.drop_last(), s);
        assert forall|j: int| last_def(ds, s) < j < ds.len() implies (#[trigger] ds[j]).0.id@ != s by {
            if j < ds.len() - 1 {
                assert(ds[j] == ds.drop_last()[j]);
            }
        }
    }
}

/// Some fragment defines the id `s`.
pub open spec fn defined(p: Seq<Fragment>, t: Seq<Fragment>, s: Seq<char>) -> bool {
    last_def(all_defs(p, t), s) >= 0
}

/// The definition that stands for id `s`: the last one recorded.
pub open spec fn def_of(p: Seq<Fragment>, t: Seq<Fragment>, s: Seq<char>) -> Definition {
    all_defs(p, t)[last_def(all_defs(p, t), s)].0
}

/// The compilation unit of the definition that stands for `s`.
pub open spec fn unit_of(p: Seq<Fragment>, t: Seq<Fragment>, s: Seq<char>) -> int {
    all_defs(p, t)[last_def(all_defs(p, t), s)].1
}

/// The crate id of the compilation unit that defines `s`.
pub open spec fn crate_id_of(p: Seq<Fragment>, t: Seq<Fragment>, s: Seq<char>) -> Seq<char> {
    (p + t)[unit_of(p, t, s)].crate_id@
}

/// Where a declaration stands in the source: its name only when it has no span.
pub type SourceIdentityView = (Option<Seq<char>>, DefinitionKind, Option<(Seq<char>, usize, usize)>);

/// The source identity of a definition.
pub open spec fn source_identity(d: Definition) -> SourceIdentityView {
    (
        if d.span is None {
            Some(d.name@)
        } else {
            None
        },
        d.kind,
        opt_span_view(d.span),
    )
}

/// No two ids with source identity `si` are defined in the same compilation unit.
pub open spec fn group_separate(p: Seq<Fragment>, t: Seq<Fragment>, si: SourceIdentityView) -> bool {
    forall|x: Seq<char>, y: Seq<char>|
        #![trigger unit_of(p, t, x), unit_of(p, t, y)]
        defined(p, t, x) && defined(p, t, y) && x != y && source_identity(def_of(p, t, x)) == si
            && source_identity(def_of(p, t, y)) == si ==> unit_of(p, t, x) != unit_of(p, t, y)
}

/// Distinct ids that stand for one source declaration compiled in distinct units.
pub open spec fn equivalent(p: Seq<Fragment>, t: Seq<Fragment>, a: Seq<char>, b: Seq<char>) -> bool {
    &&& a != b
    &&& defined(p, t, a)
    &&& defined(p, t, b)
    &&& source_identity(def_of(p, t, a)) == source_identity(def_of(p, t, b))
    &&& group_separate(p, t, source_identity(def_of(p, t, a)))
}

/// Some edge of `es` other than a visibility requirement leads from `a` to `b`.
pub open spec fn runtime_edge(es: Seq<Edge>, a: Seq<char>, b: Seq<char>) -> bool {
    exists|k: int|
        0 <= k < es.len() && #[trigger] es[k].from@ == a && es[k].to@ == b && es[k].kind
            != EdgeKind::VisibilityRequirement
}

/// A fragment of the given side defines `s`.
pub open spec fn side_declares(p: Seq<Fragment>, t: Seq<Fragment>, prod: bool, s: Seq<char>) -> bool {
    exists|k: int|
        0 <= k < all_defs(p, t).len() && #[trigger] all_defs(p, t)[k].0.id@ == s && (all_defs(
            p,
            t,
        )[k].1 < p.len()) == prod
}

/// One step of reachability on a side: an edge of that side, or an
/// equivalence between two ids that the side defines.
pub open spec fn runtime_step(p: Seq<Fragment>, t: Seq<Fragment>, prod: bool) -> Step {
    |a: Seq<char>, b: Seq<char>|
        runtime_edge(side_edges(p, t, prod), a, b) || (side_declares(p, t, prod, a)
            && side_declares(p, t, prod, b) && equivalent(p, t, a, b))
}

/// A fragment makes `s` an entry point: as a root of a product fragment, or
/// as a conservative root of any fragment.
pub open spec fn root_in(f: Fragment, s: Seq<char>) -> bool {
    (f.is_product_root && holds(f.roots@, s)) || holds(f.conservative_roots@, s)
}

/// The entry points of a side.
pub open spec fn runtime_root(p: Seq<Fragment>, t: Seq<Fragment>, prod: bool) -> spec_fn(Seq<char>) -> bool {
    |s: Seq<char>|
        exists|f: int| 0 <= f < side_frags(p, t, prod).len() && root_in(#[trigger] side_frags(p, t, prod)[f], s)
}

/// The id `s` is reachable on a side.
pub open spec fn live_at(p: Seq<Fragment>, t: Seq<Fragment>, prod: bool, s: Seq<char>) -> bool {
    str_reaches(runtime_step(p, t, prod), runtime_root(p, t, prod), s)
}

/// Edge `k` of `es` re-exports from `a`.
pub open spec fn reexport_from(es: Seq<Edge>, k: int, a: Seq<char>) -> bool {
    0 <= k < es.len() && es[k].kind == EdgeKind::Reexport && es[k].from@ == a
}

/// `a` is `s` itself or an id equivalent to it.
pub open spec fn same_or_equivalent(p: Seq<Fragment>, t: Seq<Fragment>, s: Seq<char>, a: Seq<char>) -> bool {
    a == s || equivalent(p, t, s, a)
}

/// A declaration is live on a side when it or an equivalent id is reachable
/// there; a re-export is live when a target of it or of an equivalent id is.
pub open spec fn is_live(p: Seq<Fragment>, t: Seq<Fragment>, prod: bool, d: Definition) -> bool {
    if d.kind == DefinitionKind::Reexport {
        exists|k: int|
            #[trigger] reexport_from(side_edges(p, t, prod), k, side_edges(p, t, prod)[k].from@)
                && same_or_equivalent(p, t, d.id@, side_edges(p, t, prod)[k].from@) && live_at(
                p,
                t,
                prod,
                side_edges(p, t, prod)[k].to@,
            )
    } else {
        exists|a: Seq<char>| #[trigger] same_or_equivalent(p, t, d.id@, a) && live_at(p, t, prod, a)
    }
}

/// Edge kinds along which a visibility requirement travels.
pub open spec fn propagates(k: EdgeKind) -> bool {
    k != EdgeKind::Body
}

/// One step along which public visibility is required: an interface edge
/// into a defined id, or an equivalence.
pub open spec fn interface_step(p: Seq<Fragment>, t: Seq<Fragment>) -> Step {
    |a: Seq<char>, b: Seq<char>|
        (exists|k: int|
            0 <= k < all_edges(p, t).len() && #[trigger] all_edges(p, t)[k].from@ == a && all_edges(
                p,
                t,
            )[k].to@ == b && propagates(all_edges(p, t)[k].kind)) && defined(p, t, b) || equivalent(
            p,
            t,
            a,
            b,
        )
}

/// Some edge leads into `s` from a definition of another crate.
pub open spec fn crosses_crates(p: Seq<Fragment>, t: Seq<Fragment>, s: Seq<char>) -> bool {
    exists|k: int|
        0 <= k < all_edges(p, t).len() && #[trigger] all_edges(p, t)[k].to@ == s && defined(
            p,
            t,
            all_edges(p, t)[k].from@,
        ) && defined(p, t, s) && crate_id_of(p, t, all_edges(p, t)[k].from@) != crate_id_of(p, t, s)
}

/// Visibility that other crates require of `s`.
pub open spec fn externally_required(p: Seq<Fragment>, t: Seq<Fragment>, s: Seq<char>) -> bool {
    str_reaches(interface_step(p, t), |x: Seq<char>| crosses_crates(p, t, x), s)
}

/// Kinds whose re-exports the analysis can follow.
pub open spec fn analyzable_kind(k: DefinitionKind) -> bool {
    match k {
        DefinitionKind::Function | DefinitionKind::InherentMethod | DefinitionKind::Trait
        | DefinitionKind::Struct | DefinitionKind::Enum | DefinitionKind::Union
        | DefinitionKind::TypeAlias | DefinitionKind::Constant | DefinitionKind::Static => true,
        _ => false,
    }
}

/// A re-export with at least one target, all of them defined items of an analyzable kind.
pub open spec fn analyzable_reexport(p: Seq<Fragment>, t: Seq<Fragment>, s: Seq<char>) -> bool {
    &&& exists|k: int| #[trigger] reexport_from(all_edges(p, t), k, s)
    &&& forall|k: int|
        #[trigger] reexport_from(all_edges(p, t), k, s) ==> defined(p, t, all_edges(p, t)[k].to@)
            && analyzable_kind(def_of(p, t, all_edges(p, t)[k].to@).kind)
}

/// A public re-export that must stay public: the analysis cannot follow it,
/// or another crate needs one of its targets.
pub open spec fn forced_reexport(p: Seq<Fragment>, t: Seq<Fragment>, s: Seq<char>) -> bool {
    &&& defined(p, t, s)
    &&& def_of(p, t, s).public_api
    &&& def_of(p, t, s).kind == DefinitionKind::Reexport
    &&& (!analyzable_reexport(p, t, s) || exists|k: int|
        #[trigger] reexport_from(all_edges(p, t), k, s) && externally_required(
            p,
            t,
            all_edges(p, t)[k].to@,
        ))
}

/// Why `s` must stay public before anything is propagated.
pub open spec fn public_requirement(p: Seq<Fragment>, t: Seq<Fragment>, s: Seq<char>) -> bool {
    ||| exists|f: int| 0 <= f < (p + t).len() && holds(#[trigger] (p + t)[f].required_public_roots@, s)
    ||| forced_reexport(p, t, s)
    ||| crosses_crates(p, t, s)
}

/// Rust's privacy rules require `s` to stay public.
pub open spec fn required_public(p: Seq<Fragment>, t: Seq<Fragment>, s: Seq<char>) -> bool {
    str_reaches(interface_step(p, t), |x: Seq<char>| public_requirement(p, t, x), s)
}

/// Edge `k` seeds a scope requirement: it joins distinct ids and leads into a defined one.
pub open spec fn seeds_scope(p: Seq<Fragment>, t: Seq<Fragment>, k: int) -> bool {
    all_edges(p, t)[k].from@ != all_edges(p, t)[k].to@ && defined(p, t, all_edges(p, t)[k].to@)
}

/// The scope that an edge requires of its target: the module of its source,
/// or an unknown scope for re-exports and sources the graph does not define.
pub open spec fn edge_requirement(p: Seq<Fragment>, t: Seq<Fragment>, e: Edge) -> ScopeView {
    if e.kind == EdgeKind::Reexport || (e.kind == EdgeKind::VisibilityParent && defined(p, t, e.from@)
        && def_of(p, t, e.from@).visible_reexport_api) {
        ScopeView::Unknown
    } else if defined(p, t, e.from@) {
        ScopeView::Known(def_of(p, t, e.from@).crate_name@, views(def_of(p, t, e.from@).module_scope@))
    } else {
        ScopeView::Unknown
    }
}

/// The scope seeds of the first `n` edges, in order.
pub open spec fn scope_seeds(p: Seq<Fragment>, t: Seq<Fragment>, n: int) -> Seq<(Seq<char>, ScopeView)>
    decreases n,
{
    if n <= 0 {
        Seq::empty()
    } else {
        scope_seeds(p, t, n - 1) + if seeds_scope(p, t, n - 1) {
            seq![(all_edges(p, t)[n - 1].to@, edge_requirement(p, t, all_edges(p, t)[n - 1]))]
        } else {
            Seq::empty()
        }
    }
}

/// One step along which a scope requirement travels.
pub open spec fn scope_step(p: Seq<Fragment>, t: Seq<Fragment>) -> Step {
    |a: Seq<char>, b: Seq<char>|
        (exists|k: int|
            0 <= k < all_edges(p, t).len() && #[trigger] all_edges(p, t)[k].from@ == a && all_edges(
                p,
                t,
            )[k].to@ == b && a != b && defined(p, t, b) && propagates(all_edges(p, t)[k].kind))
            || equivalent(p, t, a, b)
}

/// The join of the scopes of all seeds whose target reaches `s` along `step`.
pub open spec fn gathered_scope(step: Step, seeds: Seq<(Seq<char>, ScopeView)>, s: Seq<char>) -> ScopeView
    decreases seeds.len(),
{
    if seeds.len() == 0 {
        ScopeView::Bottom
    } else {
        join(
            gathered_scope(step, seeds.drop_last(), s),
            if str_reaches(step, |x: Seq<char>| x == seeds.last().0, s) {
                seeds.last().1
            } else {
                ScopeView::Bottom
            },
        )
    }
}

/// The least scope from which compiled code uses `s`.
pub open spec fn required_scope(p: Seq<Fragment>, t: Seq<Fragment>, s: Seq<char>) -> ScopeView {
    gathered_scope(scope_step(p, t), scope_seeds(p, t, all_edges(p, t).len() as int), s)
}

/// What a restricted declaration can shrink to, given the scope its uses require.
pub open spec fn restricted_finding(p: Seq<Fragment>, t: Seq<Fragment>, d: Definition) -> Option<FindingKind> {
    if d.kind == DefinitionKind::EnumVariant || d.kind == DefinitionKind::Reexport {
        None
    } else {
        match required_scope(p, t, d.id@) {
            ScopeView::Bottom => Some(FindingKind::UnnecessaryRestrictedVisibility),
            ScopeView::Unknown => None,
            ScopeView::Known(c, m) => if c != d.crate_name@ {
                None
            } else if starts_with(m, views(d.module_scope@)) {
                Some(FindingKind::UnnecessaryRestrictedVisibility)
            } else if d.crate_visible_api && d.module_scope@.len() > 0 && starts_with(
                m,
                views(d.module_scope@).drop_last(),
            ) {
                Some(FindingKind::UnnecessaryCrateVisibility)
            } else {
                None
            },
        }
    }
}

/// Some production definition has identity `i`.
pub open spec fn compiled_for_production(p: Seq<Fragment>, t: Seq<Fragment>, i: IdentityView) -> bool {
    exists|k: int|
        0 <= k < all_defs(p, t).len() && #[trigger] definition_identity_view(all_defs(p, t)[k].0) == i
            && all_defs(p, t)[k].1 < p.len()
}

/// Some public production definition has identity `i`.
pub open spec fn production_public(p: Seq<Fragment>, t: Seq<Fragment>, i: IdentityView) -> bool {
    exists|k: int|
        0 <= k < all_defs(p, t).len() && #[trigger] definition_identity_view(all_defs(p, t)[k].0) == i
            && all_defs(p, t)[k].1 < p.len() && all_defs(p, t)[k].0.public_api
}

/// Some restricted-visibility production definition has identity `i`.
pub open spec fn production_restricted(p: Seq<Fragment>, t: Seq<Fragment>, i: IdentityView) -> bool {
    exists|k: int|
        0 <= k < all_defs(p, t).len() && #[trigger] definition_identity_view(all_defs(p, t)[k].0) == i
            && all_defs(p, t)[k].1 < p.len() && all_defs(p, t)[k].0.restricted_visible_api
}

/// A production product root defines identity `i`.
pub open spec fn production_root_declares(p: Seq<Fragment>, t: Seq<Fragment>, i: IdentityView) -> bool {
    exists|k: int|
        0 <= k < all_defs(p, t).len() && #[trigger] definition_identity_view(all_defs(p, t)[k].0) == i
            && all_defs(p, t)[k].1 < p.len() && (p + t)[all_defs(p, t)[k].1].is_product_root
}

/// A test binary (a product root outside the test surface) defines identity `i`.
pub open spec fn test_binary_declares(p: Seq<Fragment>, t: Seq<Fragment>, i: IdentityView) -> bool {
    exists|k: int|
        0 <= k < all_defs(p, t).len() && #[trigger] definition_identity_view(all_defs(p, t)[k].0) == i
            && all_defs(p, t)[k].1 >= p.len() && (p + t)[all_defs(p, t)[k].1].is_product_root && !(p
            + t)[all_defs(p, t)[k].1].test_surface
}

/// Definition `k` is a public declaration that the first pass judges.
pub open spec fn public_candidate(
    p: Seq<Fragment>,
    t: Seq<Fragment>,
    cands: Seq<String>,
    excl: Seq<String>,
    k: int,
) -> bool {
    let d = all_defs(p, t)[k].0;
    let i = definition_identity_view(d);
    &&& d.public_api
    &&& !d.dead_code_allowed
    &&& !(compiled_for_production(p, t, i) && !production_public(p, t, i))
    &&& holds(cands, d.crate_name@)
    &&& !holds(excl, d.crate_name@)
    &&& !production_root_declares(p, t, i)
    &&& !required_public(p, t, d.id@)
}

/// Definition `k` is the first public candidate with its identity.
pub open spec fn first_public_candidate(
    p: Seq<Fragment>,
    t: Seq<Fragment>,
    cands: Seq<String>,
    excl: Seq<String>,
    k: int,
) -> bool {
    &&& public_candidate(p, t, cands, excl, k)
    &&& forall|j: int|
        0 <= j < k && #[trigger] public_candidate(p, t, cands, excl, j) ==> definition_identity_view(
            all_defs(p, t)[j].0,
        ) != definition_identity_view(all_defs(p, t)[k].0)
}

/// The first pass judged a definition with identity `i`.
pub open spec fn judged_public(
    p: Seq<Fragment>,
    t: Seq<Fragment>,
    cands: Seq<String>,
    excl: Seq<String>,
    i: IdentityView,
) -> bool {
    exists|j: int|
        0 <= j < all_defs(p, t).len() && #[trigger] public_candidate(p, t, cands, excl, j)
            && definition_identity_view(all_defs(p, t)[j].0) == i
}

/// A finding: its kind, the declaration, whether only tests use it, and
/// whether only test compilations define it.
pub type FindingView = (FindingKind, Definition, bool, bool);

/// What the first pass reports for a public candidate.
pub open spec fn public_finding(p: Seq<Fragment>, t: Seq<Fragment>, d: Definition) -> Option<FindingView> {
    let production_live = is_live(p, t, true, d);
    let test_live = is_live(p, t, false, d);
    let test_compiled_only = !compiled_for_production(p, t, definition_identity_view(d));
    if !production_live && !test_live {
        Some((FindingKind::DeadPublic, d, false, test_compiled_only))
    } else if d.kind == DefinitionKind::EnumVariant {
        None
    } else {
        Some((FindingKind::UnnecessaryPublic, d, !production_live && test_live, test_compiled_only))
    }
}

/// The findings of the first pass over the first `n` definitions.
pub open spec fn public_findings(
    p: Seq<Fragment>,
    t: Seq<Fragment>,
    cands: Seq<String>,
    excl: Seq<String>,
    n: int,
) -> Seq<FindingView>
    decreases n,
{
    if n <= 0 {
        Seq::empty()
    } else {
        public_findings(p, t, cands, excl, n - 1) + if first_public_candidate(p, t, cands, excl, n - 1) {
            match public_finding(p, t, all_defs(p, t)[n - 1].0) {
                Some(f) => seq![f],
                None => Seq::empty(),
            }
        } else {
            Seq::empty()
        }
    }
}

/// Definition `k` is a restricted declaration that the second pass reports.
pub open spec fn restricted_candidate(
    p: Seq<Fragment>,
    t: Seq<Fragment>,
    cands: Seq<String>,
    excl: Seq<String>,
    k: int,
) -> bool {
    let d = all_defs(p, t)[k].0;
    let i = definition_identity_view(d);
    &&& d.restricted_visible_api
    &&& !d.dead_code_allowed
    &&& !(compiled_for_production(p, t, i) && !production_restricted(p, t, i))
    &&& holds(cands, d.crate_name@)
    &&& !holds(excl, d.crate_name@)
    &&& !production_root_declares(p, t, i)
    &&& !(!compiled_for_production(p, t, i) && test_binary_declares(p, t, i))
    &&& !judged_public(p, t, cands, excl, i)
    &&& restricted_finding(p, t, d) is Some
}

/// Definition `k` is the first restricted candidate with its identity.
pub open spec fn first_restricted_candidate(
    p: Seq<Fragment>,
    t: Seq<Fragment>,
    cands: Seq<String>,
    excl: Seq<String>,
    k: int,
) -> bool {
    &&& restricted_candidate(p, t, cands, excl, k)
    &&& forall|j: int|
        0 <= j < k && #[trigger] restricted_candidate(p, t, cands, excl, j) ==> definition_identity_view(
            all_defs(p, t)[j].0,
        ) != definition_identity_view(all_defs(p, t)[k].0)
}

/// What the second pass reports for a restricted candidate.
pub open spec fn restricted_report(p: Seq<Fragment>, t: Seq<Fragment>, d: Definition) -> FindingView {
    let production_live = is_live(p, t, true, d);
    let test_live = is_live(p, t, false, d);
    (
        restricted_finding(p, t, d).unwrap(),
        d,
        !production_live && test_live,
        !compiled_for_production(p, t, definition_identity_view(d)),
    )
}

/// The findings of the second pass over the first `n` definitions.
pub open spec fn restricted_findings(
    p: Seq<Fragment>,
    t: Seq<Fragment>,
    cands: Seq<String>,
    excl: Seq<String>,
    n: int,
) -> Seq<FindingView>
    decreases n,
{
    if n <= 0 {
        Seq::empty()
    } else {
        restricted_findings(p, t, cands, excl, n - 1) + if first_restricted_candidate(
            p,
            t,
            cands,
            excl,
            n - 1,
        ) {
            seq![restricted_report(p, t, all_defs(p, t)[n - 1].0)]
        } else {
            Seq::empty()
        }
    }
}

/// A restricted declaration whose uses pin its current scope.
pub open spec fn known_scope_requirement(p: Seq<Fragment>, t: Seq<Fragment>, d: Definition) -> bool {
    &&& required_scope(p, t, d.id@) matches ScopeView::Known(c, _)
    &&& required_scope(p, t, d.id@)->Known_0 == d.crate_name@
    &&& restricted_finding(p, t, d) is None
}

/// The declaration needs the visibility it has.
pub open spec fn keeps_visibility(p: Seq<Fragment>, t: Seq<Fragment>, d: Definition) -> bool {
    if d.public_api {
        required_public(p, t, d.id@)
    } else if d.restricted_visible_api {
        known_scope_requirement(p, t, d)
    } else {
        false
    }
}

/// Some field of the uniform group `g` of crate `c` needs its visibility.
pub open spec fn protected_group(
    p: Seq<Fragment>,
    t: Seq<Fragment>,
    c: Seq<char>,
    g: (Seq<char>, usize, usize),
) -> bool {
    exists|k: int|
        0 <= k < all_defs(p, t).len() && #[trigger] opt_span_view(all_defs(p, t)[k].0.uniform_field_group)
            == Some(g) && all_defs(p, t)[k].0.crate_name@ == c && keeps_visibility(p, t, all_defs(p, t)[k].0)
}

/// A reduction of a field whose uniform group must keep its visibility.
pub open spec fn suppressed(p: Seq<Fragment>, t: Seq<Fragment>, f: FindingView) -> bool {
    f.0 != FindingKind::DeadPublic && match f.1.uniform_field_group {
        Some(g) => protected_group(p, t, f.1.crate_name@, span_view(g)),
        None => false,
    }
}

/// The findings that suppression keeps, in order.
pub open spec fn unsuppressed(p: Seq<Fragment>, t: Seq<Fragment>, fs: Seq<FindingView>) -> Seq<FindingView>
    decreases fs.len(),
{
    if fs.len() == 0 {
        fs
    } else {
        unsuppressed(p, t, fs.drop_last()) + if suppressed(p, t, fs.last()) {
            Seq::empty()
        } else {
            seq![fs.last()]
        }
    }
}

/// The findings of both passes, with uniform field groups honoured when asked.
pub open spec fn raw_findings(
    p: Seq<Fragment>,
    t: Seq<Fragment>,
    cands: Seq<String>,
    excl: Seq<String>,
    preserve: bool,
) -> Seq<FindingView> {
    let n = all_defs(p, t).len() as int;
    let both = public_findings(p, t, cands, excl, n) + restricted_findings(p, t, cands, excl, n);
    if preserve {
        unsuppressed(p, t, both)
    } else {
        both
    }
}

/// The order key of a finding: file bytes, line, column, crate, name,
/// definition kind and finding kind.
pub type SortKey = (Seq<u8>, usize, usize, Seq<u8>, Seq<u8>, nat, nat);

/// The order key of a finding; a declaration without a span sorts first.
pub open spec fn sort_key(f: FindingView) -> SortKey {
    let d = f.1;
    (
        match d.span {
            Some(s) => encode_utf8(s.file@),
            None => Seq::empty(),
        },
        match d.span {
            Some(s) => s.line,
            None => 0,
        },
        match d.span {
            Some(s) => s.column,
            None => 0,
        },
        encode_utf8(d.crate_name@),
        encode_utf8(d.name@),
        definition_kind_rank(d.kind),
        finding_kind_rank(f.0),
    )
}

/// `a` comes strictly before `b` in byte-lexicographic order.
pub open spec fn bytes_lt(a: Seq<u8>, b: Seq<u8>) -> bool
    decreases a.len(),
{
    if b.len() == 0 {
        false
    } else if a.len() == 0 {
        true
    } else if a[0] != b[0] {
        a[0] < b[0]
    } else {
        bytes_lt(a.drop_first(), b.drop_first())
    }
}

/// `a` comes strictly before `b` in the lexicographic order of keys.
pub open spec fn key_lt(a: SortKey, b: SortKey) -> bool {
    ||| bytes_lt(a.0, b.0)
    ||| a.0 == b.0 && a.1 < b.1
    ||| a.0 == b.0 && a.1 == b.1 && a.2 < b.2
    ||| a.0 == b.0 && a.1 == b.1 && a.2 == b.2 && bytes_lt(a.3, b.3)
    ||| a.0 == b.0 && a.1 == b.1 && a.2 == b.2 && a.3 == b.3 && bytes_lt(a.4, b.4)
    ||| a.0 == b.0 && a.1 == b.1 && a.2 == b.2 && a.3 == b.3 && a.4 == b.4 && a.5 < b.5
    ||| a.0 == b.0 && a.1 == b.1 && a.2 == b.2 && a.3 == b.3 && a.4 == b.4 && a.5 == b.5 && a.6 < b.6
}

/// `output` holds the items of `input` reordered by `perm`, sorted by key,
/// with items of equal key in their input order.
pub open spec fn stable_order(input: Seq<FindingView>, output: Seq<FindingView>, perm: Seq<int>) -> bool {
    &&& perm.len() == input.len()
    &&& output.len() == input.len()
    &&& forall|i: int| 0 <= i < perm.len() ==> 0 <= #[trigger] perm[i] < input.len()
    &&& forall|i: int, j: int| 0 <= i < j < perm.len() ==> #[trigger] perm[i] != #[trigger] perm[j]
    &&& forall|i: int| 0 <= i < output.len() ==> #[trigger] output[i] == input[perm[i]]
    &&& forall|i: int, j: int|
        0 <= i < j < output.len() ==> !key_lt(sort_key(#[trigger] output[j]), sort_key(#[trigger] output[i]))
    &&& forall|i: int, j: int|
        0 <= i < j < output.len() && sort_key(#[trigger] output[i]) == sort_key(#[trigger] output[j])
            ==> perm[i] < perm[j]
}

/// `output` is the stable sort of `input` by key.
pub open spec fn stably_sorted(input: Seq<FindingView>, output: Seq<FindingView>) -> bool {
    exists|perm: Seq<int>| stable_order(input, output, perm)
}

} // verus!
