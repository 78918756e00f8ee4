//! The two passes that turn per-node results into findings.

use vstd::prelude::*;

use crate::closure::adj_view;
use crate::identity::IdentityFacts;
use crate::model::{
    definition_identity_view, opt_span_view, span_view, Definition, DefinitionKind, Finding, FindingKind, Fragment, Span,
};
use crate::numbering::Layout;
use crate::scope::RequiredScope;
use crate::semantics::{
    all_defs, compiled_for_production, equivalent, first_public_candidate, first_restricted_candidate,
    is_live, judged_public, live_at, production_public, production_restricted, production_root_declares,
    public_candidate, public_finding, public_findings, required_public, required_scope, restricted_candidate,
    restricted_finding, restricted_findings, restricted_report, test_binary_declares, FindingView,
    keeps_visibility, protected_group, suppressed, unsuppressed,
};
use crate::text::{contains_str, holds, str_eq};
use crate::verdict::{lemma_def_node, live_definition, restricted_kind_of};
use crate::visibility::resolved;

verus! {

/// The plain value of a finding.
pub open spec fn finding_view(f: Finding) -> FindingView {
    (f.kind, *f.definition, f.test_only, f.test_compiled_only)
}

/// The plain values of findings, in order.
pub open spec fn finding_views(fs: Seq<Finding>) -> Seq<FindingView> {
    fs.map_values(|f: Finding| finding_view(f))
}

/// Every per-node and per-class result of the analysis.
pub struct Analysis<'a> {
    pub layout: Layout<'a>,
    pub rep: Vec<usize>,
    pub grp: Vec<usize>,
    pub members: Vec<Vec<usize>>,
    pub production_live: Vec<bool>,
    pub test_live: Vec<bool>,
    pub required: Vec<bool>,
    pub scopes: Vec<RequiredScope>,
    pub identity: IdentityFacts,
}

impl<'a> Analysis<'a> {
    /// The results describe production fragments `p` and test fragments `t`.
    pub open spec fn ready(&self, p: Seq<Fragment>, t: Seq<Fragment>) -> bool {
        let names = self.layout.names();
        let n = names.len();
        &&& resolved(&self.layout, p, t, self.rep@)
        &&& p.len() + t.len() <= usize::MAX
        &&& self.grp@.len() == n
        &&& self.members@.len() == n
        &&& forall|v: int| 0 <= v < n ==> #[trigger] self.grp@[v] < n
        &&& forall|g: usize, v: usize|
            g < n && v < n ==> (adj_view(self.members@)[g as int].contains(v) <==> self.grp@[v as int] == g)
        &&& forall|g: int, k: int|
            0 <= g < n && 0 <= k < self.members@[g]@.len() ==> #[trigger] self.members@[g]@[k] < n
        &&& forall|u: int, v: int|
            0 <= u < n && 0 <= v < n ==> ((u != v && #[trigger] self.grp@[u] == #[trigger] self.grp@[v])
                <==> equivalent(p, t, names[u], names[v]))
        &&& self.production_live@.len() == n
        &&& forall|v: int| 0 <= v < n ==> (#[trigger] self.production_live@[v] <==> live_at(p, t, true, names[v]))
        &&& self.test_live@.len() == n
        &&& forall|v: int| 0 <= v < n ==> (#[trigger] self.test_live@[v] <==> live_at(p, t, false, names[v]))
        &&& self.required@.len() == n
        &&& forall|v: int| 0 <= v < n ==> (#[trigger] self.required@[v] <==> required_public(p, t, names[v]))
        &&& self.scopes@.len() == n
        &&& forall|v: int| 0 <= v < n ==> (#[trigger] self.scopes@[v])@ == required_scope(p, t, names[v])
        &&& self.identity.wf(&self.layout, p, t)
    }
}

/// Whether definition `k` is live on a side.
fn live_at_definition(a: &Analysis, prod: bool, k: usize, Ghost(p): Ghost<Seq<Fragment>>, Ghost(t): Ghost<Seq<Fragment>>) -> (r: bool)
    requires
        a.ready(p, t),
        k < a.layout.defs@.len(),
    ensures
        r == is_live(p, t, prod, *a.layout.defs@[k as int]),
{
    let live = if prod {
        &a.production_live
    } else {
        &a.test_live
    };
    live_definition(&a.layout, &a.grp, &a.members, live, prod, k, Ghost(p), Ghost(t))
}

/// Whether definition `k` is a public candidate.
fn public_candidate_at(
    a: &Analysis,
    cands: &Vec<String>,
    excl: &Vec<String>,
    k: usize,
    Ghost(p): Ghost<Seq<Fragment>>,
    Ghost(t): Ghost<Seq<Fragment>>,
) -> (r: bool)
    requires
        a.ready(p, t),
        k < a.layout.defs@.len(),
    ensures
        r == public_candidate(p, t, cands@, excl@, k as int),
{
    let d = a.layout.defs[k];
    let c = a.identity.class[k];
    let v = a.layout.def_node[k];
    proof {
        lemma_def_node(&a.layout, p, t, k as int);
    }
    d.public_api && !d.dead_code_allowed && !(a.identity.production[c] && !a.identity.production_public[c])
        && contains_str(cands, d.crate_name.as_str()) && !contains_str(excl, d.crate_name.as_str())
        && !a.identity.production_root[c] && !a.required[v]
}

/// The first pass: public declarations that are dead or can be narrowed.
/// Also reports, for each identity class, whether the pass judged it.
pub fn public_pass<'a>(
    a: &Analysis<'a>,
    cands: &Vec<String>,
    excl: &Vec<String>,
    Ghost(p): Ghost<Seq<Fragment>>,
    Ghost(t): Ghost<Seq<Fragment>>,
) -> (r: (Vec<Finding<'a>>, Vec<bool>))
    requires
        a.ready(p, t),
    ensures
        finding_views(r.0@) == public_findings(p, t, cands@, excl@, a.layout.defs@.len() as int),
        r.1@.len() == a.layout.defs@.len(),
        forall|k: int|
            0 <= k < a.layout.defs@.len() ==> r.1@[#[trigger] a.identity.class@[k] as int] == judged_public(
                p,
                t,
                cands@,
                excl@,
                definition_identity_view(*a.layout.defs@[k]),
            ),
{
    let nd = a.layout.defs.len();
    let ghost ds = all_defs(p, t);
    let ghost id = |k: int| definition_identity_view(*a.layout.defs@[k]);
    let mut found: Vec<Finding<'a>> = Vec::new();
    let mut judged: Vec<bool> = Vec::new();
    let mut c: usize = 0;
    while c < nd
        invariant
            c <= nd,
            judged@.len() == c,
            forall|x: int| 0 <= x < c ==> !#[trigger] judged@[x],
        decreases nd - c,
    {
        judged.push(false);
        c = c + 1;
    }
    let mut k: usize = 0;
    while k < nd
        invariant
            a.ready(p, t),
            nd == a.layout.defs@.len(),
            ds == all_defs(p, t),
            k <= nd,
            judged@.len() == nd,
            forall|x: int|
                0 <= x < nd ==> (#[trigger] judged@[x] <==> exists|j: int|
                    0 <= j < k && #[trigger] public_candidate(p, t, cands@, excl@, j) && a.identity.class@[j] == x),
            finding_views(found@) == public_findings(p, t, cands@, excl@, k as int),
        decreases nd - k,
    {
        let cand = public_candidate_at(a, cands, excl, k, Ghost(p), Ghost(t));
        let c = a.identity.class[k];
        proof {
            lemma_def_node(&a.layout, p, t, k as int);
            assert(c < nd);
            assert forall|j: int| 0 <= j < k implies (a.identity.class@[j] == c) == (definition_identity_view(ds[j].0)
                == definition_identity_view(ds[k as int].0)) by {
                lemma_def_node(&a.layout, p, t, j);
            }
            assert(first_public_candidate(p, t, cands@, excl@, k as int) == (cand && !judged@[c as int]));
        }
        let ghost before = found@;
        if cand && !judged[c] {
            judged.set(c, true);
            let d = a.layout.defs[k];
            let production_live = live_at_definition(a, true, k, Ghost(p), Ghost(t));
            let test_live = live_at_definition(a, false, k, Ghost(p), Ghost(t));
            let test_compiled_only = !a.identity.production[c];
            if !production_live && !test_live {
                found.push(Finding { kind: FindingKind::DeadPublic, definition: d, test_only: false, test_compiled_only });
            } else if d.kind != DefinitionKind::EnumVariant {
                found.push(
                    Finding {
                        kind: FindingKind::UnnecessaryPublic,
                        definition: d,
                        test_only: !production_live && test_live,
                        test_compiled_only,
                    },
                );
            }
        }
        proof {
            let step = if first_public_candidate(p, t, cands@, excl@, k as int) {
                match public_finding(p, t, ds[k as int].0) {
                    Some(f) => seq![f],
                    None => Seq::<FindingView>::empty(),
                }
            } else {
                Seq::<FindingView>::empty()
            };
            assert(public_findings(p, t, cands@, excl@, k + 1) == public_findings(p, t, cands@, excl@, k as int)
                + step);
            assert(finding_views(found@) =~= finding_views(before) + step);
            assert forall|x: int|
                0 <= x < nd implies (#[trigger] judged@[x] <==> exists|j: int|
                    0 <= j < k + 1 && #[trigger] public_candidate(p, t, cands@, excl@, j) && a.identity.class@[j] == x) by {
                if x == c && cand {
                    assert(public_candidate(p, t, cands@, excl@, k as int) && a.identity.class@[k as int] == x);
                }
            }
        }
        k = k + 1;
    }
    proof {
        assert forall|k: int|
            0 <= k < nd implies judged@[#[trigger] a.identity.class@[k] as int] == judged_public(p, t, cands@, excl@, id(k)) by {
            lemma_def_node(&a.layout, p, t, k);
            let c = a.identity.class@[k] as int;
            if judged@[c] {
                let j = choose|j: int|
                    0 <= j < nd && #[trigger] public_candidate(p, t, cands@, excl@, j) && a.identity.class@[j] == c;
                lemma_def_node(&a.layout, p, t, j);
            }
            if judged_public(p, t, cands@, excl@, id(k)) {
                let j = choose|j: int|
                    0 <= j < ds.len() && #[trigger] public_candidate(p, t, cands@, excl@, j)
                        && definition_identity_view(ds[j].0) == id(k);
                lemma_def_node(&a.layout, p, t, j);
                assert(a.identity.class@[j] == c);
            }
        }
    }
    (found, judged)
}

/// Whether definition `k` is a restricted candidate, and what it can shrink to.
fn restricted_candidate_at(
    a: &Analysis,
    cands: &Vec<String>,
    excl: &Vec<String>,
    judged: &Vec<bool>,
    k: usize,
    Ghost(p): Ghost<Seq<Fragment>>,
    Ghost(t): Ghost<Seq<Fragment>>,
) -> (r: Option<FindingKind>)
    requires
        a.ready(p, t),
        k < a.layout.defs@.len(),
        judged@.len() == a.layout.defs@.len(),
        forall|j: int|
            0 <= j < a.layout.defs@.len() ==> judged@[#[trigger] a.identity.class@[j] as int] == judged_public(
                p,
                t,
                cands@,
                excl@,
                definition_identity_view(*a.layout.defs@[j]),
            ),
    ensures
        r is Some == restricted_candidate(p, t, cands@, excl@, k as int),
        r is Some ==> r == restricted_finding(p, t, *a.layout.defs@[k as int]),
{
    let d = a.layout.defs[k];
    let c = a.identity.class[k];
    let v = a.layout.def_node[k];
    proof {
        lemma_def_node(&a.layout, p, t, k as int);
    }
    if d.restricted_visible_api && !d.dead_code_allowed && !(a.identity.production[c]
        && !a.identity.production_restricted[c]) && contains_str(cands, d.crate_name.as_str()) && !contains_str(
        excl,
        d.crate_name.as_str(),
    ) && !a.identity.production_root[c] && !(!a.identity.production[c] && a.identity.test_binary[c]) && !judged[c] {
        restricted_kind_of(d, &a.scopes[v], Ghost(p), Ghost(t))
    } else {
        None
    }
}

/// The second pass: restricted declarations that can be narrowed, for
/// identities that the first pass did not judge.
pub fn restricted_pass<'a>(
    a: &Analysis<'a>,
    cands: &Vec<String>,
    excl: &Vec<String>,
    judged: &Vec<bool>,
    Ghost(p): Ghost<Seq<Fragment>>,
    Ghost(t): Ghost<Seq<Fragment>>,
) -> (found: Vec<Finding<'a>>)
    requires
        a.ready(p, t),
        judged@.len() == a.layout.defs@.len(),
        forall|j: int|
            0 <= j < a.layout.defs@.len() ==> judged@[#[trigger] a.identity.class@[j] as int] == judged_public(
                p,
                t,
                cands@,
                excl@,
                definition_identity_view(*a.layout.defs@[j]),
            ),
    ensures
        finding_views(found@) == restricted_findings(p, t, cands@, excl@, a.layout.defs@.len() as int),
{
    let nd = a.layout.defs.len();
    let ghost ds = all_defs(p, t);
    let mut found: Vec<Finding<'a>> = Vec::new();
    let mut reported: Vec<bool> = Vec::new();
    let mut c: usize = 0;
    while c < nd
        invariant
            c <= nd,
            reported@.len() == c,
            forall|x: int| 0 <= x < c ==> !#[trigger] reported@[x],
        decreases nd - c,
    {
        reported.push(false);
        c = c + 1;
    }
    let mut k: usize = 0;
    while k < nd
        invariant
            a.ready(p, t),
            nd == a.layout.defs@.len(),
            ds == all_defs(p, t),
            k <= nd,
            judged@.len() == nd,
            forall|j: int|
                0 <= j < nd ==> judged@[#[trigger] a.identity.class@[j] as int] == judged_public(
                    p,
                    t,
                    cands@,
                    excl@,
                    definition_identity_view(*a.layout.defs@[j]),
                ),
            reported@.len() == nd,
            forall|x: int|
                0 <= x < nd ==> (#[trigger] reported@[x] <==> exists|j: int|
                    0 <= j < k && #[trigger] restricted_candidate(p, t, cands@, excl@, j) && a.identity.class@[j] == x),
            finding_views(found@) == restricted_findings(p, t, cands@, excl@, k as int),
        decreases nd - k,
    {
        let kind = restricted_candidate_at(a, cands, excl, judged, k, Ghost(p), Ghost(t));
        let c = a.identity.class[k];
        proof {
            lemma_def_node(&a.layout, p, t, k as int);
            assert(c < nd);
            assert forall|j: int| 0 <= j < k implies (a.identity.class@[j] == c) == (definition_identity_view(ds[j].0)
                == definition_identity_view(ds[k as int].0)) by {
                lemma_def_node(&a.layout, p, t, j);
            }
            assert(first_restricted_candidate(p, t, cands@, excl@, k as int) == (kind is Some && !reported@[c as int]));
        }
        let ghost before = found@;
        match kind {
            Some(kind) => {
                if !reported[c] {
                    reported.set(c, true);
                    let d = a.layout.defs[k];
                    let production_live = live_at_definition(a, true, k, Ghost(p), Ghost(t));
                    let test_live = live_at_definition(a, false, k, Ghost(p), Ghost(t));
                    found.push(
                        Finding {
                            kind,
                            definition: d,
                            test_only: !production_live && test_live,
                            test_compiled_only: !a.identity.production[c],
                        },
                    );
                }
            },
            None => {},
        }
        proof {
            let step = if first_restricted_candidate(p, t, cands@, excl@, k as int) {
                seq![restricted_report(p, t, ds[k as int].0)]
            } else {
                Seq::<FindingView>::empty()
            };
            assert(restricted_findings(p, t, cands@, excl@, k + 1) == restricted_findings(
                p,
                t,
                cands@,
                excl@,
                k as int,
            ) + step);
            assert(finding_views(found@) =~= finding_views(before) + step);
            assert forall|x: int|
                0 <= x < nd implies (#[trigger] reported@[x] <==> exists|j: int|
                    0 <= j < k + 1 && #[trigger] restricted_candidate(p, t, cands@, excl@, j) && a.identity.class@[j]
                        == x) by {
                if x == c && kind is Some {
                    assert(restricted_candidate(p, t, cands@, excl@, k as int) && a.identity.class@[k as int] == x);
                }
            }
        }
        k = k + 1;
    }
    found
}

/// Whether definition `k` needs the visibility it has.
fn keeps_visibility_at(a: &Analysis, k: usize, Ghost(p): Ghost<Seq<Fragment>>, Ghost(t): Ghost<Seq<Fragment>>) -> (r: bool)
    requires
        a.ready(p, t),
        k < a.layout.defs@.len(),
    ensures
        r == keeps_visibility(p, t, *a.layout.defs@[k as int]),
{
    let d = a.layout.defs[k];
    let v = a.layout.def_node[k];
    proof {
        lemma_def_node(&a.layout, p, t, k as int);
    }
    if d.public_api {
        a.required[v]
    } else if d.restricted_visible_api {
        let scope = &a.scopes[v];
        match scope {
            RequiredScope::Known { crate_name, .. } => str_eq(crate_name.as_str(), d.crate_name.as_str())
                && restricted_kind_of(d, scope, Ghost(p), Ghost(t)).is_none(),
            _ => false,
        }
    } else {
        false
    }
}

/// Whether some field of the uniform group `g` of crate `c` needs its visibility.
fn protected_group_at(
    a: &Analysis,
    keeps: &Vec<bool>,
    c: &str,
    g: &Span,
    Ghost(p): Ghost<Seq<Fragment>>,
    Ghost(t): Ghost<Seq<Fragment>>,
) -> (r: bool)
    requires
        a.ready(p, t),
        keeps@.len() == a.layout.defs@.len(),
        forall|k: int| 0 <= k < keeps@.len() ==> (#[trigger] keeps@[k] == keeps_visibility(p, t, *a.layout.defs@[k])),
    ensures
        r == protected_group(p, t, c@, span_view(*g)),
{
    let nd = a.layout.defs.len();
    let ghost ds = all_defs(p, t);
    let mut k: usize = 0;
    while k < nd
        invariant
            a.ready(p, t),
            nd == a.layout.defs@.len(),
            ds == all_defs(p, t),
            keeps@.len() == nd,
            forall|j: int| 0 <= j < keeps@.len() ==> (#[trigger] keeps@[j] == keeps_visibility(p, t, *a.layout.defs@[j])),
            k <= nd,
            forall|j: int|
                0 <= j < k ==> !(#[trigger] opt_span_view(ds[j].0.uniform_field_group) == Some(span_view(*g))
                    && ds[j].0.crate_name@ == c@ && keeps_visibility(p, t, ds[j].0)),
        decreases nd - k,
    {
        proof {
            lemma_def_node(&a.layout, p, t, k as int);
        }
        let d = a.layout.defs[k];
        let same_group = match &d.uniform_field_group {
            Some(h) => str_eq(h.file.as_str(), g.file.as_str()) && h.line == g.line && h.column == g.column,
            None => false,
        };
        if same_group && str_eq(d.crate_name.as_str(), c) && keeps[k] {
            proof {
                assert(ds[k as int].0 == *d);
                assert(keeps@[k as int] == keeps_visibility(p, t, *a.layout.defs@[k as int]));
                assert(opt_span_view(ds[k as int].0.uniform_field_group) == Some(span_view(*g)));
                assert(opt_span_view(ds[k as int].0.uniform_field_group) == Some(span_view(*g)) && ds[k as int].0.crate_name@
                    == c@ && keeps_visibility(p, t, ds[k as int].0));
            }
            return true;
        }
        k = k + 1;
    }
    false
}

/// The findings that uniform field groups do not suppress, in order.
pub fn suppress_protected_fields<'a>(
    a: &Analysis<'a>,
    found: &Vec<Finding<'a>>,
    Ghost(p): Ghost<Seq<Fragment>>,
    Ghost(t): Ghost<Seq<Fragment>>,
) -> (kept: Vec<Finding<'a>>)
    requires
        a.ready(p, t),
    ensures
        finding_views(kept@) == unsuppressed(p, t, finding_views(found@)),
{
    let nd = a.layout.defs.len();
    let mut keeps: Vec<bool> = Vec::new();
    let mut k: usize = 0;
    while k < nd
        invariant
            a.ready(p, t),
            nd == a.layout.defs@.len(),
            k <= nd,
            keeps@.len() == k,
            forall|j: int| 0 <= j < k ==> (#[trigger] keeps@[j] == keeps_visibility(p, t, *a.layout.defs@[j])),
        decreases nd - k,
    {
        keeps.push(keeps_visibility_at(a, k, Ghost(p), Ghost(t)));
        k = k + 1;
    }
    let ghost fv = finding_views(found@);
    let mut kept: Vec<Finding<'a>> = Vec::new();
    let mut i: usize = 0;
    proof {
        assert(fv.take(0) =~= Seq::<FindingView>::empty());
        assert(finding_views(kept@) =~= unsuppressed(p, t, fv.take(0)));
    }
    while i < found.len()
        invariant
            a.ready(p, t),
            keeps@.len() == nd,
            nd == a.layout.defs@.len(),
            forall|j: int| 0 <= j < keeps@.len() ==> (#[trigger] keeps@[j] == keeps_visibility(p, t, *a.layout.defs@[j])),
            fv == finding_views(found@),
            i <= found@.len(),
            finding_views(kept@) == unsuppressed(p, t, fv.take(i as int)),
        decreases found@.len() - i,
    {
        let f = &found[i];
        let d = f.definition;
        let suppressed_here = if f.kind != FindingKind::DeadPublic {
            match &d.uniform_field_group {
                Some(g) => protected_group_at(a, &keeps, d.crate_name.as_str(), g, Ghost(p), Ghost(t)),
                None => false,
            }
        } else {
            false
        };
        let ghost before = kept@;
        if !suppressed_here {
            kept.push(Finding {
                kind: f.kind,
                definition: f.definition,
                test_only: f.test_only,
                test_compiled_only: f.test_compiled_only,
            });
        }
        proof {
            let s = fv.take(i + 1);
            assert(s.drop_last() =~= fv.take(i as int));
            assert(s.last() == fv[i as int]);
            assert(fv[i as int] == finding_view(found@[i as int]));
            assert(suppressed_here == suppressed(p, t, fv[i as int]));
            assert(finding_views(kept@) =~= unsuppressed(p, t, s));
        }
        i = i + 1;
    }
    proof {
        assert(fv.take(i as int) =~= fv);
    }
    kept
}

} // verus!
