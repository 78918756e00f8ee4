//! Judgements about single declarations, from the per-node results.

use vstd::prelude::*;

use crate::closure::adj_view;
use crate::liveness::{lemma_edge_at, lemma_side_edges, side_hi, side_lo};
use crate::model::{Definition, DefinitionKind, EdgeKind, FindingKind, Fragment};
use crate::numbering::{def_ids, named_by, tagged, Layout};
use crate::scope::{RequiredScope, ScopeView};
use crate::semantics::{
    all_defs, all_edges, equivalent, is_live, live_at, reexport_from, required_scope, restricted_finding,
    same_or_equivalent, side_edges,
};
use crate::text::{starts_with, str_eq, views};
use crate::visibility::resolved;

verus! {

/// Definition `k` of the layout, its node, and the string of that node.
pub proof fn lemma_def_node(layout: &Layout, p: Seq<Fragment>, t: Seq<Fragment>, k: int)
    requires
        layout.wf(p, t),
        0 <= k < layout.defs@.len(),
    ensures
        all_defs(p, t)[k].0 == *layout.defs@[k],
        all_defs(p, t)[k].1 == layout.units@[k] as int,
        layout.def_node@[k] < layout.names().len(),
        layout.names()[layout.def_node@[k] as int] == layout.defs@[k].id@,
{
    assert(tagged(layout.defs@, layout.units@)[k] == all_defs(p, t)[k]);
    assert(named_by(layout.names(), layout.def_node@)[k] == def_ids(all_defs(p, t))[k]);
}

/// Whether the first `n` entries of `b` are a prefix of `a`.
fn prefix_matches(a: &Vec<String>, b: &Vec<String>, n: usize) -> (r: bool)
    requires
        n <= b@.len(),
    ensures
        r == starts_with(views(a@), views(b@).take(n as int)),
{
    if n > a.len() {
        return false;
    }
    let mut i: usize = 0;
    while i < n
        invariant
            n <= b@.len(),
            n <= a@.len(),
            i <= n,
            forall|j: int| 0 <= j < i ==> a@[j]@ == b@[j]@,
        decreases n - i,
    {
        if !str_eq(a[i].as_str(), b[i].as_str()) {
            proof {
                assert(views(a@).subrange(0, n as int)[i as int] != views(b@).take(n as int)[i as int]);
            }
            return false;
        }
        i = i + 1;
    }
    proof {
        assert(views(a@).subrange(0, n as int) =~= views(b@).take(n as int));
    }
    true
}

/// What a restricted declaration can shrink to, given the scope its uses require.
pub fn restricted_kind_of(d: &Definition, scope: &RequiredScope, Ghost(p): Ghost<Seq<Fragment>>, Ghost(t): Ghost<Seq<Fragment>>) -> (r: Option<FindingKind>)
    requires
        scope@ == required_scope(p, t, d.id@),
    ensures
        r == restricted_finding(p, t, *d),
{
    if d.kind == DefinitionKind::EnumVariant || d.kind == DefinitionKind::Reexport {
        return None;
    }
    match scope {
        RequiredScope::Bottom => Some(FindingKind::UnnecessaryRestrictedVisibility),
        RequiredScope::Unknown => None,
        RequiredScope::Known { crate_name, module_scope } => {
            if !str_eq(crate_name.as_str(), d.crate_name.as_str()) {
                None
            } else if prefix_matches(module_scope, &d.module_scope, d.module_scope.len()) {
                proof {
                    assert(views(d.module_scope@).take(d.module_scope@.len() as int) =~= views(d.module_scope@));
                }
                Some(FindingKind::UnnecessaryRestrictedVisibility)
            } else {
                proof {
                    assert(views(d.module_scope@).take(d.module_scope@.len() as int) =~= views(d.module_scope@));
                }
                if d.crate_visible_api && d.module_scope.len() > 0 {
                    let parent = prefix_matches(module_scope, &d.module_scope, d.module_scope.len() - 1);
                    proof {
                        assert(views(d.module_scope@).take(d.module_scope@.len() - 1) =~= views(
                            d.module_scope@,
                        ).drop_last());
                    }
                    if parent {
                        Some(FindingKind::UnnecessaryCrateVisibility)
                    } else {
                        None
                    }
                } else {
                    None
                }
            }
        },
    }
}

/// Whether definition `k` is live on a side: it or an equivalent id is
/// reachable there, or, for a re-export, one of their targets is.
pub fn live_definition(
    layout: &Layout,
    grp: &Vec<usize>,
    members: &Vec<Vec<usize>>,
    live: &Vec<bool>,
    prod: bool,
    k: usize,
    Ghost(p): Ghost<Seq<Fragment>>,
    Ghost(t): Ghost<Seq<Fragment>>,
) -> (r: bool)
    requires
        layout.wf(p, t),
        k < layout.defs@.len(),
        grp@.len() == layout.names().len(),
        members@.len() == grp@.len(),
        forall|v: int| 0 <= v < grp@.len() ==> #[trigger] grp@[v] < grp@.len(),
        forall|g: usize, v: usize|
            g < grp@.len() && v < grp@.len() ==> (adj_view(members@)[g as int].contains(v) <==> grp@[v as int]
                == g),
        forall|g: int, j: int|
            0 <= g < members@.len() && 0 <= j < members@[g]@.len() ==> #[trigger] members@[g]@[j] < grp@.len(),
        forall|u: int, v: int|
            0 <= u < grp@.len() && 0 <= v < grp@.len() ==> ((u != v && #[trigger] grp@[u] == #[trigger] grp@[v])
                <==> equivalent(p, t, layout.names()[u], layout.names()[v])),
        live@.len() == layout.names().len(),
        forall|v: int| 0 <= v < live@.len() ==> (#[trigger] live@[v] <==> live_at(p, t, prod, layout.names()[v])),
    ensures
        r == is_live(p, t, prod, *layout.defs@[k as int]),
{
    let ghost names = layout.names();
    let d = layout.defs[k];
    let v = layout.def_node[k];
    proof {
        lemma_def_node(layout, p, t, k as int);
        layout.interner.lemma_distinct();
    }
    let ghost s = d.id@;
    if d.kind == DefinitionKind::Reexport {
        let (lo, hi) = if prod {
            (0, layout.production_edges)
        } else {
            (layout.production_edges, layout.edges.len())
        };
        let ghost es = side_edges(p, t, prod);
        proof {
            lemma_side_edges(layout, p, t, prod);
        }
        let mut j: usize = lo;
        while j < hi
            invariant
                layout.wf(p, t),
                names == layout.names(),
                crate::walk::distinct_names(names),
                es == side_edges(p, t, prod),
                lo == side_lo(layout, prod),
                hi == side_hi(layout, prod),
                es.len() == hi - lo,
                forall|x: int| 0 <= x < es.len() ==> #[trigger] es[x] == all_edges(p, t)[lo + x],
                v < names.len(),
                names[v as int] == s,
                grp@.len() == names.len(),
                forall|u: int, w: int|
                    0 <= u < grp@.len() && 0 <= w < grp@.len() ==> ((u != w && #[trigger] grp@[u] == #[trigger] grp@[w])
                        <==> equivalent(p, t, names[u], names[w])),
                live@.len() == names.len(),
                forall|w: int| 0 <= w < live@.len() ==> (#[trigger] live@[w] <==> live_at(p, t, prod, names[w])),
                lo <= j <= hi,
                k < layout.defs@.len(),
                *d == *layout.defs@[k as int],
                s == d.id@,
                d.kind == DefinitionKind::Reexport,
                forall|x: int|
                    0 <= x < j - lo ==> !(#[trigger] reexport_from(es, x, es[x].from@) && same_or_equivalent(
                        p,
                        t,
                        s,
                        es[x].from@,
                    ) && live_at(p, t, prod, es[x].to@)),
            decreases hi - j,
        {
            proof {
                lemma_edge_at(layout, p, t, j as int);
                assert(es[j - lo] == all_edges(p, t)[j as int]);
            }
            let a = layout.from_node[j];
            let b = layout.to_node[j];
            if layout.edges[j].kind == EdgeKind::Reexport && (a == v || grp[a] == grp[v]) && live[b] {
                proof {
                    let x = j - lo;
                    assert(reexport_from(es, x, es[x].from@));
                    assert(same_or_equivalent(p, t, s, es[x].from@));
                    assert(names[b as int] == es[x].to@);
                    assert(live_at(p, t, prod, es[x].to@));
                    assert(reexport_from(side_edges(p, t, prod), x, side_edges(p, t, prod)[x].from@)
                        && same_or_equivalent(p, t, d.id@, side_edges(p, t, prod)[x].from@) && live_at(
                        p,
                        t,
                        prod,
                        side_edges(p, t, prod)[x].to@,
                    ));
                }
                return true;
            }
            proof {
                let x = j - lo;
                assert((a == v || (a != v && grp@[a as int] == grp@[v as int])) == same_or_equivalent(
                    p,
                    t,
                    s,
                    es[x].from@,
                ));
            }
            j = j + 1;
        }
        false
    } else {
        let list = &members[grp[v]];
        let n = grp.len();
        proof {
            assert(adj_view(members@)[grp@[v as int] as int] == list@);
            assert forall|w: usize| w < names.len() implies (list@.contains(w) <==> grp@[w as int] == grp@[v as int]) by {
                assert(adj_view(members@)[grp@[v as int] as int].contains(w) <==> grp@[w as int] == grp@[v as int]);
            }
        }
        let mut x: usize = 0;
        while x < list.len()
            invariant
                names == layout.names(),
                v < names.len(),
                names[v as int] == s,
                grp@.len() == names.len(),
                live@.len() == names.len(),
                forall|w: int| 0 <= w < live@.len() ==> (#[trigger] live@[w] <==> live_at(p, t, prod, names[w])),
                forall|i: int| 0 <= i < list@.len() ==> #[trigger] list@[i] < names.len(),
                forall|w: usize| w < names.len() ==> (list@.contains(w) <==> grp@[w as int] == grp@[v as int]),
                forall|u: int, w: int|
                    0 <= u < grp@.len() && 0 <= w < grp@.len() ==> ((u != w && #[trigger] grp@[u] == #[trigger] grp@[w])
                        <==> equivalent(p, t, names[u], names[w])),
                x <= list@.len(),
                n == grp@.len(),
                k < layout.defs@.len(),
                *d == *layout.defs@[k as int],
                s == d.id@,
                d.kind != DefinitionKind::Reexport,
                forall|i: int| 0 <= i < x ==> !(#[trigger] live@[list@[i] as int]),
            decreases list@.len() - x,
        {
            let w = list[x];
            if live[w] {
                proof {
                    assert(list@[x as int] == w);
                    assert(list@.contains(w));
                    assert(grp@[w as int] == grp@[v as int]);
                    assert(same_or_equivalent(p, t, s, names[w as int]));
                }
                return true;
            }
            x = x + 1;
        }
        proof {
            assert forall|a: Seq<char>| !(#[trigger] same_or_equivalent(p, t, s, a) && live_at(p, t, prod, a)) by {
                if same_or_equivalent(p, t, s, a) && live_at(p, t, prod, a) {
                    let w: int = if a == s {
                        v as int
                    } else {
                        crate::resolve::lemma_defined_named(layout, p, t, a);
                        choose|w: int| 0 <= w < names.len() && #[trigger] names[w] == a
                    };
                    assert(names[w] == a);
                    assert(0 <= w < grp@.len());
                    assert(grp@[w] == grp@[v as int]);
                    let wu = w as usize;
                    assert(wu as int == w);
                    assert(list@.contains(wu));
                    let i = choose|i: int| 0 <= i < list@.len() && list@[i] == wu;
                    assert(live@[list@[i] as int]);
                }
            }
        }
        false
    }
}

} // verus!
