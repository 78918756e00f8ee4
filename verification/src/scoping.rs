//! The least scope from which compiled code uses each id.

use vstd::prelude::*;

use crate::closure::{adj_view, adjacency_from_pairs, has_pair, node_reaches};
use crate::graphs::{admitted, edge_pairs, push_equivalence_pairs, EdgeFilter};
use crate::liveness::lemma_edge_at;
use crate::model::{Definition, DefinitionKind, EdgeKind, Fragment};
use crate::numbering::Layout;
use crate::scope::{join, RequiredScope, ScopeView};
use crate::scope_flow::{contribution, fold_scope, propagate_scopes, seed_views};
use crate::semantics::{
    all_edges, def_of, defined, edge_requirement, equivalent, gathered_scope, propagates, required_scope,
    scope_seeds, scope_step, seeds_scope,
};
use crate::text::views;
use crate::visibility::{lemma_def_at, resolved};
use crate::walk::{graph_agrees, lemma_reach_agrees, listed, named, numbering_agrees, str_reaches, Step};

verus! {

/// The scope of the module that declares `d`.
fn scope_of_definition(d: &Definition) -> (r: RequiredScope)
    ensures
        r@ == ScopeView::Known(d.crate_name@, views(d.module_scope@)),
{
    let r = RequiredScope::Known { crate_name: d.crate_name.clone(), module_scope: d.module_scope.clone() };
    proof {
        assert(views(d.module_scope@) =~= views(r->module_scope@));
    }
    r
}

/// Seeds over numbers stand for seeds over strings.
pub open spec fn seeds_stand_for(
    names: Seq<Seq<char>>,
    es: Seq<(usize, ScopeView)>,
    ss: Seq<(Seq<char>, ScopeView)>,
) -> bool {
    &&& es.len() == ss.len()
    &&& forall|i: int| 0 <= i < es.len() ==> (#[trigger] es[i]).0 < names.len() && ss[i] == (names[es[i].0 as int], es[i].1)
}

proof fn lemma_fold_gathered(
    adj: Seq<Seq<usize>>,
    names: Seq<Seq<char>>,
    step: Step,
    es: Seq<(usize, ScopeView)>,
    ss: Seq<(Seq<char>, ScopeView)>,
    v: usize,
)
    requires
        graph_agrees(adj, names, step),
        v < adj.len(),
        seeds_stand_for(names, es, ss),
    ensures
        fold_scope(adj, es, v) == gathered_scope(step, ss, names[v as int]),
    decreases es.len(),
{
    if es.len() > 0 {
        assert(seeds_stand_for(names, es.drop_last(), ss.drop_last())) by {
            assert forall|i: int| 0 <= i < es.drop_last().len() implies (#[trigger] es.drop_last()[i]).0 < names.len()
                && ss.drop_last()[i] == (names[es.drop_last()[i].0 as int], es.drop_last()[i].1) by {
                assert(es.drop_last()[i] == es[i]);
                assert(ss.drop_last()[i] == ss[i]);
            }
        }
        lemma_fold_gathered(adj, names, step, es.drop_last(), ss.drop_last(), v);
        let s0 = es.last().0;
        let last = es.len() - 1;
        assert(es[last].0 < names.len());
        assert(ss.last() == (names[s0 as int], es.last().1));
        let root = |x: Seq<char>| x == ss.last().0;
        assert forall|s: Seq<char>| #[trigger] root(s) <==> listed(names, seq![s0], s) by {
            if listed(names, seq![s0], s) {
                let k = choose|k: int| 0 <= k < 1 && #[trigger] names[seq![s0][k] as int] == s;
                assert(seq![s0][k] == s0);
            }
            if root(s) {
                assert(names[seq![s0][0] as int] == s);
            }
        }
        assert(numbering_agrees(adj, seq![s0], names, step, root));
        lemma_reach_agrees(adj, seq![s0], names, step, root, v);
        assert(contribution(adj, es.last(), v) == (if str_reaches(step, root, names[v as int]) {
            ss.last().1
        } else {
            ScopeView::Bottom
        }));
    }
}

proof fn lemma_scope_agrees(
    layout: &Layout,
    p: Seq<Fragment>,
    t: Seq<Fragment>,
    rep: Seq<usize>,
    grp: Seq<usize>,
    pairs: Seq<(usize, usize)>,
    adj: Seq<Seq<usize>>,
)
    requires
        resolved(layout, p, t, rep),
        grp.len() == layout.names().len(),
        adj.len() == layout.names().len(),
        adj.len() <= usize::MAX,
        crate::closure::graph_wf(adj),
        forall|u: usize, v: usize|
            u < adj.len() && v < adj.len() ==> (adj[u as int].contains(v) <==> has_pair(pairs, u, v)),
        forall|u: usize, v: usize|
            u < adj.len() && v < adj.len() ==> (has_pair(pairs, u, v) <==> ((exists|k: int|
                0 <= k < layout.edges@.len() && #[trigger] layout.from_node@[k] == u && layout.to_node@[k] == v
                    && admitted(layout, rep, EdgeFilter::Scope, k)) || (u != v && grp[u as int] == grp[v as int]))),
        forall|u: int, v: int|
            0 <= u < grp.len() && 0 <= v < grp.len() ==> ((u != v && #[trigger] grp[u] == #[trigger] grp[v])
                <==> equivalent(p, t, layout.names()[u], layout.names()[v])),
    ensures
        graph_agrees(adj, layout.names(), scope_step(p, t)),
{
    let names = layout.names();
    let step = scope_step(p, t);
    let es = all_edges(p, t);
    let nd = layout.defs@.len();
    layout.interner.lemma_distinct();
    assert forall|u: int, w: int| 0 <= u < adj.len() && 0 <= w < adj.len() implies (adj[u].contains(w as usize)
        <==> #[trigger] step(names[u], names[w])) by {
        let uu = u as usize;
        let ww = w as usize;
        assert(adj[uu as int].contains(ww) <==> has_pair(pairs, uu, ww));
        let edge_part = exists|k: int|
            0 <= k < es.len() && #[trigger] es[k].from@ == names[u] && es[k].to@ == names[w] && names[u] != names[w]
                && defined(p, t, names[w]) && propagates(es[k].kind);
        if exists|k: int|
            0 <= k < layout.edges@.len() && #[trigger] layout.from_node@[k] == uu && layout.to_node@[k] == ww
                && admitted(layout, rep, EdgeFilter::Scope, k) {
            let k = choose|k: int|
                0 <= k < layout.edges@.len() && #[trigger] layout.from_node@[k] == uu && layout.to_node@[k] == ww
                    && admitted(layout, rep, EdgeFilter::Scope, k);
            lemma_edge_at(layout, p, t, k);
            assert(es[k].from@ == names[u]);
            assert(rep[w] < nd);
            assert(edge_part);
        }
        if edge_part {
            let k = choose|k: int|
                0 <= k < es.len() && #[trigger] es[k].from@ == names[u] && es[k].to@ == names[w] && names[u]
                    != names[w] && defined(p, t, names[w]) && propagates(es[k].kind);
            lemma_edge_at(layout, p, t, k);
            assert(layout.from_node@[k] == uu);
            assert(layout.to_node@[k] == ww);
            assert(admitted(layout, rep, EdgeFilter::Scope, k));
        }
        assert((u != w && grp[u] == grp[w]) == equivalent(p, t, names[u], names[w]));
    }
    assert forall|u: int, s: Seq<char>| 0 <= u < adj.len() && #[trigger] step(names[u], s) implies named(names, s) by {
        crate::resolve::lemma_defined_named(layout, p, t, s);
    }
}

/// For each node, the least scope from which compiled code uses it.
pub fn required_scopes(
    layout: &Layout,
    rep: &Vec<usize>,
    grp: &Vec<usize>,
    members: &Vec<Vec<usize>>,
    Ghost(p): Ghost<Seq<Fragment>>,
    Ghost(t): Ghost<Seq<Fragment>>,
) -> (scopes: Vec<RequiredScope>)
    requires
        resolved(layout, p, t, rep@),
        grp@.len() == layout.names().len(),
        members@.len() == grp@.len(),
        forall|v: int| 0 <= v < grp@.len() ==> #[trigger] grp@[v] < grp@.len(),
        forall|g: usize, v: usize|
            g < grp@.len() && v < grp@.len() ==> (adj_view(members@)[g as int].contains(v) <==> grp@[v as int]
                == g),
        forall|g: int, k: int|
            0 <= g < members@.len() && 0 <= k < members@[g]@.len() ==> #[trigger] members@[g]@[k] < grp@.len(),
        forall|u: int, v: int|
            0 <= u < grp@.len() && 0 <= v < grp@.len() ==> ((u != v && #[trigger] grp@[u] == #[trigger] grp@[v])
                <==> equivalent(p, t, layout.names()[u], layout.names()[v])),
    ensures
        scopes@.len() == layout.names().len(),
        forall|v: int| 0 <= v < scopes@.len() ==> (#[trigger] scopes@[v])@ == required_scope(p, t, layout.names()[v]),
{
    let ghost names = layout.names();
    let ghost es = all_edges(p, t);
    let n = layout.interner.len();
    let nd = layout.defs.len();
    proof {
        layout.interner.lemma_distinct();
    }
    let mut seeds: Vec<(usize, RequiredScope)> = Vec::new();
    let mut k: usize = 0;
    proof {
        assert(seeds_stand_for(names, seed_views(seeds@), scope_seeds(p, t, 0)));
    }
    while k < layout.edges.len()
        invariant
            resolved(layout, p, t, rep@),
            names == layout.names(),
            es == all_edges(p, t),
            n == names.len(),
            nd == layout.defs@.len(),
            crate::walk::distinct_names(names),
            k <= layout.edges@.len(),
            seeds_stand_for(names, seed_views(seeds@), scope_seeds(p, t, k as int)),
        decreases layout.edges@.len() - k,
    {
        proof {
            lemma_edge_at(layout, p, t, k as int);
        }
        let a = layout.from_node[k];
        let b = layout.to_node[k];
        let ghost before = seeds@;
        if a != b && rep[b] < nd {
            let kind = layout.edges[k].kind;
            let r = if kind == EdgeKind::Reexport {
                RequiredScope::Unknown
            } else if rep[a] < nd {
                proof {
                    lemma_def_at(layout, p, t, rep@, a as int);
                }
                let d = layout.defs[rep[a]];
                if kind == EdgeKind::VisibilityParent && d.visible_reexport_api {
                    RequiredScope::Unknown
                } else {
                    scope_of_definition(d)
                }
            } else {
                RequiredScope::Unknown
            };
            proof {
                if rep@[a as int] < nd {
                    lemma_def_at(layout, p, t, rep@, a as int);
                }
                assert(r@ == edge_requirement(p, t, es[k as int]));
            }
            seeds.push((b, r));
        }
        proof {
            let ss = scope_seeds(p, t, k as int);
            assert(seeds_scope(p, t, k as int) == (a != b && rep@[b as int] < nd));
            assert(scope_seeds(p, t, k + 1) == ss + if seeds_scope(p, t, k as int) {
                seq![(es[k as int].to@, edge_requirement(p, t, es[k as int]))]
            } else {
                Seq::empty()
            });
            let sv = seed_views(seeds@);
            assert forall|i: int| 0 <= i < sv.len() implies (#[trigger] sv[i]).0 < names.len()
                && scope_seeds(p, t, k + 1)[i] == (names[sv[i].0 as int], sv[i].1) by {
                if i < before.len() {
                    assert(sv[i] == seed_views(before)[i]);
                    assert(scope_seeds(p, t, k + 1)[i] == ss[i]);
                }
            }
        }
        k = k + 1;
    }
    let mut pairs = edge_pairs(layout, rep, EdgeFilter::Scope, 0, layout.edges.len(), Ghost(p), Ghost(t));
    let mut all: Vec<bool> = Vec::new();
    let mut v: usize = 0;
    while v < n
        invariant
            v <= n,
            all@.len() == v,
            forall|w: int| 0 <= w < v ==> #[trigger] all@[w],
        decreases n - v,
    {
        all.push(true);
        v = v + 1;
    }
    push_equivalence_pairs(grp, members, &all, &mut pairs);
    let adj = adjacency_from_pairs(n, &pairs);
    proof {
        lemma_scope_agrees(layout, p, t, rep@, grp@, pairs@, adj_view(adj@));
        assert forall|i: int| 0 <= i < seeds@.len() implies (#[trigger] seeds@[i]).0 < adj@.len() by {
            assert(seed_views(seeds@)[i].0 == seeds@[i].0);
        }
    }
    let scopes = propagate_scopes(&adj, &seeds);
    proof {
        assert(es.len() == layout.edges@.len());
        assert forall|v: int| 0 <= v < scopes@.len() implies (#[trigger] scopes@[v])@ == required_scope(p, t, names[v]) by {
            lemma_fold_gathered(
                adj_view(adj@),
                names,
                scope_step(p, t),
                seed_views(seeds@),
                scope_seeds(p, t, es.len() as int),
                v as usize,
            );
        }
    }
    scopes
}

} // verus!
