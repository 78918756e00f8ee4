//! Which ids each side reaches from its entry points.

use vstd::prelude::*;

use crate::closure::{adj_view, adjacency_from_pairs, has_pair, reachable_nodes};
use crate::graphs::{admitted, edge_pairs, push_equivalence_pairs, side_declarations, EdgeFilter};
use crate::model::{Edge, EdgeKind, Fragment};
use crate::numbering::{
    edge_froms, edge_tos, edge_values, lemma_runtime_root_strings, named_by, runtime_root_strings, Layout,
};
use crate::semantics::{
    all_edges, equivalent, flat_edges, live_at, runtime_edge, runtime_root, runtime_step, side_declares,
    side_edges, side_frags,
};
use crate::walk::{lemma_reach_agrees, listed, named, numbering_agrees};

verus! {

/// Edge `k` of the layout is edge `k` of the fragments, and its ends are numbered.
pub proof fn lemma_edge_at(layout: &Layout, p: Seq<Fragment>, t: Seq<Fragment>, k: int)
    requires
        layout.wf(p, t),
        0 <= k < layout.edges@.len(),
    ensures
        all_edges(p, t)[k] == *layout.edges@[k],
        layout.from_node@[k] < layout.names().len(),
        layout.to_node@[k] < layout.names().len(),
        layout.names()[layout.from_node@[k] as int] == all_edges(p, t)[k].from@,
        layout.names()[layout.to_node@[k] as int] == all_edges(p, t)[k].to@,
{
    assert(edge_values(layout.edges@)[k] == all_edges(p, t)[k]);
    assert(named_by(layout.names(), layout.from_node@)[k] == edge_froms(all_edges(p, t))[k]);
    assert(named_by(layout.names(), layout.to_node@)[k] == edge_tos(all_edges(p, t))[k]);
}

/// The first and one-past-last positions of a side's edges among all edges.
pub open spec fn side_lo(layout: &Layout, prod: bool) -> int {
    if prod {
        0
    } else {
        layout.production_edges as int
    }
}

pub open spec fn side_hi(layout: &Layout, prod: bool) -> int {
    if prod {
        layout.production_edges as int
    } else {
        layout.edges@.len() as int
    }
}

/// A side's edges are a stretch of all edges.
pub proof fn lemma_side_edges(layout: &Layout, p: Seq<Fragment>, t: Seq<Fragment>, prod: bool)
    requires
        layout.wf(p, t),
    ensures
        side_edges(p, t, prod).len() == side_hi(layout, prod) - side_lo(layout, prod),
        forall|j: int|
            0 <= j < side_edges(p, t, prod).len() ==> #[trigger] side_edges(p, t, prod)[j] == all_edges(p, t)[side_lo(
                layout,
                prod,
            ) + j],
{
    let a = flat_edges(p);
    let b = flat_edges(t);
    assert(all_edges(p, t) == a + b);
    assert forall|j: int|
        0 <= j < side_edges(p, t, prod).len() implies #[trigger] side_edges(p, t, prod)[j] == all_edges(p, t)[side_lo(
            layout,
            prod,
        ) + j] by {
        if prod {
            assert((a + b)[j] == a[j]);
        } else {
            assert((a + b)[a.len() + j] == b[j]);
        }
    }
}

proof fn lemma_runtime_agrees(
    layout: &Layout,
    p: Seq<Fragment>,
    t: Seq<Fragment>,
    prod: bool,
    rep: Seq<usize>,
    grp: Seq<usize>,
    decl: Seq<bool>,
    pairs: Seq<(usize, usize)>,
    adj: Seq<Seq<usize>>,
    roots: Seq<usize>,
)
    requires
        layout.wf(p, t),
        rep.len() == layout.names().len(),
        grp.len() == layout.names().len(),
        decl.len() == layout.names().len(),
        adj.len() == layout.names().len(),
        adj.len() <= usize::MAX,
        crate::closure::graph_wf(adj),
        roots == (if prod {
            layout.production_roots@
        } else {
            layout.test_roots@
        }),
        forall|u: usize, v: usize|
            u < adj.len() && v < adj.len() ==> (adj[u as int].contains(v) <==> has_pair(pairs, u, v)),
        forall|u: usize, v: usize|
            u < adj.len() && v < adj.len() ==> (has_pair(pairs, u, v) <==> ((exists|k: int|
                side_lo(layout, prod) <= k < side_hi(layout, prod) && #[trigger] layout.from_node@[k] == u
                    && layout.to_node@[k] == v && admitted(layout, rep, EdgeFilter::Runtime, k)) || (u != v
                && grp[u as int] == grp[v as int] && decl[u as int] && decl[v as int]))),
        forall|v: int| 0 <= v < decl.len() ==> (#[trigger] decl[v] <==> side_declares(p, t, prod, layout.names()[v])),
        forall|u: int, v: int|
            0 <= u < grp.len() && 0 <= v < grp.len() ==> ((u != v && #[trigger] grp[u] == #[trigger] grp[v])
                <==> equivalent(p, t, layout.names()[u], layout.names()[v])),
    ensures
        numbering_agrees(adj, roots, layout.names(), runtime_step(p, t, prod), runtime_root(p, t, prod)),
{
    let names = layout.names();
    let n = names.len();
    let step = runtime_step(p, t, prod);
    let lo = side_lo(layout, prod);
    let hi = side_hi(layout, prod);
    let es = side_edges(p, t, prod);
    layout.interner.lemma_distinct();
    lemma_side_edges(layout, p, t, prod);
    assert forall|u: int, w: int| 0 <= u < adj.len() && 0 <= w < adj.len() implies (adj[u].contains(w as usize)
        <==> #[trigger] step(names[u], names[w])) by {
        let uu = u as usize;
        let ww = w as usize;
        assert(adj[uu as int].contains(ww) <==> has_pair(pairs, uu, ww));
        if exists|k: int|
            lo <= k < hi && #[trigger] layout.from_node@[k] == uu && layout.to_node@[k] == ww && admitted(
                layout,
                rep,
                EdgeFilter::Runtime,
                k,
            ) {
            let k = choose|k: int|
                lo <= k < hi && #[trigger] layout.from_node@[k] == uu && layout.to_node@[k] == ww && admitted(
                    layout,
                    rep,
                    EdgeFilter::Runtime,
                    k,
                );
            lemma_edge_at(layout, p, t, k);
            assert(es[k - lo] == all_edges(p, t)[k]);
            assert(es[k - lo].from@ == names[u]);
            assert(runtime_edge(es, names[u], names[w]));
        }
        if runtime_edge(es, names[u], names[w]) {
            let j = choose|j: int|
                0 <= j < es.len() && #[trigger] es[j].from@ == names[u] && es[j].to@ == names[w] && es[j].kind
                    != EdgeKind::VisibilityRequirement;
            let k = lo + j;
            lemma_edge_at(layout, p, t, k);
            assert(layout.from_node@[k] == uu);
            assert(layout.to_node@[k] == ww);
            assert(admitted(layout, rep, EdgeFilter::Runtime, k));
        }
        assert(decl[u] == side_declares(p, t, prod, names[u]));
        assert(decl[w] == side_declares(p, t, prod, names[w]));
        assert((u != w && grp[u] == grp[w]) == equivalent(p, t, names[u], names[w]));
    }
    assert forall|u: int, s: Seq<char>| 0 <= u < adj.len() && #[trigger] step(names[u], s) implies named(names, s) by {
        if runtime_edge(es, names[u], s) {
            let j = choose|j: int|
                0 <= j < es.len() && #[trigger] es[j].from@ == names[u] && es[j].to@ == s && es[j].kind
                    != EdgeKind::VisibilityRequirement;
            lemma_edge_at(layout, p, t, lo + j);
            assert(names[layout.to_node@[lo + j] as int] == s);
        } else {
            crate::resolve::lemma_defined_named(layout, p, t, s);
        }
    }
    let root = runtime_root(p, t, prod);
    let frags = side_frags(p, t, prod);
    assert forall|s: Seq<char>| #[trigger] root(s) <==> listed(names, roots, s) by {
        lemma_runtime_root_strings(frags, s);
        let rs = runtime_root_strings(frags);
        assert(named_by(names, roots) == rs);
        if rs.contains(s) {
            let k = choose|k: int| 0 <= k < rs.len() && rs[k] == s;
            assert(names[roots[k] as int] == s);
        }
        if exists|k: int| 0 <= k < roots.len() && #[trigger] names[roots[k] as int] == s {
            let k = choose|k: int| 0 <= k < roots.len() && #[trigger] names[roots[k] as int] == s;
            assert(rs[k] == s);
        }
    }
}

/// For each node, whether the side reaches it from its entry points.
pub fn live_nodes(
    layout: &Layout,
    rep: &Vec<usize>,
    grp: &Vec<usize>,
    members: &Vec<Vec<usize>>,
    prod: bool,
    np: usize,
    Ghost(p): Ghost<Seq<Fragment>>,
    Ghost(t): Ghost<Seq<Fragment>>,
) -> (live: Vec<bool>)
    requires
        layout.wf(p, t),
        np == p.len(),
        rep@.len() == layout.names().len(),
        grp@.len() == layout.names().len(),
        members@.len() == grp@.len(),
        forall|v: int| 0 <= v < grp@.len() ==> #[trigger] grp@[v] < grp@.len(),
        forall|g: usize, v: usize|
            g < grp@.len() && v < grp@.len() ==> (adj_view(members@)[g as int].contains(v) <==> grp@[v as int]
                == g),
        forall|g: int, k: int|
            0 <= g < members@.len() && 0 <= k < members@[g]@.len() ==> #[trigger] members@[g]@[k] < grp@.len(),
        forall|u: int, v: int|
            0 <= u < grp@.len() && 0 <= v < grp@.len() ==> ((u != v && #[trigger] grp@[u] == #[trigger] grp@[v])
                <==> equivalent(p, t, layout.names()[u], layout.names()[v])),
    ensures
        live@.len() == layout.names().len(),
        forall|v: int| 0 <= v < live@.len() ==> (#[trigger] live@[v] <==> live_at(p, t, prod, layout.names()[v])),
{
    let n = layout.interner.len();
    let (lo, hi) = if prod {
        (0, layout.production_edges)
    } else {
        (layout.production_edges, layout.edges.len())
    };
    let mut pairs = edge_pairs(layout, rep, EdgeFilter::Runtime, lo, hi, Ghost(p), Ghost(t));
    let decl = side_declarations(layout, prod, np, Ghost(p), Ghost(t));
    let ghost edge_only = pairs@;
    push_equivalence_pairs(grp, members, &decl, &mut pairs);
    let adj = adjacency_from_pairs(n, &pairs);
    let roots = if prod {
        &layout.production_roots
    } else {
        &layout.test_roots
    };
    proof {
        assert forall|k: int| 0 <= k < roots@.len() implies #[trigger] roots@[k] < adj@.len() by {}
    }
    let live = reachable_nodes(&adj, roots);
    proof {
        lemma_runtime_agrees(layout, p, t, prod, rep@, grp@, decl@, pairs@, adj_view(adj@), roots@);
        assert forall|v: int| 0 <= v < live@.len() implies (#[trigger] live@[v] <==> live_at(
            p,
            t,
            prod,
            layout.names()[v],
        )) by {
            lemma_reach_agrees(
                adj_view(adj@),
                roots@,
                layout.names(),
                runtime_step(p, t, prod),
                runtime_root(p, t, prod),
                v as usize,
            );
        }
    }
    live
}

} // verus!
