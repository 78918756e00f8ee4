//! The numbered graphs of the analysis, each built from a list of pairs.

use vstd::prelude::*;

use crate::closure::{adj_view, adjacency_from_pairs, has_pair};
use crate::model::{EdgeKind, Fragment};
use crate::numbering::{edge_values, Layout};

verus! {

/// Pushing `x` adds exactly the pair `x`.
pub proof fn lemma_has_pair_push(pairs: Seq<(usize, usize)>, x: (usize, usize), u: usize, v: usize)
    ensures
        has_pair(pairs.push(x), u, v) <==> (has_pair(pairs, u, v) || x == (u, v)),
{
    let q = pairs.push(x);
    if has_pair(q, u, v) {
        let k = choose|k: int| 0 <= k < q.len() && #[trigger] q[k] == (u, v);
        if k < pairs.len() {
            assert(pairs[k] == (u, v));
        }
    }
    if has_pair(pairs, u, v) {
        let k = choose|k: int| 0 <= k < pairs.len() && #[trigger] pairs[k] == (u, v);
        assert(q[k] == (u, v));
    }
    if x == (u, v) {
        assert(q[pairs.len() as int] == (u, v));
    }
}

/// All pairs are below `n`.
pub open spec fn pairs_below(pairs: Seq<(usize, usize)>, n: nat) -> bool {
    forall|k: int| 0 <= k < pairs.len() ==> (#[trigger] pairs[k]).0 < n && pairs[k].1 < n
}

/// For each group number, the nodes in that group.
pub fn group_members(grp: &Vec<usize>) -> (members: Vec<Vec<usize>>)
    requires
        forall|v: int| 0 <= v < grp@.len() ==> #[trigger] grp@[v] < grp@.len(),
    ensures
        members@.len() == grp@.len(),
        forall|g: usize, v: usize|
            g < grp@.len() && v < grp@.len() ==> (adj_view(members@)[g as int].contains(v) <==> grp@[v as int]
                == g),
        forall|g: int, k: int|
            0 <= g < members@.len() && 0 <= k < members@[g]@.len() ==> #[trigger] members@[g]@[k] < grp@.len(),
{
    let n = grp.len();
    let mut pairs: Vec<(usize, usize)> = Vec::new();
    let mut v: usize = 0;
    while v < n
        invariant
            n == grp@.len(),
            v <= n,
            forall|x: int| 0 <= x < grp@.len() ==> #[trigger] grp@[x] < grp@.len(),
            pairs_below(pairs@, n as nat),
            forall|g: usize, w: usize| g < n && w < n ==> (has_pair(pairs@, g, w) <==> (w < v && grp@[w as int] == g)),
        decreases n - v,
    {
        let ghost before = pairs@;
        pairs.push((grp[v], v));
        proof {
            assert forall|g: usize, w: usize| g < n && w < n implies (has_pair(pairs@, g, w) <==> (w < v + 1
                && grp@[w as int] == g)) by {
                lemma_has_pair_push(before, (grp@[v as int], v), g, w);
            }
        }
        v = v + 1;
    }
    let members = adjacency_from_pairs(n, &pairs);
    proof {
        assert forall|g: usize, w: usize| g < n && w < n implies (adj_view(members@)[g as int].contains(w)
            <==> grp@[w as int] == g) by {
            assert(adj_view(members@)[g as int].contains(w) <==> has_pair(pairs@, g, w));
        }
        assert forall|g: int, k: int| 0 <= g < members@.len() && 0 <= k < members@[g]@.len() implies #[trigger] members@[g]@[k]
            < grp@.len() by {
            assert(adj_view(members@)[g][k] == members@[g]@[k]);
        }
    }
    members
}

/// Appends the pairs of distinct nodes in one group that `keep` admits.
pub fn push_equivalence_pairs(
    grp: &Vec<usize>,
    members: &Vec<Vec<usize>>,
    keep: &Vec<bool>,
    pairs: &mut Vec<(usize, usize)>,
)
    requires
        members@.len() == grp@.len(),
        keep@.len() == grp@.len(),
        forall|v: int| 0 <= v < grp@.len() ==> #[trigger] grp@[v] < grp@.len(),
        forall|g: usize, v: usize|
            g < grp@.len() && v < grp@.len() ==> (adj_view(members@)[g as int].contains(v) <==> grp@[v as int]
                == g),
        forall|g: int, k: int|
            0 <= g < members@.len() && 0 <= k < members@[g]@.len() ==> #[trigger] members@[g]@[k] < grp@.len(),
        pairs_below(old(pairs)@, grp@.len()),
    ensures
        pairs_below(final(pairs)@, grp@.len()),
        forall|u: usize, v: usize|
            u < grp@.len() && v < grp@.len() ==> (has_pair(final(pairs)@, u, v) <==> (has_pair(old(pairs)@, u, v)
                || (u != v && grp@[u as int] == grp@[v as int] && keep@[u as int] && keep@[v as int]))),
{
    let n = grp.len();
    let mut u: usize = 0;
    while u < n
        invariant
            n == grp@.len(),
            u <= n,
            members@.len() == n,
            keep@.len() == n,
            forall|v: int| 0 <= v < n ==> #[trigger] grp@[v] < n,
            forall|g: usize, v: usize|
                g < n && v < n ==> (adj_view(members@)[g as int].contains(v) <==> grp@[v as int] == g),
            forall|g: int, k: int| 0 <= g < n && 0 <= k < members@[g]@.len() ==> #[trigger] members@[g]@[k] < n,
            pairs_below(pairs@, n as nat),
            forall|a: usize, b: usize|
                a < n && b < n ==> (has_pair(pairs@, a, b) <==> (has_pair(old(pairs)@, a, b) || (a < u && a != b
                    && grp@[a as int] == grp@[b as int] && keep@[a as int] && keep@[b as int]))),
        decreases n - u,
    {
        if keep[u] {
            let list = &members[grp[u]];
            proof {
                assert(adj_view(members@)[grp@[u as int] as int] == members@[grp@[u as int] as int]@);
                assert forall|v: usize| v < n implies (list@.contains(v) <==> grp@[v as int] == grp@[u as int]) by {
                    assert(adj_view(members@)[grp@[u as int] as int].contains(v) <==> grp@[v as int] == grp@[u as int]);
                }
            }
            let mut x: usize = 0;
            while x < list.len()
                invariant
                    n == grp@.len(),
                    u < n,
                    keep@.len() == n,
                    keep@[u as int],
                    grp@[u as int] < n,
                    list@ == members@[grp@[u as int] as int]@,
                    x <= list@.len(),
                    forall|k: int| 0 <= k < list@.len() ==> #[trigger] list@[k] < n,
                    forall|v: usize| v < n ==> (list@.contains(v) <==> grp@[v as int] == grp@[u as int]),
                    pairs_below(pairs@, n as nat),
                    forall|a: usize, b: usize|
                        a < n && b < n ==> (has_pair(pairs@, a, b) <==> (has_pair(old(pairs)@, a, b) || (a < u
                            && a != b && grp@[a as int] == grp@[b as int] && keep@[a as int] && keep@[b as int])
                            || (a == u && a != b && list@.take(x as int).contains(b) && keep@[b as int]))),
                decreases list@.len() - x,
            {
                let w = list[x];
                let ghost before = pairs@;
                if w != u && keep[w] {
                    pairs.push((u, w));
                }
                proof {
                    assert(list@.take(x + 1) =~= list@.take(x as int).push(w));
                    assert forall|b: usize| #[trigger] list@.take(x + 1).contains(b) <==> (list@.take(x as int).contains(b) || b == w) by {
                        if list@.take(x + 1).contains(b) && !list@.take(x as int).contains(b) {
                            let k = choose|k: int| 0 <= k < x + 1 && #[trigger] list@.take(x + 1)[k] == b;
                            if k < x {
                                assert(list@.take(x as int)[k] == b);
                            }
                        }
                        if list@.take(x as int).contains(b) {
                            let k = choose|k: int| 0 <= k < x && #[trigger] list@.take(x as int)[k] == b;
                            assert(list@.take(x + 1)[k] == b);
                        }
                        if b == w {
                            assert(list@.take(x + 1)[x as int] == b);
                        }
                    }
                    assert forall|a: usize, b: usize| a < n && b < n implies (has_pair(pairs@, a, b) <==> (has_pair(
                        old(pairs)@,
                        a,
                        b,
                    ) || (a < u && a != b && grp@[a as int] == grp@[b as int] && keep@[a as int] && keep@[b as int])
                        || (a == u && a != b && list@.take(x + 1).contains(b) && keep@[b as int]))) by {
                        if w != u && keep@[w as int] {
                            lemma_has_pair_push(before, (u, w), a, b);
                        }
                        assert(list@.take(x + 1).contains(b) <==> (list@.take(x as int).contains(b) || b == w));
                    }
                }
                x = x + 1;
            }
            proof {
                assert(list@.take(x as int) =~= list@);
                assert forall|a: usize, b: usize| a < n && b < n implies (has_pair(pairs@, a, b) <==> (has_pair(
                    old(pairs)@,
                    a,
                    b,
                ) || (a < u + 1 && a != b && grp@[a as int] == grp@[b as int] && keep@[a as int]
                    && keep@[b as int]))) by {
                    if a == u {
                        assert(list@.contains(b) <==> grp@[b as int] == grp@[u as int]);
                    }
                }
            }
        }
        u = u + 1;
    }
}

/// Which edges a graph is built from.
#[derive(Clone, Copy, PartialEq, Eq, Structural)]
pub enum EdgeFilter {
    /// Every edge but a visibility requirement.
    Runtime,
    /// Edges that carry a visibility requirement into a defined id.
    Interface,
    /// Like `Interface`, between distinct ids.
    Scope,
}

/// The filter admits an edge of kind `kind` from node `from` to node `to`.
pub open spec fn admits(f: EdgeFilter, kind: EdgeKind, from: usize, to: usize, to_defined: bool) -> bool {
    match f {
        EdgeFilter::Runtime => kind != EdgeKind::VisibilityRequirement,
        EdgeFilter::Interface => kind != EdgeKind::Body && to_defined,
        EdgeFilter::Scope => kind != EdgeKind::Body && to_defined && from != to,
    }
}

/// Edge `k` of the layout is admitted by `f`.
pub open spec fn admitted(layout: &Layout, rep: Seq<usize>, f: EdgeFilter, k: int) -> bool {
    admits(
        f,
        layout.edges@[k].kind,
        layout.from_node@[k],
        layout.to_node@[k],
        rep[layout.to_node@[k] as int] < layout.defs@.len(),
    )
}

/// The pairs of the edges in `lo..hi` that `f` admits.
pub fn edge_pairs(
    layout: &Layout,
    rep: &Vec<usize>,
    f: EdgeFilter,
    lo: usize,
    hi: usize,
    Ghost(p): Ghost<Seq<Fragment>>,
    Ghost(t): Ghost<Seq<Fragment>>,
) -> (pairs: Vec<(usize, usize)>)
    requires
        layout.wf(p, t),
        rep@.len() == layout.names().len(),
        lo <= hi <= layout.edges@.len(),
    ensures
        pairs_below(pairs@, layout.names().len()),
        forall|u: usize, v: usize|
            u < layout.names().len() && v < layout.names().len() ==> (has_pair(pairs@, u, v) <==> exists|k: int|
                lo <= k < hi && #[trigger] layout.from_node@[k] == u && layout.to_node@[k] == v && admitted(
                    layout,
                    rep@,
                    f,
                    k,
                )),
{
    let n = layout.interner.len();
    let nd = layout.defs.len();
    let mut pairs: Vec<(usize, usize)> = Vec::new();
    let mut k: usize = lo;
    while k < hi
        invariant
            layout.wf(p, t),
            n == layout.names().len(),
            nd == layout.defs@.len(),
            rep@.len() == n,
            lo <= k <= hi,
            hi <= layout.edges@.len(),
            pairs_below(pairs@, n as nat),
            forall|u: usize, v: usize|
                u < n && v < n ==> (has_pair(pairs@, u, v) <==> exists|j: int|
                    lo <= j < k && #[trigger] layout.from_node@[j] == u && layout.to_node@[j] == v && admitted(
                        layout,
                        rep@,
                        f,
                        j,
                    )),
        decreases hi - k,
    {
        let a = layout.from_node[k];
        let b = layout.to_node[k];
        proof {
            assert(layout.from_node@[k as int] < n);
            assert(layout.to_node@[k as int] < n);
        }
        let kind = layout.edges[k].kind;
        let keep = match f {
            EdgeFilter::Runtime => kind != EdgeKind::VisibilityRequirement,
            EdgeFilter::Interface => kind != EdgeKind::Body && rep[b] < nd,
            EdgeFilter::Scope => kind != EdgeKind::Body && rep[b] < nd && a != b,
        };
        let ghost before = pairs@;
        if keep {
            pairs.push((a, b));
        }
        proof {
            assert(keep == admitted(layout, rep@, f, k as int));
            assert forall|u: usize, v: usize| u < n && v < n implies (has_pair(pairs@, u, v) <==> exists|j: int|
                lo <= j < k + 1 && #[trigger] layout.from_node@[j] == u && layout.to_node@[j] == v && admitted(
                    layout,
                    rep@,
                    f,
                    j,
                )) by {
                if keep {
                    lemma_has_pair_push(before, (a, b), u, v);
                }
                if exists|j: int|
                    lo <= j < k + 1 && #[trigger] layout.from_node@[j] == u && layout.to_node@[j] == v && admitted(
                        layout,
                        rep@,
                        f,
                        j,
                    ) {
                    let j = choose|j: int|
                        lo <= j < k + 1 && #[trigger] layout.from_node@[j] == u && layout.to_node@[j] == v
                            && admitted(layout, rep@, f, j);
                    if j < k {
                        assert(has_pair(before, u, v));
                    }
                }
            }
        }
        k = k + 1;
    }
    pairs
}

/// For each node, whether a definition of the given side has it as id.
pub fn side_declarations(
    layout: &Layout,
    prod: bool,
    np: usize,
    Ghost(p): Ghost<Seq<Fragment>>,
    Ghost(t): Ghost<Seq<Fragment>>,
) -> (decl: Vec<bool>)
    requires
        layout.wf(p, t),
        np == p.len(),
    ensures
        decl@.len() == layout.names().len(),
        forall|v: int|
            0 <= v < decl@.len() ==> (#[trigger] decl@[v] <==> crate::semantics::side_declares(
                p,
                t,
                prod,
                layout.names()[v],
            )),
{
    let n = layout.interner.len();
    let nd = layout.defs.len();
    let ghost ds = crate::semantics::all_defs(p, t);
    let mut decl: Vec<bool> = Vec::new();
    let mut v: usize = 0;
    while v < n
        invariant
            v <= n,
            decl@.len() == v,
            forall|w: int| 0 <= w < v ==> !#[trigger] decl@[w],
        decreases n - v,
    {
        decl.push(false);
        v = v + 1;
    }
    let mut k: usize = 0;
    while k < nd
        invariant
            layout.wf(p, t),
            n == layout.names().len(),
            nd == layout.defs@.len(),
            np == p.len(),
            k <= nd,
            decl@.len() == n,
            forall|w: int|
                0 <= w < n ==> (#[trigger] decl@[w] <==> exists|j: int|
                    0 <= j < k && layout.def_node@[j] == w && (#[trigger] layout.units@[j] < np) == prod),
        decreases nd - k,
    {
        proof {
            assert(layout.def_node@[k as int] < n);
        }
        if (layout.units[k] < np) == prod {
            decl.set(layout.def_node[k], true);
        }
        k = k + 1;
    }
    proof {
        layout.interner.lemma_distinct();
        assert forall|w: int| 0 <= w < decl@.len() implies (#[trigger] decl@[w] <==> crate::semantics::side_declares(
            p,
            t,
            prod,
            layout.names()[w],
        )) by {
            if decl@[w] {
                let j = choose|j: int|
                    0 <= j < nd && layout.def_node@[j] == w && (#[trigger] layout.units@[j] < np) == prod;
                crate::resolve::lemma_node_of_def(layout, p, t, j, w);
                assert(ds[j].0.id@ == layout.names()[w]);
            }
            if crate::semantics::side_declares(p, t, prod, layout.names()[w]) {
                let j = choose|j: int|
                    0 <= j < ds.len() && #[trigger] ds[j].0.id@ == layout.names()[w] && (ds[j].1 < p.len()) == prod;
                crate::resolve::lemma_node_of_def(layout, p, t, j, w);
            }
        }
    }
    decl
}

} // verus!
