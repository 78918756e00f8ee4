//! Which ids Rust's privacy rules require to stay public.

use vstd::prelude::*;

use crate::closure::{adj_view, adjacency_from_pairs, has_pair, reachable_nodes};
use crate::graphs::{admitted, edge_pairs, push_equivalence_pairs, EdgeFilter};
use crate::liveness::lemma_edge_at;
use crate::model::{DefinitionKind, EdgeKind, Fragment};
use crate::numbering::{fragment_at, lemma_public_root_strings, named_by, public_root_strings, tagged, Layout};
use crate::semantics::{
    all_defs, all_edges, analyzable_kind, analyzable_reexport, crate_id_of, crosses_crates, def_of, defined,
    equivalent, externally_required, forced_reexport, interface_step, last_def, lemma_flat_defs_units,
    propagates, public_requirement, reexport_from, required_public, unit_of,
};
use crate::text::{holds, str_eq};
use crate::walk::{lemma_reach_agrees, listed, named, numbering_agrees};

verus! {

/// What the per-node facts of the resolution say.
pub open spec fn resolved(layout: &Layout, p: Seq<Fragment>, t: Seq<Fragment>, rep: Seq<usize>) -> bool {
    &&& layout.wf(p, t)
    &&& rep.len() == layout.names().len()
    &&& forall|v: int|
        #![trigger rep[v]]
        0 <= v < rep.len() ==> {
            &&& rep[v] <= layout.defs@.len()
            &&& (rep[v] < layout.defs@.len()) == defined(p, t, layout.names()[v])
            &&& rep[v] < layout.defs@.len() ==> rep[v] == last_def(all_defs(p, t), layout.names()[v])
        }
}

/// The definition that stands for a defined node, and its unit.
pub proof fn lemma_def_at(layout: &Layout, p: Seq<Fragment>, t: Seq<Fragment>, rep: Seq<usize>, v: int)
    requires
        resolved(layout, p, t, rep),
        0 <= v < rep.len(),
        rep[v] < layout.defs@.len(),
    ensures
        def_of(p, t, layout.names()[v]) == *layout.defs@[rep[v] as int],
        unit_of(p, t, layout.names()[v]) == layout.units@[rep[v] as int] as int,
        layout.units@[rep[v] as int] < p.len() + t.len(),
        defined(p, t, layout.names()[v]),
{
    let k = rep[v] as int;
    assert(tagged(layout.defs@, layout.units@)[k] == all_defs(p, t)[k]);
    lemma_flat_defs_units(p + t);
    assert(0 <= all_defs(p, t)[k].1 < (p + t).len());
}

proof fn lemma_interface_agrees(
    layout: &Layout,
    p: Seq<Fragment>,
    t: Seq<Fragment>,
    rep: Seq<usize>,
    grp: Seq<usize>,
    pairs: Seq<(usize, usize)>,
    adj: Seq<Seq<usize>>,
    roots: Seq<usize>,
    root: spec_fn(Seq<char>) -> bool,
)
    requires
        resolved(layout, p, t, rep),
        grp.len() == layout.names().len(),
        adj.len() == layout.names().len(),
        adj.len() <= usize::MAX,
        crate::closure::graph_wf(adj),
        forall|k: int| 0 <= k < roots.len() ==> #[trigger] roots[k] < adj.len(),
        forall|s: Seq<char>| #[trigger] root(s) <==> listed(layout.names(), roots, s),
        forall|u: usize, v: usize|
            u < adj.len() && v < adj.len() ==> (adj[u as int].contains(v) <==> has_pair(pairs, u, v)),
        forall|u: usize, v: usize|
            u < adj.len() && v < adj.len() ==> (has_pair(pairs, u, v) <==> ((exists|k: int|
                0 <= k < layout.edges@.len() && #[trigger] layout.from_node@[k] == u && layout.to_node@[k] == v
                    && admitted(layout, rep, EdgeFilter::Interface, k)) || (u != v && grp[u as int] == grp[v as int]))),
        forall|u: int, v: int|
            0 <= u < grp.len() && 0 <= v < grp.len() ==> ((u != v && #[trigger] grp[u] == #[trigger] grp[v])
                <==> equivalent(p, t, layout.names()[u], layout.names()[v])),
    ensures
        numbering_agrees(adj, roots, layout.names(), interface_step(p, t), root),
{
    let names = layout.names();
    let step = interface_step(p, t);
    let es = all_edges(p, t);
    let nd = layout.defs@.len();
    layout.interner.lemma_distinct();
    assert forall|u: int, w: int| 0 <= u < adj.len() && 0 <= w < adj.len() implies (adj[u].contains(w as usize)
        <==> #[trigger] step(names[u], names[w])) by {
        let uu = u as usize;
        let ww = w as usize;
        assert(adj[uu as int].contains(ww) <==> has_pair(pairs, uu, ww));
        let edge_part = exists|k: int|
            0 <= k < es.len() && #[trigger] es[k].from@ == names[u] && es[k].to@ == names[w] && propagates(es[k].kind);
        if exists|k: int|
            0 <= k < layout.edges@.len() && #[trigger] layout.from_node@[k] == uu && layout.to_node@[k] == ww
                && admitted(layout, rep, EdgeFilter::Interface, k) {
            let k = choose|k: int|
                0 <= k < layout.edges@.len() && #[trigger] layout.from_node@[k] == uu && layout.to_node@[k] == ww
                    && admitted(layout, rep, EdgeFilter::Interface, k);
            lemma_edge_at(layout, p, t, k);
            assert(es[k].from@ == names[u]);
            assert(edge_part);
            assert(rep[w] < nd);
        }
        if edge_part && defined(p, t, names[w]) {
            let k = choose|k: int|
                0 <= k < es.len() && #[trigger] es[k].from@ == names[u] && es[k].to@ == names[w] && propagates(
                    es[k].kind,
                );
            lemma_edge_at(layout, p, t, k);
            assert(layout.from_node@[k] == uu);
            assert(layout.to_node@[k] == ww);
            assert(admitted(layout, rep, EdgeFilter::Interface, k));
        }
        assert((u != w && grp[u] == grp[w]) == equivalent(p, t, names[u], names[w]));
    }
    assert forall|u: int, s: Seq<char>| 0 <= u < adj.len() && #[trigger] step(names[u], s) implies named(names, s) by {
        crate::resolve::lemma_defined_named(layout, p, t, s);
    }
}

/// One of the first `k` edges leads into `s` from a definition of another crate.
pub open spec fn crossing_upto(p: Seq<Fragment>, t: Seq<Fragment>, k: int, s: Seq<char>) -> bool {
    exists|j: int|
        0 <= j < k && #[trigger] all_edges(p, t)[j].to@ == s && defined(p, t, all_edges(p, t)[j].from@) && defined(
            p,
            t,
            s,
        ) && crate_id_of(p, t, all_edges(p, t)[j].from@) != crate_id_of(p, t, s)
}

/// The nodes that an edge from a definition of another crate leads into.
fn cross_crate_targets(
    layout: &Layout,
    rep: &Vec<usize>,
    fp: &[Fragment],
    ft: &[Fragment],
) -> (r: Vec<usize>)
    requires
        resolved(layout, fp@, ft@, rep@),
        fp@.len() + ft@.len() <= usize::MAX,
    ensures
        forall|k: int| 0 <= k < r@.len() ==> #[trigger] r@[k] < layout.names().len(),
        forall|s: Seq<char>| #[trigger] crosses_crates(fp@, ft@, s) <==> listed(layout.names(), r@, s),
{
    let ghost p = fp@;
    let ghost t = ft@;
    let ghost es = all_edges(p, t);
    let ghost names = layout.names();
    let nd = layout.defs.len();
    let mut r: Vec<usize> = Vec::new();
    let mut k: usize = 0;
    while k < layout.edges.len()
        invariant
            resolved(layout, p, t, rep@),
            p == fp@,
            t == ft@,
            fp@.len() + ft@.len() <= usize::MAX,
            es == all_edges(p, t),
            names == layout.names(),
            nd == layout.defs@.len(),
            k <= layout.edges@.len(),
            forall|j: int| 0 <= j < r@.len() ==> #[trigger] r@[j] < names.len(),
            forall|s: Seq<char>| #[trigger] crossing_upto(p, t, k as int, s) <==> listed(names, r@, s),
        decreases layout.edges@.len() - k,
    {
        let a = layout.from_node[k];
        let b = layout.to_node[k];
        proof {
            lemma_edge_at(layout, p, t, k as int);
        }
        let ghost before = r@;
        let mut cross = false;
        if rep[a] < nd && rep[b] < nd {
            proof {
                lemma_def_at(layout, p, t, rep@, a as int);
                lemma_def_at(layout, p, t, rep@, b as int);
            }
            let fa = fragment_at(fp, ft, layout.units[rep[a]]);
            let fb = fragment_at(fp, ft, layout.units[rep[b]]);
            if !str_eq(fa.crate_id.as_str(), fb.crate_id.as_str()) {
                cross = true;
                r.push(b);
            }
        }
        proof {
            assert(cross == (defined(p, t, es[k as int].from@) && defined(p, t, es[k as int].to@) && crate_id_of(
                p,
                t,
                es[k as int].from@,
            ) != crate_id_of(p, t, es[k as int].to@)));
            assert forall|s: Seq<char>| #[trigger] crossing_upto(p, t, k + 1, s) <==> listed(names, r@, s) by {
                if crossing_upto(p, t, k + 1, s) {
                    let j = choose|j: int|
                        0 <= j < k + 1 && #[trigger] all_edges(p, t)[j].to@ == s && defined(p, t, all_edges(p, t)[j].from@)
                            && defined(p, t, s) && crate_id_of(p, t, all_edges(p, t)[j].from@) != crate_id_of(p, t, s);
                    if j < k {
                        assert(crossing_upto(p, t, k as int, s));
                        assert(listed(names, before, s));
                        let i = choose|i: int| 0 <= i < before.len() && #[trigger] names[before[i] as int] == s;
                        assert(r@[i] == before[i]);
                    } else {
                        assert(cross);
                        assert(names[r@[before.len() as int] as int] == s);
                    }
                }
                if listed(names, r@, s) {
                    let j = choose|j: int| 0 <= j < r@.len() && #[trigger] names[r@[j] as int] == s;
                    if j < before.len() {
                        assert(before[j] == r@[j]);
                        assert(listed(names, before, s));
                        assert(crossing_upto(p, t, k as int, s));
                        let j2 = choose|j2: int|
                            0 <= j2 < k && #[trigger] all_edges(p, t)[j2].to@ == s && defined(p, t, all_edges(p, t)[j2].from@)
                                && defined(p, t, s) && crate_id_of(p, t, all_edges(p, t)[j2].from@) != crate_id_of(p, t, s);
                        assert(all_edges(p, t)[j2].to@ == s);
                    } else {
                        assert(cross);
                        assert(es[k as int].to@ == s);
                        assert(all_edges(p, t)[k as int].to@ == s);
                    }
                }
            }
        }
        k = k + 1;
    }
    proof {
        assert forall|s: Seq<char>| #[trigger] crosses_crates(p, t, s) <==> listed(names, r@, s) by {
            assert(crossing_upto(p, t, k as int, s) <==> listed(names, r@, s));
            if crosses_crates(p, t, s) {
                let j = choose|j: int|
                    0 <= j < es.len() && #[trigger] es[j].to@ == s && defined(p, t, es[j].from@) && defined(p, t, s)
                        && crate_id_of(p, t, es[j].from@) != crate_id_of(p, t, s);
                assert(0 <= j < k);
            }
        }
    }
    r
}

/// Whether the analysis can follow a re-export to an item of kind `k`.
fn is_analyzable_kind(k: DefinitionKind) -> (r: bool)
    ensures
        r == analyzable_kind(k),
{
    match k {
        DefinitionKind::Function | DefinitionKind::InherentMethod | DefinitionKind::Trait
        | DefinitionKind::Struct | DefinitionKind::Enum | DefinitionKind::Union
        | DefinitionKind::TypeAlias | DefinitionKind::Constant | DefinitionKind::Static => true,
        _ => false,
    }
}

/// Whether the public re-export numbered `v` must stay public.
fn forced_reexport_node(
    layout: &Layout,
    rep: &Vec<usize>,
    ext: &Vec<bool>,
    v: usize,
    Ghost(p): Ghost<Seq<Fragment>>,
    Ghost(t): Ghost<Seq<Fragment>>,
) -> (r: bool)
    requires
        resolved(layout, p, t, rep@),
        v < layout.names().len(),
        rep@[v as int] < layout.defs@.len(),
        def_of(p, t, layout.names()[v as int]).public_api,
        def_of(p, t, layout.names()[v as int]).kind == DefinitionKind::Reexport,
        ext@.len() == layout.names().len(),
        forall|w: int| 0 <= w < ext@.len() ==> (#[trigger] ext@[w] <==> externally_required(p, t, layout.names()[w])),
    ensures
        r == forced_reexport(p, t, layout.names()[v as int]),
{
    let ghost es = all_edges(p, t);
    let ghost s = layout.names()[v as int];
    let nd = layout.defs.len();
    let mut has = false;
    let mut ok = true;
    let mut any_ext = false;
    let mut k: usize = 0;
    proof {
        layout.interner.lemma_distinct();
    }
    while k < layout.edges.len()
        invariant
            resolved(layout, p, t, rep@),
            es == all_edges(p, t),
            s == layout.names()[v as int],
            v < layout.names().len(),
            nd == layout.defs@.len(),
            ext@.len() == layout.names().len(),
            forall|w: int| 0 <= w < ext@.len() ==> (#[trigger] ext@[w] <==> externally_required(p, t, layout.names()[w])),
            crate::walk::distinct_names(layout.names()),
            k <= layout.edges@.len(),
            has <==> exists|j: int| 0 <= j < k && #[trigger] reexport_from(es, j, s),
            ok <==> forall|j: int|
                0 <= j < k && #[trigger] reexport_from(es, j, s) ==> defined(p, t, es[j].to@) && analyzable_kind(
                    def_of(p, t, es[j].to@).kind,
                ),
            any_ext <==> exists|j: int| 0 <= j < k && #[trigger] reexport_from(es, j, s) && externally_required(p, t, es[j].to@),
        decreases layout.edges@.len() - k,
    {
        proof {
            lemma_edge_at(layout, p, t, k as int);
        }
        let a = layout.from_node[k];
        if layout.edges[k].kind == EdgeKind::Reexport && a == v {
            has = true;
            let b = layout.to_node[k];
            if rep[b] < nd {
                proof {
                    lemma_def_at(layout, p, t, rep@, b as int);
                }
                if !is_analyzable_kind(layout.defs[rep[b]].kind) {
                    ok = false;
                }
            } else {
                ok = false;
            }
            if ext[b] {
                any_ext = true;
            }
        }
        proof {
            assert(reexport_from(es, k as int, s) <==> (es[k as int].kind == EdgeKind::Reexport && a == v));
            assert forall|j: int| 0 <= j < k + 1 && #[trigger] reexport_from(es, j, s) implies j < k || j == k by {}
        }
        k = k + 1;
    }
    proof {
        assert(es.len() == layout.edges@.len());
        assert(analyzable_reexport(p, t, s) <==> (has && ok));
        lemma_def_at(layout, p, t, rep@, v as int);
    }
    !(has && ok) || any_ext
}

/// For each node, whether Rust's privacy rules require it to stay public.
pub fn required_public_nodes(
    layout: &Layout,
    rep: &Vec<usize>,
    grp: &Vec<usize>,
    members: &Vec<Vec<usize>>,
    fp: &[Fragment],
    ft: &[Fragment],
) -> (rpv: Vec<bool>)
    requires
        resolved(layout, fp@, ft@, rep@),
        fp@.len() + ft@.len() <= usize::MAX,
        grp@.len() == layout.names().len(),
        members@.len() == grp@.len(),
        forall|v: int| 0 <= v < grp@.len() ==> #[trigger] grp@[v] < grp@.len(),
        forall|g: usize, v: usize|
            g < grp@.len() && v < grp@.len() ==> (adj_view(members@)[g as int].contains(v) <==> grp@[v as int]
                == g),
        forall|g: int, k: int|
            0 <= g < members@.len() && 0 <= k < members@[g]@.len() ==> #[trigger] members@[g]@[k] < grp@.len(),
        forall|u: int, v: int|
            0 <= u < grp@.len() && 0 <= v < grp@.len() ==> ((u != v && #[trigger] grp@[u] == #[trigger] grp@[v])
                <==> equivalent(fp@, ft@, layout.names()[u], layout.names()[v])),
    ensures
        rpv@.len() == layout.names().len(),
        forall|v: int| 0 <= v < rpv@.len() ==> (#[trigger] rpv@[v] <==> required_public(fp@, ft@, layout.names()[v])),
{
    let ghost p = fp@;
    let ghost t = ft@;
    let ghost names = layout.names();
    let n = layout.interner.len();
    let nd = layout.defs.len();
    let mut pairs = edge_pairs(layout, rep, EdgeFilter::Interface, 0, layout.edges.len(), Ghost(p), Ghost(t));
    let mut all: Vec<bool> = Vec::new();
    let mut v: usize = 0;
    while v < n
        invariant
            v <= n,
            all@.len() == v,
            forall|w: int| 0 <= w < v ==> #[trigger] all@[w],
        decreases n - v,
    {
        all.push(true);
        v = v + 1;
    }
    push_equivalence_pairs(grp, members, &all, &mut pairs);
    let adj = adjacency_from_pairs(n, &pairs);
    let cross = cross_crate_targets(layout, rep, fp, ft);
    let ext = reachable_nodes(&adj, &cross);
    let ghost crossing = |x: Seq<char>| crosses_crates(p, t, x);
    proof {
        assert forall|s: Seq<char>| #[trigger] crossing(s) <==> listed(names, cross@, s) by {
            assert(crosses_crates(p, t, s) <==> listed(names, cross@, s));
        }
        lemma_interface_agrees(layout, p, t, rep@, grp@, pairs@, adj_view(adj@), cross@, crossing);
        assert forall|w: int| 0 <= w < ext@.len() implies (#[trigger] ext@[w] <==> externally_required(
            p,
            t,
            names[w],
        )) by {
            lemma_reach_agrees(adj_view(adj@), cross@, names, interface_step(p, t), crossing, w as usize);
        }
    }
    // The forced re-exports.
    let mut forced: Vec<usize> = Vec::new();
    let mut v: usize = 0;
    while v < n
        invariant
            resolved(layout, p, t, rep@),
            names == layout.names(),
            n == names.len(),
            nd == layout.defs@.len(),
            v <= n,
            ext@.len() == n,
            forall|w: int| 0 <= w < ext@.len() ==> (#[trigger] ext@[w] <==> externally_required(p, t, names[w])),
            forall|k: int| 0 <= k < forced@.len() ==> #[trigger] forced@[k] < n,
            forall|s: Seq<char>| #[trigger] listed(names, forced@, s) <==> exists|w: int|
                0 <= w < v && #[trigger] names[w] == s && forced_reexport(p, t, s),
        decreases n - v,
    {
        let ghost before = forced@;
        let mut add = false;
        if rep[v] < nd {
            proof {
                lemma_def_at(layout, p, t, rep@, v as int);
            }
            let d = layout.defs[rep[v]];
            if d.public_api && d.kind == DefinitionKind::Reexport {
                add = forced_reexport_node(layout, rep, &ext, v, Ghost(p), Ghost(t));
            }
        }
        proof {
            assert(add == forced_reexport(p, t, names[v as int]));
        }
        if add {
            forced.push(v);
        }
        proof {
            assert forall|s: Seq<char>| #[trigger] listed(names, forced@, s) <==> exists|w: int|
                0 <= w < v + 1 && #[trigger] names[w] == s && forced_reexport(p, t, s) by {
                if add {
                    crate::walk::lemma_listed_concat(names, before, seq![v], s);
                    assert(forced@ == before + seq![v]);
                    if listed(names, seq![v], s) {
                        let k = choose|k: int| 0 <= k < 1 && #[trigger] names[seq![v][k] as int] == s;
                        assert(names[v as int] == s);
                    }
                    if names[v as int] == s {
                        assert(names[seq![v][0] as int] == s);
                    }
                }
            }
        }
        v = v + 1;
    }
    // All reasons to stay public.
    let mut roots: Vec<usize> = Vec::new();
    let mut k: usize = 0;
    while k < layout.public_roots.len()
        invariant
            k <= layout.public_roots@.len(),
            roots@ == layout.public_roots@.take(k as int),
        decreases layout.public_roots@.len() - k,
    {
        roots.push(layout.public_roots[k]);
        proof {
            assert(layout.public_roots@.take(k + 1) =~= layout.public_roots@.take(k as int).push(layout.public_roots@[k as int]));
        }
        k = k + 1;
    }
    proof {
        assert(layout.public_roots@.take(k as int) =~= layout.public_roots@);
    }
    let ghost declared = roots@;
    let mut k: usize = 0;
    while k < forced.len()
        invariant
            k <= forced@.len(),
            roots@ == declared + forced@.take(k as int),
        decreases forced@.len() - k,
    {
        roots.push(forced[k]);
        proof {
            assert(forced@.take(k + 1) =~= forced@.take(k as int).push(forced@[k as int]));
            assert(declared + forced@.take(k + 1) =~= (declared + forced@.take(k as int)).push(forced@[k as int]));
        }
        k = k + 1;
    }
    let mut k: usize = 0;
    while k < cross.len()
        invariant
            k <= cross@.len(),
            roots@ == declared + forced@ + cross@.take(k as int),
            forced@.take(forced@.len() as int) == forced@,
        decreases cross@.len() - k,
    {
        roots.push(cross[k]);
        proof {
            assert(cross@.take(k + 1) =~= cross@.take(k as int).push(cross@[k as int]));
            assert(declared + forced@ + cross@.take(k + 1) =~= (declared + forced@ + cross@.take(k as int)).push(cross@[k as int]));
        }
        k = k + 1;
    }
    let ghost requirement = |x: Seq<char>| public_requirement(p, t, x);
    proof {
        assert(cross@.take(k as int) =~= cross@);
        assert(roots@ == declared + forced@ + cross@);
        assert forall|s: Seq<char>| #[trigger] requirement(s) <==> listed(names, roots@, s) by {
            crate::walk::lemma_listed_concat(names, declared + forced@, cross@, s);
            crate::walk::lemma_listed_concat(names, declared, forced@, s);
            lemma_public_root_strings(p + t, s);
            let rs = public_root_strings(p + t);
            assert(named_by(names, declared) == rs);
            if rs.contains(s) {
                let i = choose|i: int| 0 <= i < rs.len() && rs[i] == s;
                assert(names[declared[i] as int] == s);
            }
            if listed(names, declared, s) {
                let i = choose|i: int| 0 <= i < declared.len() && #[trigger] names[declared[i] as int] == s;
                assert(rs[i] == s);
            }
            if forced_reexport(p, t, s) {
                crate::resolve::lemma_defined_named(layout, p, t, s);
                let w = choose|w: int| 0 <= w < names.len() && #[trigger] names[w] == s;
            }
            assert(crosses_crates(p, t, s) <==> listed(names, cross@, s));
        }
        assert forall|i: int| 0 <= i < roots@.len() implies #[trigger] roots@[i] < adj@.len() by {
            if i < declared.len() {
                assert(roots@[i] == declared[i]);
            } else if i < declared.len() + forced@.len() {
                assert(roots@[i] == forced@[i - declared.len()]);
            } else {
                assert(roots@[i] == cross@[i - declared.len() - forced@.len()]);
            }
        }
        lemma_interface_agrees(layout, p, t, rep@, grp@, pairs@, adj_view(adj@), roots@, requirement);
    }
    let rpv = reachable_nodes(&adj, &roots);
    proof {
        assert forall|w: int| 0 <= w < rpv@.len() implies (#[trigger] rpv@[w] <==> required_public(p, t, names[w])) by {
            lemma_reach_agrees(adj_view(adj@), roots@, names, interface_step(p, t), requirement, w as usize);
        }
    }
    rpv
}

} // verus!
