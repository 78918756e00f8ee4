//! Propagation of required scopes along a graph to their least fixed point.

use vstd::prelude::*;

use crate::closure::{adj_view, graph_wf, is_walk, node_reaches};
use crate::scope::{
    join, lemma_join_idempotent, lemma_join_least, lemma_join_upper, lemma_le_antisymmetric,
    lemma_le_reflexive, lemma_le_transitive, scope_le, common_len, common_prefix, RequiredScope, ScopeView,
};
use crate::text::views;

verus! {

/// The plain values of seeds: a target node and the scope it must admit.
pub open spec fn seed_views(seeds: Seq<(usize, RequiredScope)>) -> Seq<(usize, ScopeView)> {
    seeds.map_values(|s: (usize, RequiredScope)| (s.0, s.1@))
}

/// What one seed requires of node `v`: its scope when `v` is reachable from
/// the seed's target, nothing otherwise.
pub open spec fn contribution(prop: Seq<Seq<usize>>, seed: (usize, ScopeView), v: usize) -> ScopeView {
    if node_reaches(prop, seq![seed.0], v) {
        seed.1
    } else {
        ScopeView::Bottom
    }
}

/// The join of what every seed requires of node `v`.
pub open spec fn fold_scope(prop: Seq<Seq<usize>>, seeds: Seq<(usize, ScopeView)>, v: usize) -> ScopeView
    decreases seeds.len(),
{
    if seeds.len() == 0 {
        ScopeView::Bottom
    } else {
        join(fold_scope(prop, seeds.drop_last(), v), contribution(prop, seeds.last(), v))
    }
}

proof fn lemma_join_monotone(a: ScopeView, b: ScopeView, c: ScopeView, d: ScopeView)
    requires
        scope_le(a, c),
        scope_le(b, d),
    ensures
        scope_le(join(a, b), join(c, d)),
{
    lemma_join_upper(c, d);
    lemma_le_transitive(a, c, join(c, d));
    lemma_le_transitive(b, d, join(c, d));
    lemma_join_least(a, b, join(c, d));
}

proof fn lemma_bottom_le(a: ScopeView)
    ensures
        scope_le(ScopeView::Bottom, a),
{
}

proof fn lemma_contribution_le_fold(prop: Seq<Seq<usize>>, seeds: Seq<(usize, ScopeView)>, v: usize, k: int)
    requires
        0 <= k < seeds.len(),
    ensures
        scope_le(contribution(prop, seeds[k], v), fold_scope(prop, seeds, v)),
    decreases seeds.len(),
{
    let rest = fold_scope(prop, seeds.drop_last(), v);
    let last = contribution(prop, seeds.last(), v);
    lemma_join_upper(rest, last);
    if k < seeds.len() - 1 {
        lemma_contribution_le_fold(prop, seeds.drop_last(), v, k);
        assert(seeds.drop_last()[k] == seeds[k]);
        lemma_le_transitive(contribution(prop, seeds[k], v), rest, join(rest, last));
    }
}

proof fn lemma_fold_le(prop: Seq<Seq<usize>>, seeds: Seq<(usize, ScopeView)>, v: usize, x: ScopeView)
    requires
        forall|k: int| 0 <= k < seeds.len() ==> scope_le(contribution(prop, #[trigger] seeds[k], v), x),
    ensures
        scope_le(fold_scope(prop, seeds, v), x),
    decreases seeds.len(),
{
    if seeds.len() > 0 {
        assert forall|k: int| 0 <= k < seeds.drop_last().len() implies scope_le(
            contribution(prop, #[trigger] seeds.drop_last()[k], v),
            x,
        ) by {
            assert(seeds.drop_last()[k] == seeds[k]);
        }
        lemma_fold_le(prop, seeds.drop_last(), v, x);
        assert(scope_le(contribution(prop, seeds[seeds.len() - 1], v), x));
        lemma_join_least(fold_scope(prop, seeds.drop_last(), v), contribution(prop, seeds.last(), v), x);
    }
}

proof fn lemma_reach_step(prop: Seq<Seq<usize>>, s: usize, u: usize, w: usize)
    requires
        node_reaches(prop, seq![s], u),
        u < prop.len(),
        w < prop.len(),
        prop[u as int].contains(w),
    ensures
        node_reaches(prop, seq![s], w),
{
    let roots = seq![s];
    let p = choose|p: Seq<usize>| #[trigger] is_walk(prop, p) && roots.contains(p[0]) && p.last() == u;
    let q = p.push(w);
    assert forall|i: int| 0 <= i < q.len() - 1 implies prop[q[i] as int].contains(#[trigger] q[i + 1]) by {
        if i < p.len() - 1 {
            assert(q[i] == p[i] && q[i + 1] == p[i + 1]);
        } else {
            assert(q[i] == u);
        }
    }
    assert(is_walk(prop, q));
    assert(q[0] == p[0]);
}

proof fn lemma_fold_monotone_edge(prop: Seq<Seq<usize>>, seeds: Seq<(usize, ScopeView)>, u: usize, w: usize)
    requires
        u < prop.len(),
        w < prop.len(),
        prop[u as int].contains(w),
    ensures
        scope_le(fold_scope(prop, seeds, u), fold_scope(prop, seeds, w)),
    decreases seeds.len(),
{
    if seeds.len() == 0 {
        lemma_le_reflexive(ScopeView::Bottom);
    } else {
        lemma_fold_monotone_edge(prop, seeds.drop_last(), u, w);
        let cu = contribution(prop, seeds.last(), u);
        let cw = contribution(prop, seeds.last(), w);
        if node_reaches(prop, seq![seeds.last().0], u) {
            lemma_reach_step(prop, seeds.last().0, u, w);
            lemma_le_reflexive(cw);
        }
        lemma_join_monotone(
            fold_scope(prop, seeds.drop_last(), u),
            cu,
            fold_scope(prop, seeds.drop_last(), w),
            cw,
        );
    }
}

/// Every Known scope names a module path of at most `m` modules.
pub open spec fn within(a: ScopeView, m: nat) -> bool {
    match a {
        ScopeView::Known(_, s) => s.len() <= m,
        _ => true,
    }
}

/// A measure that every strict widening of a bounded scope decreases.
pub open spec fn height(a: ScopeView, m: nat) -> nat {
    match a {
        ScopeView::Bottom => m + 2,
        ScopeView::Known(_, s) => s.len() + 1,
        ScopeView::Unknown => 0,
    }
}

proof fn lemma_join_height(a: ScopeView, b: ScopeView, m: nat)
    requires
        within(a, m),
        within(b, m),
    ensures
        within(join(a, b), m),
        join(a, b) != a ==> height(join(a, b), m) < height(a, m),
        height(join(a, b), m) <= height(a, m),
{
    match (a, b) {
        (ScopeView::Known(c1, s1), ScopeView::Known(c2, s2)) => {
            if c1 == c2 {
                assert(common_len(s1, s2) <= s1.len()) by {
                    lemma_common_len_le(s1, s2);
                }
                if common_len(s1, s2) == s1.len() {
                    assert(common_prefix(s1, s2) =~= s1);
                }
            }
        },
        _ => {},
    }
}

proof fn lemma_common_len_le(a: Seq<Seq<char>>, b: Seq<Seq<char>>)
    ensures
        common_len(a, b) <= a.len(),
    decreases a.len(),
{
    if a.len() == 0 || b.len() == 0 || a[0] != b[0] {
    } else {
        lemma_common_len_le(a.drop_first(), b.drop_first());
    }
}

/// The sum of the heights of a sequence of scopes.
pub open spec fn total_height(s: Seq<RequiredScope>, m: nat) -> nat
    decreases s.len(),
{
    if s.len() == 0 {
        0
    } else {
        total_height(s.drop_last(), m) + height(s.last()@, m)
    }
}

proof fn lemma_total_height_update(s: Seq<RequiredScope>, m: nat, i: int, x: RequiredScope)
    requires
        0 <= i < s.len(),
    ensures
        total_height(s.update(i, x), m) + height(s[i]@, m) == total_height(s, m) + height(x@, m),
    decreases s.len(),
{
    let t = s.update(i, x);
    if i == s.len() - 1 {
        assert(t.drop_last() =~= s.drop_last());
    } else {
        assert(t.drop_last() =~= s.drop_last().update(i, x));
        lemma_total_height_update(s.drop_last(), m, i, x);
    }
}

/// A copy of a scope with the same value.
pub fn copy_scope(s: &RequiredScope) -> (r: RequiredScope)
    ensures
        r@ == s@,
{
    match s {
        RequiredScope::Bottom => RequiredScope::Bottom,
        RequiredScope::Known { crate_name, module_scope } => {
            let r = RequiredScope::Known {
                crate_name: crate_name.clone(),
                module_scope: module_scope.clone(),
            };
            proof {
                assert(views(module_scope@) =~= views(r->module_scope@));
            }
            r
        },
        RequiredScope::Unknown => RequiredScope::Unknown,
    }
}

proof fn lemma_walk_le(prop: Seq<Seq<usize>>, scopes: Seq<RequiredScope>, p: Seq<usize>, x: ScopeView, i: int)
    requires
        scopes.len() == prop.len(),
        is_walk(prop, p),
        0 <= i < p.len(),
        scope_le(x, scopes[p[0] as int]@),
        forall|u: int, w: usize|
            #![trigger prop[u].contains(w)]
            0 <= u < prop.len() && prop[u].contains(w) && w < prop.len() ==> scope_le(
                scopes[u]@,
                scopes[w as int]@,
            ),
    ensures
        scope_le(x, scopes[p[i] as int]@),
    decreases i,
{
    if i > 0 {
        lemma_walk_le(prop, scopes, p, x, i - 1);
        assert(prop[p[i - 1] as int].contains(p[(i - 1) + 1]));
        assert(p[i] < prop.len());
        lemma_le_transitive(x, scopes[p[i - 1] as int]@, scopes[p[i] as int]@);
    }
}

/// For every node, the join of the scopes of all seeds whose target reaches it.
pub fn propagate_scopes(prop: &Vec<Vec<usize>>, seeds: &Vec<(usize, RequiredScope)>) -> (scopes: Vec<
    RequiredScope,
>)
    requires
        graph_wf(adj_view(prop@)),
        forall|k: int| 0 <= k < seeds@.len() ==> (#[trigger] seeds@[k]).0 < prop@.len(),
    ensures
        scopes@.len() == prop@.len(),
        forall|v: usize|
            v < prop@.len() ==> scopes@[v as int]@ == fold_scope(adj_view(prop@), seed_views(seeds@), v),
{
    let ghost g = adj_view(prop@);
    let ghost sv = seed_views(seeds@);
    let n = prop.len();
    // The longest module path that any seed names bounds every scope.
    let mut bound: usize = 0;
    let mut k: usize = 0;
    while k < seeds.len()
        invariant
            k <= seeds@.len(),
            forall|j: int| 0 <= j < k ==> within((#[trigger] seeds@[j]).1@, bound as nat),
        decreases seeds@.len() - k,
    {
        match &seeds[k].1 {
            RequiredScope::Known { module_scope, .. } => {
                if module_scope.len() > bound {
                    bound = module_scope.len();
                }
            },
            _ => {},
        }
        k = k + 1;
    }
    let ghost m = bound as nat;
    let mut scopes: Vec<RequiredScope> = Vec::new();
    let mut i: usize = 0;
    while i < n
        invariant
            i <= n,
            scopes@.len() == i,
            forall|v: int| 0 <= v < i ==> (#[trigger] scopes@[v])@ == ScopeView::Bottom,
            total_height(scopes@, m) == i * (m + 2),
        decreases n - i,
    {
        let ghost before = scopes@;
        scopes.push(RequiredScope::Bottom);
        assert(scopes@.drop_last() =~= before);
        assert((i + 1) * (m + 2) == i * (m + 2) + (m + 2)) by (nonlinear_arith);
        i = i + 1;
    }
    let ghost mut total: nat = total_height(scopes@, m);
    let mut pending: Vec<usize> = Vec::new();
    let mut k: usize = 0;
    while k < seeds.len()
        invariant
            graph_wf(g),
            g == adj_view(prop@),
            sv == seed_views(seeds@),
            prop@.len() == n,
            scopes@.len() == n,
            k <= seeds@.len(),
            forall|j: int| 0 <= j < seeds@.len() ==> (#[trigger] seeds@[j]).0 < n,
            forall|j: int| 0 <= j < seeds@.len() ==> within((#[trigger] seeds@[j]).1@, m),
            total == total_height(scopes@, m),
            forall|j: int| 0 <= j < pending@.len() ==> #[trigger] pending@[j] < n,
            forall|v: int| 0 <= v < n ==> within((#[trigger] scopes@[v])@, m),
            forall|v: usize| v < n ==> scope_le(scopes@[v as int]@, fold_scope(g, sv, v)),
            forall|j: int| 0 <= j < k ==> scope_le(sv[j].1, (#[trigger] scopes@[sv[j].0 as int])@),
            forall|u: int, w: usize|
                #![trigger g[u].contains(w)]
                0 <= u < n && g[u].contains(w) ==> pending@.contains(u as usize) || scope_le(
                    scopes@[u]@,
                    scopes@[w as int]@,
                ),
        decreases seeds@.len() - k,
    {
        let t = seeds[k].0;
        let ghost old_scopes = scopes@;
        let ghost old_pending = pending@;
        assert(sv[k as int] == (t, seeds@[k as int].1@));
        proof {
            // the seed's own target reaches itself
            assert(is_walk(g, seq![t]));
            assert(seq![t].contains(seq![t][0]));
            assert(node_reaches(g, seq![sv[k as int].0], t));
            lemma_contribution_le_fold(g, sv, t, k as int);
            lemma_join_least(old_scopes[t as int]@, sv[k as int].1, fold_scope(g, sv, t));
            lemma_join_height(old_scopes[t as int]@, sv[k as int].1, m);
            lemma_join_upper(old_scopes[t as int]@, sv[k as int].1);
        }
        let changed = scopes[t].merge(&seeds[k].1);
        proof {
            lemma_total_height_update(old_scopes, m, t as int, scopes@[t as int]);
            assert(scopes@ == old_scopes.update(t as int, scopes@[t as int]));
            total = total_height(scopes@, m);
        }
        if changed {
            pending.push(t);
        }
        proof {
            assert forall|v: int| 0 <= v < n && v != t implies #[trigger] scopes@[v] == old_scopes[v] by {}
            assert forall|j: int| 0 <= j < k + 1 implies scope_le(
                sv[j].1,
                (#[trigger] scopes@[sv[j].0 as int])@,
            ) by {
                if j < k && sv[j].0 == t {
                    lemma_le_transitive(sv[j].1, old_scopes[t as int]@, scopes@[t as int]@);
                }
            }
            assert forall|u: int, w: usize|
                #![trigger g[u].contains(w)]
                0 <= u < n && g[u].contains(w) implies pending@.contains(u as usize) || scope_le(
                    scopes@[u]@,
                    scopes@[w as int]@,
                ) by {
                if old_pending.contains(u as usize) {
                    let q = choose|q: int| 0 <= q < old_pending.len() && old_pending[q] == u as usize;
                    assert(pending@[q] == u as usize);
                } else if u == t && changed {
                    assert(pending@[pending@.len() - 1] == t);
                } else {
                    assert(scopes@[u]@ == old_scopes[u]@);
                    if w == t {
                        lemma_le_transitive(scopes@[u]@, old_scopes[t as int]@, scopes@[t as int]@);
                    }
                }
            }
        }
        k = k + 1;
    }
    while pending.len() > 0
        invariant
            graph_wf(g),
            g == adj_view(prop@),
            sv == seed_views(seeds@),
            prop@.len() == n,
            scopes@.len() == n,
            forall|j: int| 0 <= j < seeds@.len() ==> (#[trigger] seeds@[j]).0 < n,
            total == total_height(scopes@, m),
            forall|j: int| 0 <= j < pending@.len() ==> #[trigger] pending@[j] < n,
            forall|v: int| 0 <= v < n ==> within((#[trigger] scopes@[v])@, m),
            forall|v: usize| v < n ==> scope_le(scopes@[v as int]@, fold_scope(g, sv, v)),
            forall|j: int| 0 <= j < sv.len() ==> scope_le(sv[j].1, (#[trigger] scopes@[sv[j].0 as int])@),
            forall|u: int, w: usize|
                #![trigger g[u].contains(w)]
                0 <= u < n && g[u].contains(w) ==> pending@.contains(u as usize) || scope_le(
                    scopes@[u]@,
                    scopes@[w as int]@,
                ),
        decreases total, pending@.len(),
    {
        let ghost total0 = total;
        let ghost len0 = pending@.len();
        let ghost scopes0 = scopes@;
        let ghost pending0 = pending@;
        let u = pending.pop().unwrap();
        let ghost popped = pending@;
        assert(pending0 =~= popped.push(u));
        let su = copy_scope(&scopes[u]);
        proof {
            assert forall|v: int| 0 <= v < n implies scope_le(scopes0[v]@, (#[trigger] scopes@[v])@) by {
                lemma_le_reflexive(scopes@[v]@);
            }
        }
        let succ = &prop[u];
        let mut j: usize = 0;
        while j < succ.len()
            invariant
                graph_wf(g),
                g == adj_view(prop@),
                sv == seed_views(seeds@),
                prop@.len() == n,
                scopes@.len() == n,
                u < n,
                succ@ == g[u as int],
                j <= succ@.len(),
                forall|q: int| 0 <= q < seeds@.len() ==> (#[trigger] seeds@[q]).0 < n,
                total == total_height(scopes@, m),
                total <= total0,
                total == total0 ==> pending@.len() == len0 - 1,
                pending@.len() >= len0 - 1,
                forall|q: int| 0 <= q < len0 - 1 ==> pending@[q] == #[trigger] pending0[q],
                forall|q: int| 0 <= q < pending@.len() ==> #[trigger] pending@[q] < n,
                forall|v: int| 0 <= v < n ==> within((#[trigger] scopes@[v])@, m),
                su@ == scopes@[u as int]@,
                scope_le(su@, fold_scope(g, sv, u)),
                forall|v: int| 0 <= v < n ==> scope_le(scopes0[v]@, (#[trigger] scopes@[v])@),
                forall|v: usize| v < n ==> scope_le(scopes@[v as int]@, fold_scope(g, sv, v)),
                forall|q: int| 0 <= q < j ==> scope_le(su@, (#[trigger] scopes@[succ@[q] as int])@),
                forall|x: int, w: usize|
                    #![trigger g[x].contains(w)]
                    0 <= x < n && g[x].contains(w) && x != u ==> pending@.contains(x as usize)
                        || scope_le(scopes@[x]@, scopes@[w as int]@),
                forall|v: int| 0 <= v < n && scopes@[v]@ != scopes0[v]@ ==> pending@.contains(v as usize),
            decreases succ@.len() - j,
        {
            let w = succ[j];
            assert(g[u as int][j as int] == w);
            assert(g[u as int].contains(w));
            let ghost before = scopes@;
            let ghost before_pending = pending@;
            proof {
                lemma_fold_monotone_edge(g, sv, u, w);
                lemma_le_transitive(su@, fold_scope(g, sv, u), fold_scope(g, sv, w));
                lemma_join_least(before[w as int]@, su@, fold_scope(g, sv, w));
                lemma_join_height(before[w as int]@, su@, m);
                lemma_join_upper(before[w as int]@, su@);
            }
            let changed = scopes[w].merge(&su);
            proof {
                lemma_total_height_update(before, m, w as int, scopes@[w as int]);
                assert(scopes@ == before.update(w as int, scopes@[w as int]));
                total = total_height(scopes@, m);
                if w == u {
                    lemma_join_idempotent(su@);
                }
            }
            if changed {
                pending.push(w);
            }
            proof {
                assert forall|v: int| 0 <= v < n && v != w implies #[trigger] scopes@[v] == before[v] by {}
                assert forall|v: int| 0 <= v < n implies scope_le(scopes0[v]@, (#[trigger] scopes@[v])@) by {
                    if v == w {
                        lemma_le_transitive(scopes0[v]@, before[v]@, scopes@[v]@);
                    }
                }
                assert forall|q: int| 0 <= q < j + 1 implies scope_le(
                    su@,
                    (#[trigger] scopes@[succ@[q] as int])@,
                ) by {
                    if q < j && succ@[q] == w {
                        lemma_le_transitive(su@, before[w as int]@, scopes@[w as int]@);
                    }
                }
                assert forall|x: int, y: usize|
                    #![trigger g[x].contains(y)]
                    0 <= x < n && g[x].contains(y) && x != u implies pending@.contains(x as usize)
                        || scope_le(scopes@[x]@, scopes@[y as int]@) by {
                    if before_pending.contains(x as usize) {
                        let q = choose|q: int| 0 <= q < before_pending.len() && before_pending[q] == x as usize;
                        assert(pending@[q] == x as usize);
                    } else if x == w && changed {
                        assert(pending@[pending@.len() - 1] == w);
                    } else {
                        assert(scopes@[x]@ == before[x]@);
                        if y == w {
                            lemma_le_transitive(scopes@[x]@, before[w as int]@, scopes@[w as int]@);
                        }
                    }
                }
                assert forall|v: int| 0 <= v < n && scopes@[v]@ != scopes0[v]@ implies pending@.contains(
                    v as usize,
                ) by {
                    if v == w && changed {
                        assert(pending@[pending@.len() - 1] == w);
                    } else {
                        assert(scopes@[v]@ == before[v]@);
                        assert(before_pending.contains(v as usize));
                        let q = choose|q: int| 0 <= q < before_pending.len() && before_pending[q] == v as usize;
                        assert(pending@[q] == v as usize);
                    }
                }
            }
            j = j + 1;
        }
        proof {
            assert forall|q: int| 0 <= q < sv.len() implies scope_le(
                sv[q].1,
                (#[trigger] scopes@[sv[q].0 as int])@,
            ) by {
                lemma_le_transitive(sv[q].1, scopes0[sv[q].0 as int]@, scopes@[sv[q].0 as int]@);
            }
            assert forall|x: int, y: usize|
                #![trigger g[x].contains(y)]
                0 <= x < n && g[x].contains(y) implies pending@.contains(x as usize) || scope_le(
                    scopes@[x]@,
                    scopes@[y as int]@,
                ) by {
                if x == u {
                    let q = choose|q: int| 0 <= q < succ@.len() && succ@[q] == y;
                    assert(scope_le(su@, scopes@[succ@[q] as int]@));
                }
            }
        }
    }
    proof {
        assert forall|v: usize| v < prop@.len() implies scopes@[v as int]@ == fold_scope(g, sv, v) by {
            assert forall|q: int| 0 <= q < sv.len() implies scope_le(
                contribution(g, #[trigger] sv[q], v),
                scopes@[v as int]@,
            ) by {
                if node_reaches(g, seq![sv[q].0], v) {
                    let roots = seq![sv[q].0];
                    let p = choose|p: Seq<usize>|
                        #[trigger] is_walk(g, p) && roots.contains(p[0]) && p.last() == v;
                    assert(p[0] == sv[q].0);
                    assert forall|x: int, y: usize|
                        #![trigger g[x].contains(y)]
                        0 <= x < g.len() && g[x].contains(y) && y < g.len() implies scope_le(
                            scopes@[x]@,
                            scopes@[y as int]@,
                        ) by {
                        if pending@.contains(x as usize) {
                            let z = choose|z: int| 0 <= z < pending@.len() && pending@[z] == x as usize;
                        }
                    }
                    lemma_walk_le(g, scopes@, p, sv[q].1, p.len() - 1);
                } else {
                    lemma_bottom_le(scopes@[v as int]@);
                }
            }
            lemma_fold_le(g, sv, v, scopes@[v as int]@);
            lemma_le_antisymmetric(scopes@[v as int]@, fold_scope(g, sv, v));
        }
    }
    scopes
}

} // verus!
