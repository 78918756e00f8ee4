//! Reachability over graphs whose nodes are dense indices.

use vstd::prelude::*;

verus! {

/// The successor lists of a graph as plain sequences.
pub open spec fn adj_view(adj: Seq<Vec<usize>>) -> Seq<Seq<usize>> {
    adj.map_values(|v: Vec<usize>| v@)
}

/// Every successor names a node of the graph.
pub open spec fn graph_wf(adj: Seq<Seq<usize>>) -> bool {
    forall|u: int, k: int|
        0 <= u < adj.len() && 0 <= k < adj[u].len() ==> (#[trigger] adj[u][k]) < adj.len()
}

/// `p` is a non-empty walk along the graph's successor lists.
pub open spec fn is_walk(adj: Seq<Seq<usize>>, p: Seq<usize>) -> bool {
    &&& p.len() > 0
    &&& forall|i: int| 0 <= i < p.len() ==> (#[trigger] p[i]) < adj.len()
    &&& forall|i: int| 0 <= i < p.len() - 1 ==> adj[p[i] as int].contains(#[trigger] p[i + 1])
}

/// Node `v` lies on a walk that starts at one of `roots`.
pub open spec fn node_reaches(adj: Seq<Seq<usize>>, roots: Seq<usize>, v: usize) -> bool {
    exists|p: Seq<usize>| #[trigger] is_walk(adj, p) && roots.contains(p[0]) && p.last() == v
}

/// Whether the pair `(u, v)` occurs in `pairs`.
pub open spec fn has_pair(pairs: Seq<(usize, usize)>, u: usize, v: usize) -> bool {
    exists|k: int| 0 <= k < pairs.len() && #[trigger] pairs[k] == (u, v)
}

/// The number of `true` entries.
pub open spec fn count_true(s: Seq<bool>) -> nat
    decreases s.len(),
{
    if s.len() == 0 {
        0
    } else {
        count_true(s.drop_last()) + if s.last() {
            1nat
        } else {
            0nat
        }
    }
}

proof fn lemma_count_true_bound(s: Seq<bool>)
    ensures
        count_true(s) <= s.len(),
    decreases s.len(),
{
    if s.len() > 0 {
        lemma_count_true_bound(s.drop_last());
    }
}

proof fn lemma_count_true_set(s: Seq<bool>, i: int)
    requires
        0 <= i < s.len(),
        !s[i],
    ensures
        count_true(s.update(i, true)) == count_true(s) + 1,
    decreases s.len(),
{
    let t = s.update(i, true);
    if i == s.len() - 1 {
        assert(t.drop_last() =~= s.drop_last());
    } else {
        assert(t.drop_last() =~= s.drop_last().update(i, true));
        lemma_count_true_set(s.drop_last(), i);
    }
}

/// Successor lists holding exactly the pairs of `pairs`.
pub fn adjacency_from_pairs(n: usize, pairs: &Vec<(usize, usize)>) -> (adj: Vec<Vec<usize>>)
    requires
        forall|k: int| 0 <= k < pairs@.len() ==> (#[trigger] pairs@[k]).0 < n && pairs@[k].1 < n,
    ensures
        adj@.len() == n,
        graph_wf(adj_view(adj@)),
        forall|u: usize, v: usize|
            u < n && v < n ==> (adj_view(adj@)[u as int].contains(v) <==> has_pair(pairs@, u, v)),
{
    let mut adj: Vec<Vec<usize>> = Vec::new();
    let mut i: usize = 0;
    while i < n
        invariant
            i <= n,
            adj@.len() == i,
            forall|u: int| 0 <= u < i ==> (#[trigger] adj@[u])@.len() == 0,
        decreases n - i,
    {
        adj.push(Vec::new());
        i = i + 1;
    }
    let mut k: usize = 0;
    while k < pairs.len()
        invariant
            k <= pairs@.len(),
            adj@.len() == n,
            forall|j: int| 0 <= j < pairs@.len() ==> (#[trigger] pairs@[j]).0 < n && pairs@[j].1 < n,
            forall|u: int, m: int|
                0 <= u < n && 0 <= m < adj@[u]@.len() ==> (#[trigger] adj@[u]@[m]) < n,
            forall|u: usize, v: usize|
                u < n && v < n ==> (adj@[u as int]@.contains(v) <==> has_pair(
                    pairs@.take(k as int),
                    u,
                    v,
                )),
        decreases pairs@.len() - k,
    {
        let (a, b) = pairs[k];
        let ghost before = adj@;
        adj[a].push(b);
        proof {
            assert(adj@[a as int]@ == before[a as int]@.push(b));
            assert forall|u: int| 0 <= u < n && u != a implies #[trigger] adj@[u] == before[u] by {}
            assert(pairs@.take(k + 1) =~= pairs@.take(k as int).push((a, b)));
            assert forall|u: usize, v: usize| u < n && v < n implies (adj@[u as int]@.contains(v)
                <==> has_pair(pairs@.take(k + 1), u, v)) by {
                let old_take = pairs@.take(k as int);
                let new_take = pairs@.take(k + 1);
                if has_pair(old_take, u, v) {
                    let j = choose|j: int| 0 <= j < old_take.len() && #[trigger] old_take[j] == (u, v);
                    assert(new_take[j] == (u, v));
                }
                if u == a && v == b {
                    assert(new_take[k as int] == (u, v));
                    assert(adj@[u as int]@[adj@[u as int]@.len() - 1] == v);
                }
                if has_pair(new_take, u, v) {
                    let j = choose|j: int| 0 <= j < new_take.len() && #[trigger] new_take[j] == (u, v);
                    if j < k {
                        assert(old_take[j] == (u, v));
                    }
                }
                if adj@[u as int]@.contains(v) && !(u == a && v == b) {
                    let m = choose|m: int| 0 <= m < adj@[u as int]@.len() && adj@[u as int]@[m] == v;
                    if u == a {
                        assert(m < before[u as int]@.len());
                        assert(before[u as int]@[m] == v);
                        assert(before[u as int]@.contains(v));
                    } else {
                        assert(before[u as int]@[m] == v);
                        assert(before[u as int]@.contains(v));
                    }
                }
                if u != a {
                    assert(adj@[u as int] == before[u as int]);
                } else {
                    if before[u as int]@.contains(v) {
                        let m = choose|m: int| 0 <= m < before[u as int]@.len() && before[u as int]@[m] == v;
                        assert(adj@[u as int]@[m] == v);
                    }
                }
            }
            assert forall|u: int, m: int|
                0 <= u < n && 0 <= m < adj@[u]@.len() implies (#[trigger] adj@[u]@[m]) < n by {
                if u == a && m == adj@[u]@.len() - 1 {
                } else if u == a {
                    assert(adj@[u]@[m] == before[u]@[m]);
                } else {
                    assert(adj@[u] == before[u]);
                }
            }
        }
        k = k + 1;
    }
    assert(pairs@.take(pairs@.len() as int) =~= pairs@);
    proof {
        assert forall|u: int, m: int|
            0 <= u < adj_view(adj@).len() && 0 <= m < adj_view(adj@)[u].len() implies (
            #[trigger] adj_view(adj@)[u][m]) < adj_view(adj@).len() by {
            assert(adj@[u]@[m] < n);
        }
    }
    adj
}

proof fn lemma_walk_extend(adj: Seq<Seq<usize>>, roots: Seq<usize>, x: usize, w: usize)
    requires
        node_reaches(adj, roots, x),
        0 <= x < adj.len(),
        adj[x as int].contains(w),
        w < adj.len(),
    ensures
        node_reaches(adj, roots, w),
{
    let p = choose|p: Seq<usize>| #[trigger] is_walk(adj, p) && roots.contains(p[0]) && p.last() == x;
    let q = p.push(w);
    assert forall|i: int| 0 <= i < q.len() - 1 implies adj[q[i] as int].contains(#[trigger] q[i + 1]) by {
        if i < p.len() - 1 {
            assert(q[i] == p[i] && q[i + 1] == p[i + 1]);
        } else {
            assert(q[i] == x);
        }
    }
    assert(is_walk(adj, q));
    assert(q[0] == p[0]);
}

proof fn lemma_root_reaches(adj: Seq<Seq<usize>>, roots: Seq<usize>, r: usize)
    requires
        roots.contains(r),
        r < adj.len(),
    ensures
        node_reaches(adj, roots, r),
{
    let p = seq![r];
    assert(is_walk(adj, p));
}

proof fn lemma_walk_live(adj: Seq<Seq<usize>>, p: Seq<usize>, live: Seq<bool>, i: int)
    requires
        live.len() == adj.len(),
        is_walk(adj, p),
        0 <= i < p.len(),
        live[p[0] as int],
        forall|u: int, w: usize|
            #![trigger adj[u].contains(w)]
            0 <= u < adj.len() && live[u] && adj[u].contains(w) && w < adj.len() ==> live[w as int],
    ensures
        live[p[i] as int],
    decreases i,
{
    if i > 0 {
        lemma_walk_live(adj, p, live, i - 1);
        assert(adj[p[i - 1] as int].contains(p[(i - 1) + 1]));
        assert(p[i] < adj.len());
    }
}

proof fn lemma_closed_complete(adj: Seq<Seq<usize>>, roots: Seq<usize>, live: Seq<bool>, v: usize)
    requires
        live.len() == adj.len(),
        forall|r: usize| roots.contains(r) && r < adj.len() ==> live[r as int],
        forall|u: int, w: usize|
            #![trigger adj[u].contains(w)]
            0 <= u < adj.len() && live[u] && adj[u].contains(w) && w < adj.len() ==> live[w as int],
        node_reaches(adj, roots, v),
    ensures
        live[v as int],
{
    let p = choose|p: Seq<usize>| #[trigger] is_walk(adj, p) && roots.contains(p[0]) && p.last() == v;
    lemma_walk_live(adj, p, live, p.len() - 1);
}

proof fn lemma_count_true_none(s: Seq<bool>)
    requires
        forall|u: int| 0 <= u < s.len() ==> !(#[trigger] s[u]),
    ensures
        count_true(s) == 0,
    decreases s.len(),
{
    if s.len() > 0 {
        lemma_count_true_none(s.drop_last());
    }
}

/// The nodes that lie on a walk from one of `roots`.
pub fn reachable_nodes(adj: &Vec<Vec<usize>>, roots: &Vec<usize>) -> (live: Vec<bool>)
    requires
        graph_wf(adj_view(adj@)),
        forall|k: int| 0 <= k < roots@.len() ==> #[trigger] roots@[k] < adj@.len(),
    ensures
        live@.len() == adj@.len(),
        forall|v: usize| v < adj@.len() ==> (live@[v as int] <==> node_reaches(adj_view(adj@), roots@, v)),
{
    let ghost g = adj_view(adj@);
    let n = adj.len();
    let mut live: Vec<bool> = Vec::new();
    let mut i: usize = 0;
    while i < n
        invariant
            i <= n,
            live@.len() == i,
            forall|u: int| 0 <= u < i ==> !(#[trigger] live@[u]),
        decreases n - i,
    {
        live.push(false);
        i = i + 1;
    }
    proof {
        lemma_count_true_none(live@);
    }
    let mut stack: Vec<usize> = Vec::new();
    let mut k: usize = 0;
    while k < roots.len()
        invariant
            k <= roots@.len(),
            stack@ == roots@.take(k as int),
            adj@.len() == n,
            g == adj_view(adj@),
        decreases roots@.len() - k,
    {
        stack.push(roots[k]);
        assert(roots@.take(k + 1) =~= roots@.take(k as int).push(roots@[k as int]));
        k = k + 1;
    }
    assert(roots@.take(roots@.len() as int) =~= roots@);
    proof {
        assert forall|k: int| 0 <= k < stack@.len() implies node_reaches(g, roots@, #[trigger] stack@[k]) by {
            assert(roots@.contains(stack@[k]));
            lemma_root_reaches(g, roots@, stack@[k]);
        }
    }
    let mut visited: usize = 0;
    while stack.len() > 0
        invariant
            graph_wf(g),
            g == adj_view(adj@),
            adj@.len() == n,
            live@.len() == n,
            visited as nat == count_true(live@),
            forall|k: int| 0 <= k < roots@.len() ==> #[trigger] roots@[k] < n,
            forall|k: int| 0 <= k < stack@.len() ==> #[trigger] stack@[k] < n,
            forall|k: int| 0 <= k < stack@.len() ==> node_reaches(g, roots@, #[trigger] stack@[k]),
            forall|v: usize| v < n && live@[v as int] ==> node_reaches(g, roots@, v),
            forall|r: usize| roots@.contains(r) ==> live@[r as int] || stack@.contains(r),
            forall|u: int, w: usize|
                0 <= u < n && live@[u] && g[u].contains(w) ==> live@[w as int] || stack@.contains(
                    w,
                ),
        decreases n - visited, stack@.len(),
    {
        proof {
            lemma_count_true_bound(live@);
        }
        let ghost old_stack = stack@;
        let ghost old_live = live@;
        let x = stack.pop().unwrap();
        let ghost popped = stack@;
        assert(old_stack =~= popped.push(x));
        if !live[x] {
            proof {
                lemma_count_true_set(live@, x as int);
                lemma_count_true_bound(live@.update(x as int, true));
            }
            live.set(x, true);
            visited = visited + 1;
            let succ = &adj[x];
            let mut j: usize = 0;
            while j < succ.len()
                invariant
                    graph_wf(g),
                    g == adj_view(adj@),
                    adj@.len() == n,
                    x < n,
                    succ@ == g[x as int],
                    j <= succ@.len(),
                    node_reaches(g, roots@, x),
                    forall|k: int| 0 <= k < stack@.len() ==> #[trigger] stack@[k] < n,
                    forall|k: int| 0 <= k < stack@.len() ==> node_reaches(g, roots@, #[trigger] stack@[k]),
                    stack@.len() == popped.len() + j,
                    forall|k: int| 0 <= k < popped.len() ==> stack@[k] == #[trigger] popped[k],
                    forall|m: int| 0 <= m < j ==> stack@.contains(#[trigger] succ@[m]),
                decreases succ@.len() - j,
            {
                let w = succ[j];
                assert(g[x as int][j as int] == w);
                proof {
                    lemma_walk_extend(g, roots@, x, w);
                }
                let ghost before = stack@;
                stack.push(w);
                assert(stack@[stack@.len() - 1] == w);
                assert forall|m: int| 0 <= m < j + 1 implies stack@.contains(#[trigger] succ@[m]) by {
                    if m < j {
                        let q = choose|q: int| 0 <= q < before.len() && before[q] == succ@[m];
                        assert(stack@[q] == succ@[m]);
                    }
                }
                j = j + 1;
            }
            assert forall|w: usize| g[x as int].contains(w) implies stack@.contains(w) by {
                let m = choose|m: int| 0 <= m < succ@.len() && succ@[m] == w;
                assert(stack@.contains(succ@[m]));
            }
        }
        proof {
            assert forall|w: usize| old_stack.contains(w) implies live@[w as int] || stack@.contains(w) by {
                let q = choose|q: int| 0 <= q < old_stack.len() && old_stack[q] == w;
                if q == old_stack.len() - 1 {
                    assert(w == x);
                } else {
                    assert(popped[q] == w);
                    assert(stack@[q] == w);
                }
            }
            assert forall|u: int| 0 <= u < n && #[trigger] old_live[u] implies live@[u] by {
                if u != x {
                    assert(live@[u] == old_live[u]);
                }
            }
            assert forall|r: usize| roots@.contains(r) implies live@[r as int] || stack@.contains(r) by {
                if old_live[r as int] {
                } else {
                    assert(old_stack.contains(r));
                }
            }
            assert forall|u: int, w: usize|
                0 <= u < n && live@[u] && g[u].contains(w) implies live@[w as int] || stack@.contains(
                w,
            ) by {
                if u == x && !old_live[u] {
                } else {
                    assert(old_live[u]);
                    if old_live[w as int] {
                    } else {
                        assert(old_stack.contains(w));
                    }
                }
            }
            assert forall|v: usize| v < n && live@[v as int] implies node_reaches(g, roots@, v) by {
                if v == x {
                    assert(old_stack[old_stack.len() - 1] == x);
                } else {
                    assert(old_live[v as int]);
                }
            }
        }
    }
    proof {
        assert forall|v: usize| v < adj@.len() implies (live@[v as int] <==> node_reaches(
            g,
            roots@,
            v,
        )) by {
            if node_reaches(g, roots@, v) {
                lemma_closed_complete(g, roots@, live@, v);
            }
        }
    }
    live
}

} // verus!
