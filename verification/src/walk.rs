//! Reachability over graphs whose nodes are strings, and its agreement with
//! reachability over the dense numbers that stand for those strings.

use vstd::prelude::*;

use crate::closure::{graph_wf, is_walk, node_reaches};

verus! {

/// A step relation between strings.
pub type Step = spec_fn(Seq<char>, Seq<char>) -> bool;

/// `p` is a non-empty walk along `step`.
pub open spec fn is_str_walk(step: Step, p: Seq<Seq<char>>) -> bool {
    &&& p.len() > 0
    &&& forall|i: int| 0 <= i < p.len() - 1 ==> #[trigger] step(p[i], p[i + 1])
}

/// `s` lies on a walk along `step` that starts at a string that `root` holds.
pub open spec fn str_reaches(step: Step, root: spec_fn(Seq<char>) -> bool, s: Seq<char>) -> bool {
    exists|p: Seq<Seq<char>>| #[trigger] is_str_walk(step, p) && root(p[0]) && p.last() == s
}

/// No two numbers stand for the same string.
pub open spec fn distinct_names(names: Seq<Seq<char>>) -> bool {
    forall|i: int, j: int|
        0 <= i < names.len() && 0 <= j < names.len() && i != j ==> #[trigger] names[i] != #[trigger] names[j]
}

/// The string `s` has a number.
pub open spec fn named(names: Seq<Seq<char>>, s: Seq<char>) -> bool {
    exists|w: int| 0 <= w < names.len() && #[trigger] names[w] == s
}

/// Some number of `nodes` stands for `s`.
pub open spec fn listed(names: Seq<Seq<char>>, nodes: Seq<usize>, s: Seq<char>) -> bool {
    exists|k: int| 0 <= k < nodes.len() && #[trigger] names[nodes[k] as int] == s
}

/// A concatenation lists what either part lists.
pub proof fn lemma_listed_concat(names: Seq<Seq<char>>, a: Seq<usize>, b: Seq<usize>, s: Seq<char>)
    ensures
        listed(names, a + b, s) <==> (listed(names, a, s) || listed(names, b, s)),
{
    if listed(names, a + b, s) {
        let k = choose|k: int| 0 <= k < (a + b).len() && #[trigger] names[(a + b)[k] as int] == s;
        if k < a.len() {
            assert(names[a[k] as int] == s);
        } else {
            assert(names[b[k - a.len()] as int] == s);
        }
    }
    if listed(names, a, s) {
        let k = choose|k: int| 0 <= k < a.len() && #[trigger] names[a[k] as int] == s;
        assert(names[(a + b)[k] as int] == s);
    }
    if listed(names, b, s) {
        let k = choose|k: int| 0 <= k < b.len() && #[trigger] names[b[k] as int] == s;
        assert(names[(a + b)[a.len() + k] as int] == s);
    }
}

/// The numbered graph `adj` stands for `step` through `names`.
pub open spec fn graph_agrees(adj: Seq<Seq<usize>>, names: Seq<Seq<char>>, step: Step) -> bool {
    &&& graph_wf(adj)
    &&& adj.len() <= usize::MAX
    &&& names.len() == adj.len()
    &&& distinct_names(names)
    &&& forall|u: int, w: int|
        0 <= u < adj.len() && 0 <= w < adj.len() ==> (adj[u].contains(w as usize) <==> #[trigger] step(
            names[u],
            names[w],
        ))
    &&& forall|u: int, s: Seq<char>| 0 <= u < adj.len() && #[trigger] step(names[u], s) ==> named(names, s)
}

/// The numbered graph `adj` and its roots stand for `step` and `root` through `names`.
pub open spec fn numbering_agrees(
    adj: Seq<Seq<usize>>,
    roots: Seq<usize>,
    names: Seq<Seq<char>>,
    step: Step,
    root: spec_fn(Seq<char>) -> bool,
) -> bool {
    &&& graph_agrees(adj, names, step)
    &&& forall|k: int| 0 <= k < roots.len() ==> #[trigger] roots[k] < adj.len()
    &&& forall|s: Seq<char>| #[trigger] root(s) <==> listed(names, roots, s)
}

proof fn index_walk(
    adj: Seq<Seq<usize>>,
    roots: Seq<usize>,
    names: Seq<Seq<char>>,
    step: Step,
    root: spec_fn(Seq<char>) -> bool,
    q: Seq<Seq<char>>,
    i: int,
) -> (p: Seq<usize>)
    requires
        numbering_agrees(adj, roots, names, step, root),
        is_str_walk(step, q),
        root(q[0]),
        0 <= i < q.len(),
    ensures
        is_walk(adj, p),
        roots.contains(p[0]),
        names[p.last() as int] == q[i],
    decreases i,
{
    if i == 0 {
        let k = choose|k: int| 0 <= k < roots.len() && #[trigger] names[roots[k] as int] == q[0];
        let p = seq![roots[k]];
        assert(roots.contains(p[0]));
        p
    } else {
        let prev = index_walk(adj, roots, names, step, root, q, i - 1);
        let u = prev.last();
        assert(step(q[i - 1], q[(i - 1) + 1]));
        assert(step(names[u as int], q[i]));
        let w = choose|w: int| 0 <= w < names.len() && #[trigger] names[w] == q[i];
        assert(adj[u as int].contains(w as usize));
        let p = prev.push(w as usize);
        assert forall|j: int| 0 <= j < p.len() - 1 implies adj[p[j] as int].contains(#[trigger] p[j + 1]) by {
            if j < prev.len() - 1 {
                assert(prev[j + 1] == p[j + 1]);
            }
        }
        assert(p[0] == prev[0]);
        p
    }
}

/// Reachability over the numbers agrees with reachability over the strings
/// that they stand for.
pub proof fn lemma_reach_agrees(
    adj: Seq<Seq<usize>>,
    roots: Seq<usize>,
    names: Seq<Seq<char>>,
    step: Step,
    root: spec_fn(Seq<char>) -> bool,
    v: usize,
)
    requires
        numbering_agrees(adj, roots, names, step, root),
        v < adj.len(),
    ensures
        node_reaches(adj, roots, v) <==> str_reaches(step, root, names[v as int]),
{
    if node_reaches(adj, roots, v) {
        let p = choose|p: Seq<usize>| #[trigger] is_walk(adj, p) && roots.contains(p[0]) && p.last() == v;
        let q = Seq::new(p.len(), |i: int| names[p[i] as int]);
        assert forall|i: int| 0 <= i < q.len() - 1 implies #[trigger] step(q[i], q[i + 1]) by {
            assert(adj[p[i] as int].contains(p[i + 1]));
            assert(p[i] < adj.len());
            assert(p[i + 1] < adj.len());
        }
        assert(is_str_walk(step, q));
        let k = choose|k: int| 0 <= k < roots.len() && roots[k] == p[0];
        assert(names[roots[k] as int] == q[0]);
        assert(root(q[0]));
        assert(q.last() == names[v as int]);
    }
    if str_reaches(step, root, names[v as int]) {
        let q = choose|q: Seq<Seq<char>>| #[trigger] is_str_walk(step, q) && root(q[0]) && q.last() == names[v as int];
        let p = index_walk(adj, roots, names, step, root, q, q.len() - 1);
        assert(p.last() < adj.len());
        assert(names[p.last() as int] == names[v as int]);
        assert(p.last() == v);
        assert(is_walk(adj, p) && roots.contains(p[0]) && p.last() == v);
    }
}

} // verus!
