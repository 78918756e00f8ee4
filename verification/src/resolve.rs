//! The definition that stands for each numbered id, and the groups of
//! equivalent ids.

use vstd::prelude::*;

use crate::classify::{classify, is_least_equivalent};
use crate::closure::{adj_view, adjacency_from_pairs, has_pair};
use crate::intern::str_hash;
use crate::model::{opt_span_view, Definition, DefinitionKind, Fragment};
use crate::numbering::{def_ids, named_by, tagged, Layout};
use crate::semantics::{
    all_defs, def_of, defined, equivalent, group_separate, last_def, lemma_last_def, source_identity,
    unit_of, SourceIdentityView,
};
use crate::text::str_eq;
use crate::walk::{distinct_names, named};

verus! {

/// The definition at position `k` has id `names[v]` exactly when it is numbered `v`.
pub proof fn lemma_node_of_def(layout: &Layout, p: Seq<Fragment>, t: Seq<Fragment>, k: int, v: int)
    requires
        layout.wf(p, t),
        0 <= k < layout.defs@.len(),
        0 <= v < layout.names().len(),
    ensures
        (layout.def_node@[k] == v) <==> (all_defs(p, t)[k].0.id@ == layout.names()[v]),
        all_defs(p, t)[k].0 == *layout.defs@[k],
        all_defs(p, t)[k].1 == layout.units@[k] as int,
{
    layout.interner.lemma_distinct();
    assert(tagged(layout.defs@, layout.units@)[k] == all_defs(p, t)[k]);
    assert(named_by(layout.names(), layout.def_node@)[k] == def_ids(all_defs(p, t))[k]);
    assert(layout.def_node@[k] < layout.names().len());
}

/// A defined id has a number.
pub proof fn lemma_defined_named(layout: &Layout, p: Seq<Fragment>, t: Seq<Fragment>, s: Seq<char>)
    requires
        layout.wf(p, t),
        defined(p, t, s),
    ensures
        named(layout.names(), s),
{
    let ds = all_defs(p, t);
    lemma_last_def(ds, s);
    let k = last_def(ds, s);
    assert(named_by(layout.names(), layout.def_node@)[k] == def_ids(ds)[k]);
    assert(layout.def_node@[k] < layout.names().len());
    assert(layout.names()[layout.def_node@[k] as int] == s);
}

/// For each numbered id, the position of the definition that stands for it,
/// or the number of definitions when none does.
pub fn last_definitions(layout: &Layout, Ghost(p): Ghost<Seq<Fragment>>, Ghost(t): Ghost<Seq<Fragment>>) -> (rep: Vec<
    usize,
>)
    requires
        layout.wf(p, t),
    ensures
        rep@.len() == layout.names().len(),
        forall|v: int|
            #![trigger rep@[v]]
            0 <= v < rep@.len() ==> {
                &&& rep@[v] <= layout.defs@.len()
                &&& (rep@[v] < layout.defs@.len()) == defined(p, t, layout.names()[v])
                &&& rep@[v] < layout.defs@.len() ==> rep@[v] == last_def(all_defs(p, t), layout.names()[v])
            },
{
    let n = layout.interner.len();
    let nd = layout.defs.len();
    let mut rep: Vec<usize> = Vec::new();
    let mut v: usize = 0;
    while v < n
        invariant
            v <= n,
            rep@.len() == v,
            forall|w: int| 0 <= w < v ==> #[trigger] rep@[w] == nd,
        decreases n - v,
    {
        rep.push(nd);
        v = v + 1;
    }
    let mut k: usize = 0;
    while k < nd
        invariant
            layout.wf(p, t),
            n == layout.names().len(),
            nd == layout.defs@.len(),
            rep@.len() == n,
            k <= nd,
            forall|w: int|
                #![trigger rep@[w]]
                0 <= w < n ==> {
                    ||| rep@[w] == nd && forall|j: int| 0 <= j < k ==> layout.def_node@[j] != w
                    ||| rep@[w] < k && layout.def_node@[rep@[w] as int] == w && forall|j: int|
                        rep@[w] < j < k ==> layout.def_node@[j] != w
                },
        decreases nd - k,
    {
        let w = layout.def_node[k];
        proof {
            assert(layout.def_node@[k as int] < n);
        }
        rep.set(w, k);
        k = k + 1;
    }
    proof {
        assert forall|w: int|
            #![trigger rep@[w]]
            0 <= w < rep@.len() implies {
                &&& rep@[w] <= layout.defs@.len()
                &&& (rep@[w] < layout.defs@.len()) == defined(p, t, layout.names()[w])
                &&& rep@[w] < layout.defs@.len() ==> rep@[w] == last_def(all_defs(p, t), layout.names()[w])
            } by {
            let ds = all_defs(p, t);
            let s = layout.names()[w];
            lemma_last_def(ds, s);
            let r = last_def(ds, s);
            if r >= 0 {
                lemma_node_of_def(layout, p, t, r, w);
                if rep@[w] < nd {
                    lemma_node_of_def(layout, p, t, rep@[w] as int, w);
                    if rep@[w] < r {
                        assert(layout.def_node@[r] != w);
                    }
                    if rep@[w] > r {
                        assert(ds[rep@[w] as int].0.id@ != s);
                    }
                }
            } else {
                if rep@[w] < nd {
                    lemma_node_of_def(layout, p, t, rep@[w] as int, w);
                    assert(ds[rep@[w] as int].0.id@ != s);
                }
            }
        }
    }
    rep
}

/// Whether two definitions have the same source identity.
fn same_source(a: &Definition, b: &Definition) -> (r: bool)
    ensures
        r == (source_identity(*a) == source_identity(*b)),
{
    if a.kind != b.kind {
        return false;
    }
    match (&a.span, &b.span) {
        (Some(x), Some(y)) => {
            let r = str_eq(x.file.as_str(), y.file.as_str()) && x.line == y.line && x.column == y.column;
            proof {
                if !r && source_identity(*a) == source_identity(*b) {
                    assert(opt_span_view(a.span) == opt_span_view(b.span));
                }
            }
            r
        },
        (None, None) => str_eq(a.name.as_str(), b.name.as_str()),
        _ => false,
    }
}

/// The bucket of a definition's source identity.
fn source_key(d: &Definition) -> (h: u64)
    ensures
        forall|e: Definition| source_identity(e) == source_identity(*d) ==> h == source_key_spec(e),
{
    match &d.span {
        Some(s) => str_hash(s.file.as_str()),
        None => str_hash(d.name.as_str()),
    }
}

/// The bucket of a definition's source identity, as a spec.
pub open spec fn source_key_spec(e: Definition) -> u64 {
    match e.span {
        Some(s) => crate::intern::str_hash_spec(s.file@),
        None => crate::intern::str_hash_spec(e.name@),
    }
}

/// The source identity of the definition that stands for the `i`-th defined node.
pub open spec fn node_source(layout: &Layout, rep: Seq<usize>, dn: Seq<usize>, i: int) -> SourceIdentityView {
    source_identity(*layout.defs@[rep[dn[i] as int] as int])
}

proof fn source_key_spec_agrees(a: Definition, b: Definition)
    requires
        source_identity(a) == source_identity(b),
    ensures
        source_key_spec(a) == source_key_spec(b),
{
    assert(opt_span_view(a.span) == opt_span_view(b.span));
    match a.span {
        Some(x) => {
            let y = b.span.unwrap();
            assert(x.file@ == y.file@);
        },
        None => {},
    }
}

/// The least equivalent of an index is its own least equivalent, and
/// equivalent indices share it.
proof fn lemma_least(eq: spec_fn(int, int) -> bool, cls: Seq<usize>, m: int, a: int, b: int)
    requires
        crate::classify::is_equivalence(eq, m),
        cls.len() == m,
        forall|j: int| 0 <= j < m ==> is_least_equivalent(eq, #[trigger] cls[j] as int, j),
        0 <= a < m,
        0 <= b < m,
    ensures
        cls[cls[a] as int] == cls[a],
        eq(a, b) <==> cls[a] == cls[b],
{
    let c = cls[a] as int;
    assert(is_least_equivalent(eq, cls[c] as int, c));
    assert(is_least_equivalent(eq, c, a));
    if cls[c] < c {
        assert(eq(cls[c] as int, a));
    }
    assert(is_least_equivalent(eq, cls[b] as int, b));
    if eq(a, b) {
        if cls[a] < cls[b] {
            assert(eq(cls[a] as int, b));
        }
        if cls[b] < cls[a] {
            assert(eq(cls[b] as int, a));
        }
    }
    if cls[a] == cls[b] {
        assert(eq(a, c));
        assert(eq(c, b));
    }
}

/// For each numbered id, a group number shared exactly by equivalent ids.
pub fn equivalence_groups(
    layout: &Layout,
    rep: &Vec<usize>,
    Ghost(p): Ghost<Seq<Fragment>>,
    Ghost(t): Ghost<Seq<Fragment>>,
) -> (grp: Vec<usize>)
    requires
        layout.wf(p, t),
        rep@.len() == layout.names().len(),
        forall|v: int|
            #![trigger rep@[v]]
            0 <= v < rep@.len() ==> {
                &&& rep@[v] <= layout.defs@.len()
                &&& (rep@[v] < layout.defs@.len()) == defined(p, t, layout.names()[v])
                &&& rep@[v] < layout.defs@.len() ==> rep@[v] == last_def(all_defs(p, t), layout.names()[v])
            },
    ensures
        grp@.len() == layout.names().len(),
        forall|v: int| 0 <= v < grp@.len() ==> #[trigger] grp@[v] < grp@.len(),
        forall|u: int, v: int|
            0 <= u < grp@.len() && 0 <= v < grp@.len() ==> ((u != v && #[trigger] grp@[u] == #[trigger] grp@[v])
                <==> equivalent(p, t, layout.names()[u], layout.names()[v])),
{
    let n = layout.interner.len();
    let nd = layout.defs.len();
    let ghost names = layout.names();
    let ghost ds = all_defs(p, t);
    proof {
        layout.interner.lemma_distinct();
    }
    // The defined nodes in increasing order, and the position of each.
    let mut dn: Vec<usize> = Vec::new();
    let mut pos: Vec<usize> = Vec::new();
    let mut v: usize = 0;
    while v < n
        invariant
            v <= n,
            n == rep@.len(),
            nd == layout.defs@.len(),
            pos@.len() == v,
            dn@.len() <= v,
            forall|i: int|
                0 <= i < dn@.len() ==> #[trigger] dn@[i] < v && rep@[dn@[i] as int] < nd && pos@[dn@[i] as int]
                    == i,
            forall|w: int| 0 <= w < v && #[trigger] rep@[w] < nd ==> pos@[w] < dn@.len() && dn@[pos@[w] as int] == w,
        decreases n - v,
    {
        if rep[v] < nd {
            pos.push(dn.len());
            dn.push(v);
        } else {
            pos.push(n);
        }
        v = v + 1;
    }
    let m = dn.len();
    let ghost unit = |i: int| layout.units@[rep@[dn@[i] as int] as int] as int;
    let ghost src = |i: int| node_source(layout, rep@, dn@, i);
    proof {
        assert forall|i: int| 0 <= i < m implies #[trigger] def_of(p, t, names[dn@[i] as int])
            == *layout.defs@[rep@[dn@[i] as int] as int] && unit_of(p, t, names[dn@[i] as int]) == unit(i)
            && defined(p, t, names[dn@[i] as int]) by {
            let w = dn@[i] as int;
            assert(rep@[w] < nd);
            assert(tagged(layout.defs@, layout.units@)[rep@[w] as int] == ds[rep@[w] as int]);
        }
    }
    let mut keys: Vec<u64> = Vec::new();
    let mut i: usize = 0;
    while i < m
        invariant
            i <= m,
            m == dn@.len(),
            keys@.len() == i,
            n == rep@.len(),
            nd == layout.defs@.len(),
            forall|j: int| 0 <= j < m ==> #[trigger] dn@[j] < n && rep@[dn@[j] as int] < nd,
            forall|j: int|
                0 <= j < i ==> #[trigger] keys@[j] == source_key_spec(*layout.defs@[rep@[dn@[j] as int] as int]),
        decreases m - i,
    {
        let d = layout.defs[rep[dn[i]]];
        keys.push(source_key(d));
        i = i + 1;
    }
    let ghost eq = |a: int, b: int| src(a) == src(b);
    let defs = &layout.defs;
    let same = |a: usize, b: usize| -> (r: bool)
        requires
            a < dn@.len(),
            b < dn@.len(),
            forall|j: int| 0 <= j < dn@.len() ==> #[trigger] dn@[j] < rep@.len() && rep@[dn@[j] as int] < defs@.len(),
        ensures
            r == (source_identity(*defs@[rep@[dn@[a as int] as int] as int]) == source_identity(
                *defs@[rep@[dn@[b as int] as int] as int],
            )),
        { same_source(defs[rep[dn[a]]], defs[rep[dn[b]]]) };
    proof {
        assert forall|a: int, b: int|
            0 <= a < keys@.len() && 0 <= b < keys@.len() && #[trigger] eq(a, b) implies keys@[a] == keys@[b] by {
            source_key_spec_agrees(
                *layout.defs@[rep@[dn@[a] as int] as int],
                *layout.defs@[rep@[dn@[b] as int] as int],
            );
        }
    }
    let cls = classify(&keys, same, Ghost(eq));
    // Within each class, find the members that share a compilation unit with an earlier member.
    let mut keys2: Vec<u64> = Vec::new();
    let mut i: usize = 0;
    while i < m
        invariant
            i <= m,
            cls@.len() == m,
            keys2@.len() == i,
            forall|j: int| 0 <= j < i ==> #[trigger] keys2@[j] == cls@[j] as u64,
        decreases m - i,
    {
        keys2.push(cls[i] as u64);
        i = i + 1;
    }
    let units = &layout.units;
    let ghost eq2 = |a: int, b: int| cls@[a] == cls@[b] && unit(a) == unit(b);
    let same2 = |a: usize, b: usize| -> (r: bool)
        requires
            a < dn@.len(),
            b < dn@.len(),
            cls@.len() == dn@.len(),
            forall|j: int| 0 <= j < dn@.len() ==> #[trigger] dn@[j] < rep@.len() && rep@[dn@[j] as int] < units@.len(),
        ensures
            r == (cls@[a as int] == cls@[b as int] && units@[rep@[dn@[a as int] as int] as int]
                == units@[rep@[dn@[b as int] as int] as int]),
        { cls[a] == cls[b] && units[rep[dn[a]]] == units[rep[dn[b]]] };
    let cls2 = classify(&keys2, same2, Ghost(eq2));
    let mut bad: Vec<bool> = Vec::new();
    let mut i: usize = 0;
    while i < m
        invariant
            i <= m,
            bad@.len() == i,
            forall|c: int| 0 <= c < i ==> !#[trigger] bad@[c],
        decreases m - i,
    {
        bad.push(false);
        i = i + 1;
    }
    let mut b: usize = 0;
    while b < m
        invariant
            b <= m,
            bad@.len() == m,
            cls@.len() == m,
            cls2@.len() == m,
            forall|j: int| 0 <= j < m ==> #[trigger] cls@[j] < m,
            forall|c: int|
                0 <= c < m ==> (#[trigger] bad@[c] <==> exists|x: int| 0 <= x < b && cls@[x] == c && cls2@[x] != x),
        decreases m - b,
    {
        if cls2[b] != b {
            bad.set(cls[b], true);
        }
        b = b + 1;
    }
    // Each defined node in a class without collisions joins the class's first node.
    let mut grp: Vec<usize> = Vec::new();
    let mut w: usize = 0;
    while w < n
        invariant
            w <= n,
            grp@.len() == w,
            forall|x: int| 0 <= x < w ==> #[trigger] grp@[x] == x,
        decreases n - w,
    {
        grp.push(w);
        w = w + 1;
    }
    let mut i: usize = 0;
    while i < m
        invariant
            i <= m,
            grp@.len() == n,
            m == dn@.len(),
            cls@.len() == m,
            bad@.len() == m,
            forall|j: int| 0 <= j < m ==> #[trigger] cls@[j] < m,
            forall|j: int|
                0 <= j < m ==> #[trigger] dn@[j] < n && rep@[dn@[j] as int] < nd && pos@[dn@[j] as int] == j,
            forall|w: int| 0 <= w < n && #[trigger] rep@[w] < nd ==> pos@[w] < dn@.len() && dn@[pos@[w] as int] == w,
            forall|x: int|
                #![trigger grp@[x]]
                0 <= x < n ==> grp@[x] == if rep@[x] < nd && pos@[x] < i && !bad@[cls@[pos@[x] as int] as int] {
                    dn@[cls@[pos@[x] as int] as int]
                } else {
                    x as usize
                },
        decreases m - i,
    {
        if !bad[cls[i]] {
            grp.set(dn[i], dn[cls[i]]);
        }
        i = i + 1;
    }
    proof {
        assert forall|j: int| 0 <= j < m implies #[trigger] src(j) == source_identity(
            *layout.defs@[rep@[dn@[j] as int] as int],
        ) by {}
        assert(group_facts(layout, p, t, rep@, dn@, pos@, cls@, cls2@, bad@, unit, src));
        lemma_groups(layout, p, t, rep@, dn@, pos@, cls@, cls2@, bad@, grp@, unit, src);
    }
    grp
}

/// What the group computation established, as one predicate.
pub open spec fn group_facts(
    layout: &Layout,
    p: Seq<Fragment>,
    t: Seq<Fragment>,
    rep: Seq<usize>,
    dn: Seq<usize>,
    pos: Seq<usize>,
    cls: Seq<usize>,
    cls2: Seq<usize>,
    bad: Seq<bool>,
    unit: spec_fn(int) -> int,
    src: spec_fn(int) -> SourceIdentityView,
) -> bool {
    let n = layout.names().len();
    let nd = layout.defs@.len();
    let m = dn.len();
    let eq = |a: int, b: int| src(a) == src(b);
    let eq2 = |a: int, b: int| cls[a] == cls[b] && unit(a) == unit(b);
    &&& layout.wf(p, t)
    &&& rep.len() == n
    &&& forall|v: int|
        #![trigger rep[v]]
        0 <= v < n ==> {
            &&& rep[v] <= nd
            &&& (rep[v] < nd) == defined(p, t, layout.names()[v])
        }
    &&& forall|i: int| 0 <= i < m ==> #[trigger] dn[i] < n && rep[dn[i] as int] < nd && pos[dn[i] as int] == i
    &&& forall|w: int| 0 <= w < n && #[trigger] rep[w] < nd ==> pos[w] < m && dn[pos[w] as int] == w
    &&& forall|i: int|
        0 <= i < m ==> #[trigger] def_of(p, t, layout.names()[dn[i] as int]) == *layout.defs@[rep[dn[i] as int] as int]
            && unit_of(p, t, layout.names()[dn[i] as int]) == unit(i)
    &&& forall|i: int| 0 <= i < m ==> #[trigger] src(i) == source_identity(*layout.defs@[rep[dn[i] as int] as int])
    &&& cls.len() == m
    &&& forall|j: int| 0 <= j < m ==> is_least_equivalent(eq, #[trigger] cls[j] as int, j)
    &&& cls2.len() == m
    &&& forall|j: int| 0 <= j < m ==> is_least_equivalent(eq2, #[trigger] cls2[j] as int, j)
    &&& bad.len() == m
    &&& forall|c: int| 0 <= c < m ==> (#[trigger] bad[c] <==> exists|x: int| 0 <= x < m && cls[x] == c && cls2[x] != x)
}

proof fn lemma_separate(
    layout: &Layout,
    p: Seq<Fragment>,
    t: Seq<Fragment>,
    rep: Seq<usize>,
    dn: Seq<usize>,
    pos: Seq<usize>,
    cls: Seq<usize>,
    cls2: Seq<usize>,
    bad: Seq<bool>,
    unit: spec_fn(int) -> int,
    src: spec_fn(int) -> SourceIdentityView,
    i: int,
)
    requires
        group_facts(layout, p, t, rep, dn, pos, cls, cls2, bad, unit, src),
        0 <= i < dn.len(),
    ensures
        group_separate(p, t, src(i)) <==> !bad[cls[i] as int],
{
    let m = dn.len() as int;
    let names = layout.names();
    let eq = |a: int, b: int| src(a) == src(b);
    let eq2 = |a: int, b: int| cls[a] == cls[b] && unit(a) == unit(b);
    assert(crate::classify::is_equivalence(eq, m));
    assert(crate::classify::is_equivalence(eq2, m));
    layout.interner.lemma_distinct();
    assert(is_least_equivalent(eq, cls[i] as int, i));
    if bad[cls[i] as int] {
        let x = choose|x: int| 0 <= x < m && cls[x] == cls[i] && cls2[x] != x;
        let y = cls2[x] as int;
        assert(is_least_equivalent(eq2, cls2[x] as int, x));
        assert(eq2(y, x));
        lemma_least(eq, cls, m, x, i);
        lemma_least(eq, cls, m, y, i);
        let sx = names[dn[x] as int];
        let sy = names[dn[y] as int];
        assert(pos[dn[x] as int] == x);
        assert(pos[dn[y] as int] == y);
        assert(dn[x] != dn[y]);
        assert(sx != sy);
        assert(src(x) == source_identity(def_of(p, t, sx)));
        assert(src(y) == source_identity(def_of(p, t, sy)));
        assert(unit_of(p, t, sx) == unit_of(p, t, sy));
        assert(rep[dn[x] as int] < layout.defs@.len());
        assert(rep[dn[y] as int] < layout.defs@.len());
        assert(defined(p, t, sx));
        assert(defined(p, t, sy));
    }
    if !group_separate(p, t, src(i)) {
        let (sx, sy) = choose|sx: Seq<char>, sy: Seq<char>|
            defined(p, t, sx) && defined(p, t, sy) && sx != sy && source_identity(def_of(p, t, sx)) == src(i)
                && source_identity(def_of(p, t, sy)) == src(i) && unit_of(p, t, sx) == unit_of(p, t, sy);
        lemma_defined_named(layout, p, t, sx);
        lemma_defined_named(layout, p, t, sy);
        let wx = choose|w: int| 0 <= w < names.len() && #[trigger] names[w] == sx;
        let wy = choose|w: int| 0 <= w < names.len() && #[trigger] names[w] == sy;
        assert(rep[wx] < layout.defs@.len());
        assert(rep[wy] < layout.defs@.len());
        let a = pos[wx] as int;
        let b = pos[wy] as int;
        assert(dn[a] == wx);
        assert(dn[b] == wy);
        assert(a != b);
        assert(src(a) == source_identity(def_of(p, t, sx)));
        assert(src(b) == source_identity(def_of(p, t, sy)));
        assert(eq(a, i));
        assert(eq(b, i));
        lemma_least(eq, cls, m, a, i);
        lemma_least(eq, cls, m, b, i);
        assert(unit(a) == unit(b));
        assert(eq2(a, b));
        lemma_least(eq2, cls2, m, a, b);
        assert(is_least_equivalent(eq2, cls2[a] as int, a));
        assert(is_least_equivalent(eq2, cls2[b] as int, b));
        if a < b {
            assert(cls2[b] != b);
            assert(cls[b] == cls[i]);
        } else {
            assert(cls2[a] != a);
            assert(cls[a] == cls[i]);
        }
    }
}

proof fn lemma_groups(
    layout: &Layout,
    p: Seq<Fragment>,
    t: Seq<Fragment>,
    rep: Seq<usize>,
    dn: Seq<usize>,
    pos: Seq<usize>,
    cls: Seq<usize>,
    cls2: Seq<usize>,
    bad: Seq<bool>,
    grp: Seq<usize>,
    unit: spec_fn(int) -> int,
    src: spec_fn(int) -> SourceIdentityView,
)
    requires
        group_facts(layout, p, t, rep, dn, pos, cls, cls2, bad, unit, src),
        grp.len() == layout.names().len(),
        grp.len() <= usize::MAX,
        forall|x: int|
            #![trigger grp[x]]
            0 <= x < grp.len() ==> grp[x] == if rep[x] < layout.defs@.len() && pos[x] < dn.len() && !bad[cls[pos[x] as int] as int] {
                dn[cls[pos[x] as int] as int]
            } else {
                x as usize
            },
    ensures
        forall|u: int, v: int|
            0 <= u < grp.len() && 0 <= v < grp.len() ==> ((u != v && #[trigger] grp[u] == #[trigger] grp[v])
                <==> equivalent(p, t, layout.names()[u], layout.names()[v])),
{
    let m = dn.len() as int;
    let n = layout.names().len() as int;
    let nd = layout.defs@.len();
    let names = layout.names();
    let eq = |a: int, b: int| src(a) == src(b);
    assert(crate::classify::is_equivalence(eq, m));
    layout.interner.lemma_distinct();
    assert forall|u: int, v: int|
        0 <= u < grp.len() && 0 <= v < grp.len() implies ((u != v && #[trigger] grp[u] == #[trigger] grp[v])
            <==> equivalent(p, t, names[u], names[v])) by {
        let ok_u = rep[u] < nd && !bad[cls[pos[u] as int] as int];
        let ok_v = rep[v] < nd && !bad[cls[pos[v] as int] as int];
        if equivalent(p, t, names[u], names[v]) {
            assert(rep[u] < nd);
            assert(rep[v] < nd);
            let i = pos[u] as int;
            let j = pos[v] as int;
            assert(dn[i] == u && dn[j] == v);
            assert(src(i) == source_identity(def_of(p, t, names[u])));
            assert(src(j) == source_identity(def_of(p, t, names[v])));
            lemma_least(eq, cls, m, i, j);
            lemma_separate(layout, p, t, rep, dn, pos, cls, cls2, bad, unit, src, i);
            assert(grp[u] == dn[cls[i] as int]);
            assert(grp[v] == dn[cls[j] as int]);
        }
        if u != v && grp[u] == grp[v] {
            if ok_u {
                let i = pos[u] as int;
                let c = cls[i] as int;
                assert(is_least_equivalent(eq, cls[i] as int, i));
                assert(0 <= c < m);
                lemma_least(eq, cls, m, i, i);
                assert(grp[u] == dn[c]);
                if ok_v {
                    let j = pos[v] as int;
                    assert(grp[v] == dn[cls[j] as int]);
                    assert(pos[dn[c] as int] == c);
                    assert(pos[dn[cls[j] as int] as int] == cls[j]);
                    assert(cls[j] == c);
                    lemma_least(eq, cls, m, i, j);
                    lemma_separate(layout, p, t, rep, dn, pos, cls, cls2, bad, unit, src, i);
                    assert(dn[i] == u && dn[j] == v);
                    assert(src(i) == source_identity(def_of(p, t, names[u])));
                    assert(src(j) == source_identity(def_of(p, t, names[v])));
                    assert(names[u] != names[v]);
                } else {
                    assert(grp[v] == v);
                    assert(v == dn[c]);
                    assert(dn[c] < n && rep[dn[c] as int] < nd && pos[dn[c] as int] == c);
                    assert(rep[v] < nd);
                    assert(pos[v] == c);
                    assert(cls[c] == c);
                    assert(false);
                }
            } else {
                if ok_v {
                    let j = pos[v] as int;
                    let c = cls[j] as int;
                    assert(is_least_equivalent(eq, cls[j] as int, j));
                    assert(0 <= c < m);
                    lemma_least(eq, cls, m, j, j);
                    assert(grp[v] == dn[c]);
                    assert(grp[u] == u);
                    assert(u == dn[c]);
                    assert(dn[c] < n && rep[dn[c] as int] < nd && pos[dn[c] as int] == c);
                    assert(rep[u] < nd);
                    assert(pos[u] == c);
                    assert(false);
                } else {
                    assert(grp[u] == u);
                    assert(grp[v] == v);
                }
            }
        }
    }
}

} // verus!
