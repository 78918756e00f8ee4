//! Flattening the fragments and numbering every id they mention.

use vstd::prelude::*;

use crate::intern::Interner;
use crate::model::{Definition, Edge, Fragment};
use crate::semantics::{all_defs, all_edges, flat_defs, flat_edges, in_unit, root_in};
use crate::text::{holds, views};

verus! {

/// Definitions tagged with their compilation units, as plain values.
pub open spec fn tagged(defs: Seq<&Definition>, units: Seq<usize>) -> Seq<(Definition, int)> {
    Seq::new(defs.len(), |k: int| (*defs[k], units[k] as int))
}

/// Edges as plain values.
pub open spec fn edge_values(es: Seq<&Edge>) -> Seq<Edge> {
    es.map_values(|e: &Edge| *e)
}

/// `b` extends `a`.
pub open spec fn grows(a: Seq<Seq<char>>, b: Seq<Seq<char>>) -> bool {
    a.len() <= b.len() && forall|i: int| 0 <= i < a.len() ==> #[trigger] b[i] == a[i]
}

/// The strings that numbers stand for.
pub open spec fn named_by(names: Seq<Seq<char>>, nodes: Seq<usize>) -> Seq<Seq<char>> {
    nodes.map_values(|v: usize| names[v as int])
}

/// Every number is below `n`.
pub open spec fn below(nodes: Seq<usize>, n: nat) -> bool {
    forall|k: int| 0 <= k < nodes.len() ==> #[trigger] nodes[k] < n
}

/// The entry points that a fragment contributes to its side.
pub open spec fn fragment_roots(f: Fragment) -> Seq<Seq<char>> {
    (if f.is_product_root {
        views(f.roots@)
    } else {
        Seq::empty()
    }) + views(f.conservative_roots@)
}

/// The entry points of a side, in order.
pub open spec fn runtime_root_strings(fs: Seq<Fragment>) -> Seq<Seq<char>>
    decreases fs.len(),
{
    if fs.len() == 0 {
        Seq::empty()
    } else {
        runtime_root_strings(fs.drop_last()) + fragment_roots(fs.last())
    }
}

/// The declared public roots of all fragments, in order.
pub open spec fn public_root_strings(fs: Seq<Fragment>) -> Seq<Seq<char>>
    decreases fs.len(),
{
    if fs.len() == 0 {
        Seq::empty()
    } else {
        public_root_strings(fs.drop_last()) + views(fs.last().required_public_roots@)
    }
}

proof fn lemma_holds_views(v: Seq<String>, s: Seq<char>)
    ensures
        holds(v, s) <==> views(v).contains(s),
{
    if holds(v, s) {
        let i = choose|i: int| 0 <= i < v.len() && #[trigger] v[i]@ == s;
        assert(views(v)[i] == s);
    }
    if views(v).contains(s) {
        let i = choose|i: int| 0 <= i < views(v).len() && views(v)[i] == s;
        assert(v[i]@ == s);
    }
}

/// A string is an entry point of a side exactly when some fragment of the side contributes it.
pub proof fn lemma_runtime_root_strings(fs: Seq<Fragment>, s: Seq<char>)
    ensures
        runtime_root_strings(fs).contains(s) <==> exists|f: int| 0 <= f < fs.len() && root_in(#[trigger] fs[f], s),
    decreases fs.len(),
{
    if fs.len() > 0 {
        let init = fs.drop_last();
        let l = fs.last();
        lemma_runtime_root_strings(init, s);
        lemma_holds_views(l.roots@, s);
        lemma_holds_views(l.conservative_roots@, s);
        let a = runtime_root_strings(init);
        let pr = if l.is_product_root {
            views(l.roots@)
        } else {
            Seq::empty()
        };
        let c = views(l.conservative_roots@);
        let b = fragment_roots(l);
        assert(b == pr + c);
        assert(runtime_root_strings(fs) == a + b);
        assert(fs[fs.len() - 1] == l);
        if (a + b).contains(s) {
            let i = choose|i: int| 0 <= i < (a + b).len() && (a + b)[i] == s;
            if i < a.len() {
                assert(a[i] == s);
                assert(a.contains(s));
                let f = choose|f: int| 0 <= f < init.len() && root_in(#[trigger] init[f], s);
                assert(fs[f] == init[f]);
            } else if i < a.len() + pr.len() {
                assert(pr[i - a.len()] == s);
                assert(pr.contains(s));
                assert(root_in(fs[fs.len() - 1], s));
            } else {
                assert(c[i - a.len() - pr.len()] == s);
                assert(c.contains(s));
                assert(root_in(fs[fs.len() - 1], s));
            }
        }
        if exists|f: int| 0 <= f < fs.len() && root_in(#[trigger] fs[f], s) {
            let f = choose|f: int| 0 <= f < fs.len() && root_in(#[trigger] fs[f], s);
            if f < fs.len() - 1 {
                assert(init[f] == fs[f]);
                assert(root_in(init[f], s));
                assert(a.contains(s));
                let i = choose|i: int| 0 <= i < a.len() && a[i] == s;
                assert((a + b)[i] == s);
            } else if l.is_product_root && holds(l.roots@, s) {
                let j = choose|j: int| 0 <= j < pr.len() && pr[j] == s;
                assert(b[j] == s);
                assert((a + b)[a.len() + j] == s);
            } else {
                assert(c.contains(s));
                let j = choose|j: int| 0 <= j < c.len() && c[j] == s;
                assert(b[pr.len() + j] == s);
                assert((a + b)[a.len() + pr.len() + j] == s);
            }
        }
    }
}

/// A string is a declared public root exactly when some fragment declares it.
pub proof fn lemma_public_root_strings(fs: Seq<Fragment>, s: Seq<char>)
    ensures
        public_root_strings(fs).contains(s) <==> exists|f: int|
            0 <= f < fs.len() && holds(#[trigger] fs[f].required_public_roots@, s),
    decreases fs.len(),
{
    if fs.len() > 0 {
        let init = fs.drop_last();
        let l = fs.last();
        lemma_public_root_strings(init, s);
        lemma_holds_views(l.required_public_roots@, s);
        let a = public_root_strings(init);
        let b = views(l.required_public_roots@);
        if (a + b).contains(s) {
            let i = choose|i: int| 0 <= i < (a + b).len() && (a + b)[i] == s;
            if i < a.len() {
                assert(a.contains(s));
                let f = choose|f: int| 0 <= f < init.len() && holds(#[trigger] init[f].required_public_roots@, s);
                assert(fs[f] == init[f]);
            } else {
                assert(b[i - a.len()] == s);
                assert(b.contains(s));
                assert(fs[fs.len() - 1] == l);
            }
        }
        if exists|f: int| 0 <= f < fs.len() && holds(#[trigger] fs[f].required_public_roots@, s) {
            let f = choose|f: int| 0 <= f < fs.len() && holds(#[trigger] fs[f].required_public_roots@, s);
            if f < fs.len() - 1 {
                assert(init[f] == fs[f]);
                let i = choose|i: int| 0 <= i < a.len() && a[i] == s;
                assert((a + b)[i] == s);
            } else {
                let j = choose|j: int| 0 <= j < b.len() && b[j] == s;
                assert((a + b)[a.len() + j] == s);
            }
        }
    }
}

/// The fragment at position `f` of the production fragments followed by the test fragments.
pub(crate) fn fragment_at<'a>(p: &'a [Fragment], t: &'a [Fragment], f: usize) -> (r: &'a Fragment)
    requires
        f < p@.len() + t@.len(),
    ensures
        *r == (p@ + t@)[f as int],
{
    if f < p.len() {
        &p[f]
    } else {
        &t[f - p.len()]
    }
}

proof fn lemma_flat_defs_step(fs: Seq<Fragment>, f: int)
    requires
        0 <= f < fs.len(),
    ensures
        flat_defs(fs.take(f + 1)) == flat_defs(fs.take(f)) + in_unit(fs[f].definitions@, f),
{
    let s = fs.take(f + 1);
    assert(s.drop_last() =~= fs.take(f));
    assert(s.last() == fs[f]);
}

proof fn lemma_in_unit_step(ds: Seq<Definition>, f: int, j: int)
    requires
        0 <= j < ds.len(),
    ensures
        in_unit(ds.take(j + 1), f) == in_unit(ds.take(j), f).push((ds[j], f)),
{
    assert(in_unit(ds.take(j + 1), f) =~= in_unit(ds.take(j), f).push((ds[j], f)));
}

proof fn lemma_flat_edges_step(fs: Seq<Fragment>, f: int)
    requires
        0 <= f < fs.len(),
    ensures
        flat_edges(fs.take(f + 1)) == flat_edges(fs.take(f)) + fs[f].edges@,
{
    let s = fs.take(f + 1);
    assert(s.drop_last() =~= fs.take(f));
    assert(s.last() == fs[f]);
}

/// Every definition of the fragments with the position of its fragment.
pub(crate) fn collect_definitions<'a>(p: &'a [Fragment], t: &'a [Fragment]) -> (r: (
    Vec<&'a Definition>,
    Vec<usize>,
))
    requires
        p@.len() + t@.len() <= usize::MAX,
    ensures
        r.0@.len() == r.1@.len(),
        tagged(r.0@, r.1@) == all_defs(p@, t@),
{
    let ghost fs = p@ + t@;
    let n = p.len() + t.len();
    let mut defs: Vec<&'a Definition> = Vec::new();
    let mut units: Vec<usize> = Vec::new();
    let mut f: usize = 0;
    while f < n
        invariant
            fs == p@ + t@,
            n == fs.len(),
            f <= n,
            defs@.len() == units@.len(),
            tagged(defs@, units@) == flat_defs(fs.take(f as int)),
        decreases n - f,
    {
        let frag = fragment_at(p, t, f);
        proof {
            lemma_flat_defs_step(fs, f as int);
        }
        let mut j: usize = 0;
        while j < frag.definitions.len()
            invariant
                fs == p@ + t@,
                n == fs.len(),
                f < n,
                *frag == fs[f as int],
                j <= frag.definitions@.len(),
                defs@.len() == units@.len(),
                tagged(defs@, units@) == flat_defs(fs.take(f as int)) + in_unit(
                    frag.definitions@.take(j as int),
                    f as int,
                ),
            decreases frag.definitions@.len() - j,
        {
            let ghost before = tagged(defs@, units@);
            defs.push(&frag.definitions[j]);
            units.push(f);
            proof {
                assert(tagged(defs@, units@) =~= before.push((frag.definitions@[j as int], f as int)));
                lemma_in_unit_step(frag.definitions@, f as int, j as int);
                let x = (frag.definitions@[j as int], f as int);
                let a = flat_defs(fs.take(f as int));
                let b = in_unit(frag.definitions@.take(j as int), f as int);
                assert((a + b).push(x) =~= a + b.push(x));
            }
            j = j + 1;
        }
        proof {
            assert(frag.definitions@.take(j as int) =~= frag.definitions@);
        }
        f = f + 1;
    }
    proof {
        assert(fs.take(n as int) =~= fs);
    }
    (defs, units)
}

/// Appends every edge of `fs` to `out`.
pub(crate) fn collect_edges<'a>(fs: &'a [Fragment], out: &mut Vec<&'a Edge>)
    ensures
        edge_values(final(out)@) == edge_values(old(out)@) + flat_edges(fs@),
{
    let n = fs.len();
    let mut f: usize = 0;
    while f < n
        invariant
            n == fs@.len(),
            f <= n,
            edge_values(out@) == edge_values(old(out)@) + flat_edges(fs@.take(f as int)),
        decreases n - f,
    {
        let frag = &fs[f];
        proof {
            lemma_flat_edges_step(fs@, f as int);
        }
        let mut j: usize = 0;
        while j < frag.edges.len()
            invariant
                n == fs@.len(),
                f < n,
                *frag == fs@[f as int],
                j <= frag.edges@.len(),
                edge_values(out@) == edge_values(old(out)@) + flat_edges(fs@.take(f as int))
                    + frag.edges@.take(j as int),
            decreases frag.edges@.len() - j,
        {
            let ghost before = edge_values(out@);
            out.push(&frag.edges[j]);
            proof {
                assert(edge_values(out@) =~= before.push(frag.edges@[j as int]));
                assert(frag.edges@.take(j + 1) =~= frag.edges@.take(j as int).push(frag.edges@[j as int]));
                assert(edge_values(out@) =~= edge_values(old(out)@) + flat_edges(fs@.take(f as int))
                    + frag.edges@.take(j + 1));
            }
            j = j + 1;
        }
        proof {
            assert(frag.edges@.take(j as int) =~= frag.edges@);
            assert(edge_values(out@) =~= edge_values(old(out)@) + flat_edges(fs@.take(f + 1)));
        }
        f = f + 1;
    }
    proof {
        assert(fs@.take(n as int) =~= fs@);
    }
}

/// Numbers each string of `strings`, appending the numbers to `out`.
fn number_all(interner: &mut Interner, strings: &Vec<String>, out: &mut Vec<usize>)
    requires
        old(interner).wf(),
        below(old(out)@, old(interner).names().len()),
    ensures
        final(interner).wf(),
        grows(old(interner).names(), final(interner).names()),
        below(final(out)@, final(interner).names().len()),
        named_by(final(interner).names(), final(out)@) == named_by(
            old(interner).names(),
            old(out)@,
        ) + views(strings@),
{
    let mut j: usize = 0;
    while j < strings.len()
        invariant
            interner.wf(),
            grows(old(interner).names(), interner.names()),
            j <= strings@.len(),
            below(out@, interner.names().len()),
            named_by(interner.names(), out@) == named_by(old(interner).names(), old(out)@) + views(
                strings@,
            ).take(j as int),
        decreases strings@.len() - j,
    {
        let ghost before = interner.names();
        let ghost before_out = out@;
        let v = interner.intern(strings[j].as_str());
        out.push(v);
        proof {
            assert(grows(before, interner.names()));
            assert(named_by(interner.names(), out@) =~= named_by(before, before_out).push(strings@[j as int]@));
            assert(views(strings@).take(j + 1) =~= views(strings@).take(j as int).push(strings@[j as int]@));
        }
        j = j + 1;
    }
    proof {
        assert(views(strings@).take(j as int) =~= views(strings@));
    }
}

proof fn lemma_named_by_grows(a: Seq<Seq<char>>, b: Seq<Seq<char>>, nodes: Seq<usize>)
    requires
        grows(a, b),
        below(nodes, a.len()),
    ensures
        named_by(b, nodes) == named_by(a, nodes),
        below(nodes, b.len()),
{
    assert forall|k: int| 0 <= k < nodes.len() implies named_by(b, nodes)[k] == named_by(a, nodes)[k] by {
        assert(nodes[k] < a.len());
        assert(b[nodes[k] as int] == a[nodes[k] as int]);
    }
    assert(named_by(b, nodes) =~= named_by(a, nodes));
}

proof fn lemma_grows_trans(a: Seq<Seq<char>>, b: Seq<Seq<char>>, c: Seq<Seq<char>>)
    requires
        grows(a, b),
        grows(b, c),
    ensures
        grows(a, c),
{
    assert forall|i: int| 0 <= i < a.len() implies #[trigger] c[i] == a[i] by {
        assert(c[i] == b[i]);
    }
}

/// The ids of definitions, in order.
pub open spec fn def_ids(ds: Seq<(Definition, int)>) -> Seq<Seq<char>> {
    ds.map_values(|x: (Definition, int)| x.0.id@)
}

/// The sources of edges, in order.
pub open spec fn edge_froms(es: Seq<Edge>) -> Seq<Seq<char>> {
    es.map_values(|e: Edge| e.from@)
}

/// The targets of edges, in order.
pub open spec fn edge_tos(es: Seq<Edge>) -> Seq<Seq<char>> {
    es.map_values(|e: Edge| e.to@)
}

/// The fragments flattened, with every id they mention numbered.
pub struct Layout<'a> {
    pub defs: Vec<&'a Definition>,
    pub units: Vec<usize>,
    pub edges: Vec<&'a Edge>,
    pub production_edges: usize,
    pub interner: Interner,
    pub def_node: Vec<usize>,
    pub from_node: Vec<usize>,
    pub to_node: Vec<usize>,
    pub production_roots: Vec<usize>,
    pub test_roots: Vec<usize>,
    pub public_roots: Vec<usize>,
}

impl<'a> Layout<'a> {
    /// The strings that the node numbers stand for.
    pub open spec fn names(&self) -> Seq<Seq<char>> {
        self.interner.names()
    }

    /// The layout describes production fragments `p` and test fragments `t`.
    pub open spec fn wf(&self, p: Seq<Fragment>, t: Seq<Fragment>) -> bool {
        let n = self.names().len();
        &&& self.interner.wf()
        &&& self.defs@.len() == self.units@.len()
        &&& self.defs@.len() == all_defs(p, t).len()
        &&& self.def_node@.len() == self.defs@.len()
        &&& self.edges@.len() == all_edges(p, t).len()
        &&& self.from_node@.len() == self.edges@.len()
        &&& self.to_node@.len() == self.edges@.len()
        &&& self.production_edges <= self.edges@.len()
        &&& tagged(self.defs@, self.units@) == all_defs(p, t)
        &&& edge_values(self.edges@) == all_edges(p, t)
        &&& self.production_edges == flat_edges(p).len()
        &&& below(self.def_node@, n)
        &&& named_by(self.names(), self.def_node@) == def_ids(all_defs(p, t))
        &&& below(self.from_node@, n)
        &&& named_by(self.names(), self.from_node@) == edge_froms(all_edges(p, t))
        &&& below(self.to_node@, n)
        &&& named_by(self.names(), self.to_node@) == edge_tos(all_edges(p, t))
        &&& below(self.production_roots@, n)
        &&& named_by(self.names(), self.production_roots@) == runtime_root_strings(p)
        &&& below(self.test_roots@, n)
        &&& named_by(self.names(), self.test_roots@) == runtime_root_strings(t)
        &&& below(self.public_roots@, n)
        &&& named_by(self.names(), self.public_roots@) == public_root_strings(p + t)
    }
}

/// Numbers the entry points of the fragments `fs`, appending them to `out`.
fn number_runtime_roots(interner: &mut Interner, fs: &[Fragment], out: &mut Vec<usize>)
    requires
        old(interner).wf(),
        old(out)@.len() == 0,
    ensures
        final(interner).wf(),
        grows(old(interner).names(), final(interner).names()),
        below(final(out)@, final(interner).names().len()),
        named_by(final(interner).names(), final(out)@) == runtime_root_strings(fs@),
{
    let mut f: usize = 0;
    proof {
        assert(named_by(interner.names(), out@) =~= runtime_root_strings(fs@.take(0)));
    }
    while f < fs.len()
        invariant
            f <= fs@.len(),
            interner.wf(),
            grows(old(interner).names(), interner.names()),
            below(out@, interner.names().len()),
            named_by(interner.names(), out@) == runtime_root_strings(fs@.take(f as int)),
        decreases fs@.len() - f,
    {
        let frag = &fs[f];
        let ghost start = interner.names();
        let ghost prefix = runtime_root_strings(fs@.take(f as int));
        if frag.is_product_root {
            number_all(interner, &frag.roots, out);
        }
        let ghost mid = interner.names();
        let ghost mid_named = named_by(mid, out@);
        number_all(interner, &frag.conservative_roots, out);
        proof {
            lemma_grows_trans(start, mid, interner.names());
            lemma_grows_trans(old(interner).names(), start, interner.names());
            let s = fs@.take(f + 1);
            assert(s.drop_last() =~= fs@.take(f as int));
            assert(s.last() == frag);
            let pr = if frag.is_product_root {
                views(frag.roots@)
            } else {
                Seq::empty()
            };
            assert(mid_named =~= prefix + pr);
            assert(named_by(interner.names(), out@) =~= prefix + (pr + views(frag.conservative_roots@)));
        }
        f = f + 1;
    }
    proof {
        assert(fs@.take(f as int) =~= fs@);
    }
}

/// Numbers the declared public roots of the fragments, appending them to `out`.
fn number_public_roots(interner: &mut Interner, p: &[Fragment], t: &[Fragment], out: &mut Vec<usize>)
    requires
        old(interner).wf(),
        old(out)@.len() == 0,
        p@.len() + t@.len() <= usize::MAX,
    ensures
        final(interner).wf(),
        grows(old(interner).names(), final(interner).names()),
        below(final(out)@, final(interner).names().len()),
        named_by(final(interner).names(), final(out)@) == public_root_strings(p@ + t@),
{
    let ghost fs = p@ + t@;
    let n = p.len() + t.len();
    let mut f: usize = 0;
    proof {
        assert(named_by(interner.names(), out@) =~= public_root_strings(fs.take(0)));
    }
    while f < n
        invariant
            fs == p@ + t@,
            n == fs.len(),
            f <= n,
            interner.wf(),
            grows(old(interner).names(), interner.names()),
            below(out@, interner.names().len()),
            named_by(interner.names(), out@) == public_root_strings(fs.take(f as int)),
        decreases n - f,
    {
        let frag = fragment_at(p, t, f);
        let ghost start = interner.names();
        number_all(interner, &frag.required_public_roots, out);
        proof {
            lemma_grows_trans(old(interner).names(), start, interner.names());
            let s = fs.take(f + 1);
            assert(s.drop_last() =~= fs.take(f as int));
            assert(s.last() == *frag);
        }
        f = f + 1;
    }
    proof {
        assert(fs.take(n as int) =~= fs);
    }
}

/// Flattens the fragments and numbers every id they mention.
pub fn lay_out<'a>(p: &'a [Fragment], t: &'a [Fragment]) -> (r: Layout<'a>)
    requires
        p@.len() + t@.len() <= usize::MAX,
    ensures
        r.wf(p@, t@),
{
    let (defs, units) = collect_definitions(p, t);
    let mut edges: Vec<&'a Edge> = Vec::new();
    collect_edges(p, &mut edges);
    let production_edges = edges.len();
    collect_edges(t, &mut edges);
    proof {
        assert(edge_values(Seq::<&Edge>::empty()) =~= Seq::<Edge>::empty());
        assert(edge_values(edges@) =~= all_edges(p@, t@));
        assert(production_edges == flat_edges(p@).len());
    }
    let ghost ds = all_defs(p@, t@);
    let ghost es = all_edges(p@, t@);
    let mut interner = Interner::new();
    let mut def_node: Vec<usize> = Vec::new();
    let mut k: usize = 0;
    while k < defs.len()
        invariant
            defs@.len() == ds.len(),
            tagged(defs@, units@) == ds,
            defs@.len() == units@.len(),
            k <= defs@.len(),
            interner.wf(),
            below(def_node@, interner.names().len()),
            named_by(interner.names(), def_node@) == def_ids(ds).take(k as int),
        decreases defs@.len() - k,
    {
        let ghost before = interner.names();
        let ghost before_nodes = def_node@;
        let v = interner.intern(defs[k].id.as_str());
        def_node.push(v);
        proof {
            assert(grows(before, interner.names()));
            lemma_named_by_grows(before, interner.names(), before_nodes);
            assert(tagged(defs@, units@)[k as int].0 == *defs@[k as int]);
            assert(named_by(interner.names(), def_node@) =~= named_by(interner.names(), before_nodes).push(
                interner.names()[v as int],
            ));
            assert(def_ids(ds).take(k + 1) =~= def_ids(ds).take(k as int).push(ds[k as int].0.id@));
            assert(named_by(interner.names(), def_node@) =~= def_ids(ds).take(k + 1));
        }
        k = k + 1;
    }
    proof {
        assert(def_ids(ds).take(k as int) =~= def_ids(ds));
    }
    let mut from_node: Vec<usize> = Vec::new();
    let mut to_node: Vec<usize> = Vec::new();
    let ghost after_defs = interner.names();
    let mut k: usize = 0;
    while k < edges.len()
        invariant
            edge_values(edges@) == es,
            k <= edges@.len(),
            interner.wf(),
            grows(after_defs, interner.names()),
            from_node@.len() == k,
            to_node@.len() == k,
            below(from_node@, interner.names().len()),
            below(to_node@, interner.names().len()),
            named_by(interner.names(), from_node@) == edge_froms(es).take(k as int),
            named_by(interner.names(), to_node@) == edge_tos(es).take(k as int),
        decreases edges@.len() - k,
    {
        let ghost before = interner.names();
        let ghost before_from = from_node@;
        let ghost before_to = to_node@;
        let a = interner.intern(edges[k].from.as_str());
        let ghost middle = interner.names();
        let b = interner.intern(edges[k].to.as_str());
        from_node.push(a);
        to_node.push(b);
        proof {
            assert(grows(before, middle));
            assert(grows(middle, interner.names()));
            lemma_grows_trans(before, middle, interner.names());
            lemma_grows_trans(after_defs, before, interner.names());
            lemma_named_by_grows(before, interner.names(), before_from);
            lemma_named_by_grows(before, interner.names(), before_to);
            assert(interner.names()[a as int] == middle[a as int]);
            assert(edge_values(edges@)[k as int] == *edges@[k as int]);
            assert(named_by(interner.names(), from_node@) =~= edge_froms(es).take(k + 1));
            assert(named_by(interner.names(), to_node@) =~= edge_tos(es).take(k + 1));
        }
        k = k + 1;
    }
    proof {
        assert(edge_froms(es).take(k as int) =~= edge_froms(es));
        assert(edge_tos(es).take(k as int) =~= edge_tos(es));
    }
    let ghost after_edges = interner.names();
    let mut production_roots: Vec<usize> = Vec::new();
    number_runtime_roots(&mut interner, p, &mut production_roots);
    let ghost after_production = interner.names();
    let mut test_roots: Vec<usize> = Vec::new();
    number_runtime_roots(&mut interner, t, &mut test_roots);
    let ghost after_test = interner.names();
    let mut public_roots: Vec<usize> = Vec::new();
    number_public_roots(&mut interner, p, t, &mut public_roots);
    proof {
        let fin = interner.names();
        assert(named_by(after_defs, def_node@).len() == def_ids(ds).len());
        assert(named_by(after_edges, from_node@).len() == edge_froms(es).len());
        assert(tagged(defs@, units@).len() == defs@.len());
        assert(edge_values(edges@).len() == edges@.len());
        lemma_grows_trans(after_production, after_test, fin);
        lemma_grows_trans(after_edges, after_production, fin);
        lemma_grows_trans(after_defs, after_edges, fin);
        lemma_named_by_grows(after_defs, fin, def_node@);
        lemma_named_by_grows(after_edges, fin, from_node@);
        lemma_named_by_grows(after_edges, fin, to_node@);
        lemma_named_by_grows(after_production, fin, production_roots@);
        lemma_named_by_grows(after_test, fin, test_roots@);
    }
    Layout {
        defs,
        units,
        edges,
        production_edges,
        interner,
        def_node,
        from_node,
        to_node,
        production_roots,
        test_roots,
        public_roots,
    }
}

} // verus!
