//! Classes of definitions that share an identity, and what each class holds.

use vstd::prelude::*;

use crate::classify::{classify, is_equivalence, is_least_equivalent};
use crate::intern::{str_hash, str_hash_spec};
use crate::model::{definition_identity_view, identity_view, opt_span_view, Definition, Fragment};
use crate::numbering::{fragment_at, tagged, Layout};
use crate::semantics::{
    all_defs, compiled_for_production, lemma_flat_defs_units, production_public, production_restricted,
    production_root_declares, test_binary_declares,
};
use crate::text::str_eq;

verus! {

/// Whether two definitions have the same identity.
fn same_identity(a: &Definition, b: &Definition) -> (r: bool)
    ensures
        r == (definition_identity_view(*a) == definition_identity_view(*b)),
{
    if !str_eq(a.crate_name.as_str(), b.crate_name.as_str()) || !str_eq(a.name.as_str(), b.name.as_str())
        || a.kind != b.kind {
        return false;
    }
    match (&a.span, &b.span) {
        (Some(x), Some(y)) => {
            let r = str_eq(x.file.as_str(), y.file.as_str()) && x.line == y.line && x.column == y.column;
            proof {
                if !r && definition_identity_view(*a) == definition_identity_view(*b) {
                    assert(opt_span_view(a.span) == opt_span_view(b.span));
                }
            }
            r
        },
        (None, None) => true,
        _ => false,
    }
}

/// For each class, whether one of its members is selected.
fn any_in_class(class: &Vec<usize>, sel: &Vec<bool>) -> (flag: Vec<bool>)
    requires
        class@.len() == sel@.len(),
        forall|k: int| 0 <= k < class@.len() ==> #[trigger] class@[k] < class@.len(),
    ensures
        flag@.len() == class@.len(),
        forall|c: int|
            0 <= c < class@.len() ==> (#[trigger] flag@[c] <==> exists|i: int|
                0 <= i < class@.len() && class@[i] == c && #[trigger] sel@[i]),
{
    let n = class.len();
    let mut flag: Vec<bool> = Vec::new();
    let mut c: usize = 0;
    while c < n
        invariant
            c <= n,
            flag@.len() == c,
            forall|x: int| 0 <= x < c ==> !#[trigger] flag@[x],
        decreases n - c,
    {
        flag.push(false);
        c = c + 1;
    }
    let mut i: usize = 0;
    while i < n
        invariant
            n == class@.len(),
            n == sel@.len(),
            i <= n,
            flag@.len() == n,
            forall|k: int| 0 <= k < n ==> #[trigger] class@[k] < n,
            forall|c: int|
                0 <= c < n ==> (#[trigger] flag@[c] <==> exists|j: int| 0 <= j < i && class@[j] == c && #[trigger] sel@[j]),
        decreases n - i,
    {
        if sel[i] {
            flag.set(class[i], true);
        }
        i = i + 1;
    }
    flag
}

/// Identity classes of the definitions and what holds of each class.
pub struct IdentityFacts {
    /// For each definition, the first definition with its identity.
    pub class: Vec<usize>,
    pub production: Vec<bool>,
    pub production_public: Vec<bool>,
    pub production_restricted: Vec<bool>,
    pub production_root: Vec<bool>,
    pub test_binary: Vec<bool>,
}

impl IdentityFacts {
    /// The facts describe the definitions of `layout` over fragments `p` and `t`.
    pub open spec fn wf(&self, layout: &Layout, p: Seq<Fragment>, t: Seq<Fragment>) -> bool {
        let nd = layout.defs@.len();
        let id = |k: int| definition_identity_view(*layout.defs@[k]);
        &&& self.class@.len() == nd
        &&& forall|k: int| 0 <= k < nd ==> #[trigger] self.class@[k] < nd
        &&& forall|j: int, k: int|
            0 <= j < nd && 0 <= k < nd ==> ((#[trigger] self.class@[j] == #[trigger] self.class@[k]) == (id(j) == id(k)))
        &&& self.production@.len() == nd
        &&& self.production_public@.len() == nd
        &&& self.production_restricted@.len() == nd
        &&& self.production_root@.len() == nd
        &&& self.test_binary@.len() == nd
        &&& forall|k: int|
            #![trigger self.class@[k]]
            0 <= k < nd ==> {
                &&& self.production@[self.class@[k] as int] == compiled_for_production(p, t, id(k))
                &&& self.production_public@[self.class@[k] as int] == production_public(p, t, id(k))
                &&& self.production_restricted@[self.class@[k] as int] == production_restricted(p, t, id(k))
                &&& self.production_root@[self.class@[k] as int] == production_root_declares(p, t, id(k))
                &&& self.test_binary@[self.class@[k] as int] == test_binary_declares(p, t, id(k))
            }
    }
}

/// Classifies the definitions by identity and records what each class holds.
pub fn identity_facts(layout: &Layout, fp: &[Fragment], ft: &[Fragment]) -> (r: IdentityFacts)
    requires
        layout.wf(fp@, ft@),
        fp@.len() + ft@.len() <= usize::MAX,
    ensures
        r.wf(layout, fp@, ft@),
{
    let ghost p = fp@;
    let ghost t = ft@;
    let ghost ds = all_defs(p, t);
    let nd = layout.defs.len();
    let np = fp.len();
    let defs = &layout.defs;
    let ghost id = |k: int| definition_identity_view(*layout.defs@[k]);
    let mut keys: Vec<u64> = Vec::new();
    let mut k: usize = 0;
    while k < nd
        invariant
            nd == defs@.len(),
            k <= nd,
            keys@.len() == k,
            forall|j: int| 0 <= j < k ==> #[trigger] keys@[j] == str_hash_spec(defs@[j].name@),
        decreases nd - k,
    {
        keys.push(str_hash(defs[k].name.as_str()));
        k = k + 1;
    }
    let ghost eq = |a: int, b: int| id(a) == id(b);
    let same = |a: usize, b: usize| -> (r: bool)
        requires
            a < defs@.len(),
            b < defs@.len(),
        ensures
            r == (definition_identity_view(*defs@[a as int]) == definition_identity_view(*defs@[b as int])),
        { same_identity(defs[a], defs[b]) };
    proof {
        assert forall|a: int, b: int| 0 <= a < keys@.len() && 0 <= b < keys@.len() && #[trigger] eq(a, b) implies keys@[a]
            == keys@[b] by {
            assert(defs@[a].name@ == defs@[b].name@);
        }
    }
    let class = classify(&keys, same, Ghost(eq));
    proof {
        assert(is_equivalence(eq, nd as int));
        assert forall|j: int, k: int| 0 <= j < nd && 0 <= k < nd implies ((#[trigger] class@[j] == #[trigger] class@[k])
            == (id(j) == id(k))) by {
            assert(is_least_equivalent(eq, class@[j] as int, j));
            assert(is_least_equivalent(eq, class@[k] as int, k));
            if id(j) == id(k) {
                if class@[j] < class@[k] {
                    assert(eq(class@[j] as int, k));
                }
                if class@[k] < class@[j] {
                    assert(eq(class@[k] as int, j));
                }
            }
            if class@[j] == class@[k] {
                assert(eq(class@[j] as int, j));
                assert(eq(class@[k] as int, k));
            }
        }
        assert forall|k: int| 0 <= k < nd implies #[trigger] class@[k] < nd by {
            assert(is_least_equivalent(eq, class@[k] as int, k));
        }
        lemma_flat_defs_units(p + t);
    }
    // The selections behind each flag.
    let mut in_production: Vec<bool> = Vec::new();
    let mut public: Vec<bool> = Vec::new();
    let mut restricted: Vec<bool> = Vec::new();
    let mut root: Vec<bool> = Vec::new();
    let mut binary: Vec<bool> = Vec::new();
    let mut k: usize = 0;
    while k < nd
        invariant
            layout.wf(p, t),
            p == fp@,
            t == ft@,
            ds == all_defs(p, t),
            fp@.len() + ft@.len() <= usize::MAX,
            forall|j: int| 0 <= j < ds.len() ==> 0 <= (#[trigger] ds[j]).1 < (p + t).len(),
            nd == layout.defs@.len(),
            np == p.len(),
            k <= nd,
            in_production@.len() == k,
            public@.len() == k,
            restricted@.len() == k,
            root@.len() == k,
            binary@.len() == k,
            forall|j: int|
                #![trigger in_production@[j]]
                #![trigger public@[j]]
                #![trigger restricted@[j]]
                #![trigger root@[j]]
                #![trigger binary@[j]]
                0 <= j < k ==> {
                    &&& in_production@[j] == (ds[j].1 < p.len())
                    &&& public@[j] == (ds[j].1 < p.len() && ds[j].0.public_api)
                    &&& restricted@[j] == (ds[j].1 < p.len() && ds[j].0.restricted_visible_api)
                    &&& root@[j] == (ds[j].1 < p.len() && (p + t)[ds[j].1].is_product_root)
                    &&& binary@[j] == (ds[j].1 >= p.len() && (p + t)[ds[j].1].is_product_root && !(p
                        + t)[ds[j].1].test_surface)
                },
        decreases nd - k,
    {
        proof {
            assert(tagged(layout.defs@, layout.units@)[k as int] == ds[k as int]);
        }
        let ghost o1 = in_production@;
        let ghost o2 = public@;
        let ghost o3 = restricted@;
        let ghost o4 = root@;
        let ghost o5 = binary@;
        let u = layout.units[k];
        let frag = fragment_at(fp, ft, u);
        let d = layout.defs[k];
        in_production.push(u < np);
        public.push(u < np && d.public_api);
        restricted.push(u < np && d.restricted_visible_api);
        root.push(u < np && frag.is_product_root);
        binary.push(u >= np && frag.is_product_root && !frag.test_surface);
        proof {
            assert(ds[k as int].0 == *d);
            assert(ds[k as int].1 == u as int);
            assert(in_production@[k as int] == (ds[k as int].1 < p.len()));
            assert(*frag == (p + t)[u as int]);
            assert(public@[k as int] == (ds[k as int].1 < p.len() && ds[k as int].0.public_api));
            assert(restricted@[k as int] == (ds[k as int].1 < p.len() && ds[k as int].0.restricted_visible_api));
            assert(root@[k as int] == (ds[k as int].1 < p.len() && (p + t)[ds[k as int].1].is_product_root));
            assert(binary@[k as int] == (ds[k as int].1 >= p.len() && (p + t)[ds[k as int].1].is_product_root && !(p
                + t)[ds[k as int].1].test_surface));
            assert forall|j: int|
                #![trigger in_production@[j]]
                #![trigger public@[j]]
                #![trigger restricted@[j]]
                #![trigger root@[j]]
                #![trigger binary@[j]]
                0 <= j < k + 1 implies {
                    &&& in_production@[j] == (ds[j].1 < p.len())
                    &&& public@[j] == (ds[j].1 < p.len() && ds[j].0.public_api)
                    &&& restricted@[j] == (ds[j].1 < p.len() && ds[j].0.restricted_visible_api)
                    &&& root@[j] == (ds[j].1 < p.len() && (p + t)[ds[j].1].is_product_root)
                    &&& binary@[j] == (ds[j].1 >= p.len() && (p + t)[ds[j].1].is_product_root && !(p
                        + t)[ds[j].1].test_surface)
                } by {
                if j < k {
                    assert(in_production@[j] == o1[j]);
                    assert(o1[j] == (ds[j].1 < p.len()));
                    assert(public@[j] == o2[j]);
                    assert(restricted@[j] == o3[j]);
                    assert(root@[j] == o4[j]);
                    assert(binary@[j] == o5[j]);
                }
            }
        }
        k = k + 1;
    }
    let flag_production = any_in_class(&class, &in_production);
    let flag_public = any_in_class(&class, &public);
    let flag_restricted = any_in_class(&class, &restricted);
    let flag_root = any_in_class(&class, &root);
    let flag_binary = any_in_class(&class, &binary);
    let r = IdentityFacts {
        class,
        production: flag_production,
        production_public: flag_public,
        production_restricted: flag_restricted,
        production_root: flag_root,
        test_binary: flag_binary,
    };
    proof {
        assert forall|k: int|
            #![trigger r.class@[k]]
            0 <= k < nd implies {
                &&& r.production@[r.class@[k] as int] == compiled_for_production(p, t, id(k))
                &&& r.production_public@[r.class@[k] as int] == production_public(p, t, id(k))
                &&& r.production_restricted@[r.class@[k] as int] == production_restricted(p, t, id(k))
                &&& r.production_root@[r.class@[k] as int] == production_root_declares(p, t, id(k))
                &&& r.test_binary@[r.class@[k] as int] == test_binary_declares(p, t, id(k))
            } by {
            let c = r.class@[k] as int;
            assert forall|i: int| 0 <= i < nd implies (r.class@[i] == c) == (definition_identity_view(ds[i].0) == id(k)) by {
                assert(tagged(layout.defs@, layout.units@)[i] == ds[i]);
            }
            if compiled_for_production(p, t, id(k)) {
                let i = choose|i: int|
                    0 <= i < ds.len() && #[trigger] definition_identity_view(ds[i].0) == id(k) && ds[i].1 < p.len();
                assert(in_production@[i]);
            }
            if r.production@[c] {
                let i = choose|i: int| 0 <= i < nd && r.class@[i] == c && #[trigger] in_production@[i];
                assert(definition_identity_view(ds[i].0) == id(k));
            }
            if production_public(p, t, id(k)) {
                let i = choose|i: int|
                    0 <= i < ds.len() && #[trigger] definition_identity_view(ds[i].0) == id(k) && ds[i].1 < p.len()
                        && ds[i].0.public_api;
                assert(in_production@[i] == (ds[i].1 < p.len()));
                assert(public@[i]);
            }
            if r.production_public@[c] {
                let i = choose|i: int| 0 <= i < nd && r.class@[i] == c && #[trigger] public@[i];
                assert(in_production@[i] == (ds[i].1 < p.len()));
                assert(definition_identity_view(ds[i].0) == id(k));
            }
            if production_restricted(p, t, id(k)) {
                let i = choose|i: int|
                    0 <= i < ds.len() && #[trigger] definition_identity_view(ds[i].0) == id(k) && ds[i].1 < p.len()
                        && ds[i].0.restricted_visible_api;
                assert(in_production@[i] == (ds[i].1 < p.len()));
                assert(restricted@[i]);
            }
            if r.production_restricted@[c] {
                let i = choose|i: int| 0 <= i < nd && r.class@[i] == c && #[trigger] restricted@[i];
                assert(in_production@[i] == (ds[i].1 < p.len()));
                assert(definition_identity_view(ds[i].0) == id(k));
            }
            if production_root_declares(p, t, id(k)) {
                let i = choose|i: int|
                    0 <= i < ds.len() && #[trigger] definition_identity_view(ds[i].0) == id(k) && ds[i].1 < p.len()
                        && (p + t)[ds[i].1].is_product_root;
                assert(in_production@[i] == (ds[i].1 < p.len()));
                assert(root@[i]);
            }
            if r.production_root@[c] {
                let i = choose|i: int| 0 <= i < nd && r.class@[i] == c && #[trigger] root@[i];
                assert(in_production@[i] == (ds[i].1 < p.len()));
                assert(definition_identity_view(ds[i].0) == id(k));
            }
            if test_binary_declares(p, t, id(k)) {
                let i = choose|i: int|
                    0 <= i < ds.len() && #[trigger] definition_identity_view(ds[i].0) == id(k) && ds[i].1 >= p.len()
                        && (p + t)[ds[i].1].is_product_root && !(p + t)[ds[i].1].test_surface;
                assert(in_production@[i] == (ds[i].1 < p.len()));
                assert(binary@[i]);
            }
            if r.test_binary@[c] {
                let i = choose|i: int| 0 <= i < nd && r.class@[i] == c && #[trigger] binary@[i];
                assert(in_production@[i] == (ds[i].1 < p.len()));
                assert(definition_identity_view(ds[i].0) == id(k));
            }
        }
    }
    r
}

} // verus!
