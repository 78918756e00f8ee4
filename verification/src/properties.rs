//! Properties that hold of every analysis.

use vstd::prelude::*;

use crate::model::{definition_identity_view, Definition, FindingKind, Fragment, IdentityView};
use crate::scope::ScopeView;
use crate::semantics::{
    all_defs, equivalent, first_public_candidate, first_restricted_candidate, gathered_scope, group_separate,
    judged_public, public_candidate, public_finding, public_findings, raw_findings, required_scope,
    restricted_candidate, restricted_findings, restricted_report, scope_step, source_identity,
    stable_order, stably_sorted, suppressed, unsuppressed, FindingView,
};
use crate::order::{lemma_stable_sort_filter, lemma_stable_sort_unique};
use crate::render::reported_combination;
use crate::text::holds;
use crate::walk::{is_str_walk, str_reaches, Step};

verus! {

proof fn lemma_reach_extend(step: Step, root: spec_fn(Seq<char>) -> bool, a: Seq<char>, b: Seq<char>)
    requires
        str_reaches(step, root, a),
        step(a, b),
    ensures
        str_reaches(step, root, b),
{
    let p = choose|p: Seq<Seq<char>>| #[trigger] is_str_walk(step, p) && root(p[0]) && p.last() == a;
    let q = p.push(b);
    assert forall|i: int| 0 <= i < q.len() - 1 implies #[trigger] step(q[i], q[i + 1]) by {
        if i < p.len() - 1 {
            assert(step(p[i], p[i + 1]));
        }
    }
    assert(is_str_walk(step, q) && root(q[0]) && q.last() == b);
}

proof fn lemma_gathered_equal(step: Step, seeds: Seq<(Seq<char>, ScopeView)>, a: Seq<char>, b: Seq<char>)
    requires
        step(a, b),
        step(b, a),
    ensures
        gathered_scope(step, seeds, a) == gathered_scope(step, seeds, b),
    decreases seeds.len(),
{
    if seeds.len() > 0 {
        lemma_gathered_equal(step, seeds.drop_last(), a, b);
        let root = |x: Seq<char>| x == seeds.last().0;
        if str_reaches(step, root, a) {
            lemma_reach_extend(step, root, a, b);
        }
        if str_reaches(step, root, b) {
            lemma_reach_extend(step, root, b, a);
        }
    }
}

/// Equivalent ids (copies of one source declaration compiled in distinct
/// units) require the same scope, so the scope a declaration requires
/// together with its equivalents is its own.
pub proof fn lemma_equivalent_scope(p: Seq<Fragment>, t: Seq<Fragment>, a: Seq<char>, b: Seq<char>)
    requires
        equivalent(p, t, a, b),
    ensures
        required_scope(p, t, a) == required_scope(p, t, b),
{
    assert(equivalent(p, t, b, a));
    lemma_gathered_equal(
        scope_step(p, t),
        crate::semantics::scope_seeds(p, t, crate::semantics::all_edges(p, t).len() as int),
        a,
        b,
    );
}

/// The identity of the declaration of a finding.
pub open spec fn finding_identity(f: FindingView) -> crate::model::IdentityView {
    definition_identity_view(f.1)
}

/// No two findings concern declarations with the same identity.
pub open spec fn identities_distinct(fs: Seq<FindingView>) -> bool {
    forall|i: int, j: int|
        0 <= i < j < fs.len() ==> finding_identity(#[trigger] fs[i]) != finding_identity(#[trigger] fs[j])
}

/// The finding concerns the definition of a public candidate among the first `n`.
pub open spec fn from_public_candidate(
    p: Seq<Fragment>,
    t: Seq<Fragment>,
    c: Seq<String>,
    x: Seq<String>,
    n: int,
    f: FindingView,
) -> bool {
    exists|k: int| 0 <= k < n && #[trigger] public_candidate(p, t, c, x, k) && f.1 == all_defs(p, t)[k].0
}

/// The finding concerns the definition of a restricted candidate among the first `n`.
pub open spec fn from_restricted_candidate(
    p: Seq<Fragment>,
    t: Seq<Fragment>,
    c: Seq<String>,
    x: Seq<String>,
    n: int,
    f: FindingView,
) -> bool {
    exists|k: int| 0 <= k < n && #[trigger] restricted_candidate(p, t, c, x, k) && f.1 == all_defs(p, t)[k].0
}

proof fn lemma_public_findings_origin(
    p: Seq<Fragment>,
    t: Seq<Fragment>,
    c: Seq<String>,
    x: Seq<String>,
    n: int,
)
    requires
        n <= all_defs(p, t).len(),
    ensures
        identities_distinct(public_findings(p, t, c, x, n)),
        forall|i: int|
            0 <= i < public_findings(p, t, c, x, n).len() ==> from_public_candidate(
                p,
                t,
                c,
                x,
                n,
                #[trigger] public_findings(p, t, c, x, n)[i],
            ),
    decreases n,
{
    if n > 0 {
        lemma_public_findings_origin(p, t, c, x, n - 1);
        let prev = public_findings(p, t, c, x, n - 1);
        let cur = public_findings(p, t, c, x, n);
        let k = n - 1;
        let d = all_defs(p, t)[k].0;
        assert forall|i: int| 0 <= i < prev.len() implies from_public_candidate(p, t, c, x, n, #[trigger] prev[i]) by {
            assert(from_public_candidate(p, t, c, x, n - 1, prev[i]));
            let j = choose|j: int| 0 <= j < n - 1 && #[trigger] public_candidate(p, t, c, x, j) && prev[i].1 == all_defs(p, t)[j].0;
            assert(public_candidate(p, t, c, x, j));
        }
        if first_public_candidate(p, t, c, x, k) && public_finding(p, t, d) is Some {
            let f = public_finding(p, t, d).unwrap();
            assert(cur == prev.push(f));
            assert forall|i: int| 0 <= i < prev.len() implies finding_identity(prev[i]) != finding_identity(f) by {
                assert(from_public_candidate(p, t, c, x, n - 1, prev[i]));
                let j = choose|j: int| 0 <= j < n - 1 && #[trigger] public_candidate(p, t, c, x, j) && prev[i].1 == all_defs(p, t)[j].0;
            }
            assert(public_candidate(p, t, c, x, k));
            assert(from_public_candidate(p, t, c, x, n, f));
            assert forall|i: int| 0 <= i < cur.len() implies from_public_candidate(p, t, c, x, n, #[trigger] cur[i]) by {
                if i < prev.len() {
                    assert(cur[i] == prev[i]);
                } else {
                    assert(cur[i] == f);
                }
            }
        } else {
            assert(cur =~= prev);
        }
    }
}

proof fn lemma_restricted_findings_origin(
    p: Seq<Fragment>,
    t: Seq<Fragment>,
    c: Seq<String>,
    x: Seq<String>,
    n: int,
)
    requires
        n <= all_defs(p, t).len(),
    ensures
        identities_distinct(restricted_findings(p, t, c, x, n)),
        forall|i: int|
            0 <= i < restricted_findings(p, t, c, x, n).len() ==> from_restricted_candidate(
                p,
                t,
                c,
                x,
                n,
                #[trigger] restricted_findings(p, t, c, x, n)[i],
            ),
    decreases n,
{
    if n > 0 {
        lemma_restricted_findings_origin(p, t, c, x, n - 1);
        let prev = restricted_findings(p, t, c, x, n - 1);
        let cur = restricted_findings(p, t, c, x, n);
        let k = n - 1;
        let d = all_defs(p, t)[k].0;
        assert forall|i: int| 0 <= i < prev.len() implies from_restricted_candidate(p, t, c, x, n, #[trigger] prev[i]) by {
            assert(from_restricted_candidate(p, t, c, x, n - 1, prev[i]));
            let j = choose|j: int| 0 <= j < n - 1 && #[trigger] restricted_candidate(p, t, c, x, j) && prev[i].1 == all_defs(p, t)[j].0;
            assert(restricted_candidate(p, t, c, x, j));
        }
        if first_restricted_candidate(p, t, c, x, k) {
            let f = restricted_report(p, t, d);
            assert(cur == prev.push(f));
            assert forall|i: int| 0 <= i < prev.len() implies finding_identity(prev[i]) != finding_identity(f) by {
                assert(from_restricted_candidate(p, t, c, x, n - 1, prev[i]));
                let j = choose|j: int| 0 <= j < n - 1 && #[trigger] restricted_candidate(p, t, c, x, j) && prev[i].1 == all_defs(p, t)[j].0;
            }
            assert(restricted_candidate(p, t, c, x, k));
            assert(from_restricted_candidate(p, t, c, x, n, f));
            assert forall|i: int| 0 <= i < cur.len() implies from_restricted_candidate(p, t, c, x, n, #[trigger] cur[i]) by {
                if i < prev.len() {
                    assert(cur[i] == prev[i]);
                } else {
                    assert(cur[i] == f);
                }
            }
        } else {
            assert(cur =~= prev);
        }
    }
}

proof fn lemma_unsuppressed_distinct(p: Seq<Fragment>, t: Seq<Fragment>, fs: Seq<FindingView>)
    requires
        identities_distinct(fs),
    ensures
        identities_distinct(unsuppressed(p, t, fs)),
        forall|i: int|
            0 <= i < unsuppressed(p, t, fs).len() ==> fs.contains(#[trigger] unsuppressed(p, t, fs)[i]),
    decreases fs.len(),
{
    if fs.len() > 0 {
        let init = fs.drop_last();
        assert(identities_distinct(init)) by {
            assert forall|i: int, j: int| 0 <= i < j < init.len() implies finding_identity(#[trigger] init[i])
                != finding_identity(#[trigger] init[j]) by {
                assert(init[i] == fs[i] && init[j] == fs[j]);
            }
        }
        lemma_unsuppressed_distinct(p, t, init);
        let u = unsuppressed(p, t, init);
        assert forall|i: int| 0 <= i < u.len() implies fs.contains(#[trigger] u[i]) by {
            let j = choose|j: int| 0 <= j < init.len() && init[j] == u[i];
            assert(fs[j] == u[i]);
        }
        if !suppressed(p, t, fs.last()) {
            let cur = unsuppressed(p, t, fs);
            assert(cur == u.push(fs.last()));
            assert forall|i: int| 0 <= i < u.len() implies finding_identity(u[i]) != finding_identity(fs.last()) by {
                let j = choose|j: int| 0 <= j < init.len() && init[j] == u[i];
                assert(fs[j] == init[j]);
            }
            assert forall|i: int| 0 <= i < cur.len() implies fs.contains(#[trigger] cur[i]) by {
                if i < u.len() {
                    assert(cur[i] == u[i]);
                } else {
                    assert(fs[fs.len() - 1] == cur[i]);
                }
            }
        } else {
            assert(unsuppressed(p, t, fs) =~= u);
        }
    }
}

/// Every reported declaration identity is reported once: no two findings of
/// an analysis concern declarations with the same identity.
pub proof fn lemma_one_finding_per_identity(
    p: Seq<Fragment>,
    t: Seq<Fragment>,
    candidate_crates: Seq<String>,
    excluded_crates: Seq<String>,
    preserve: bool,
    findings: Seq<FindingView>,
)
    requires
        stably_sorted(raw_findings(p, t, candidate_crates, excluded_crates, preserve), findings),
    ensures
        identities_distinct(findings),
{
    let c = candidate_crates;
    let x = excluded_crates;
    let n = all_defs(p, t).len() as int;
    let a = public_findings(p, t, c, x, n);
    let b = restricted_findings(p, t, c, x, n);
    lemma_public_findings_origin(p, t, c, x, n);
    lemma_restricted_findings_origin(p, t, c, x, n);
    let both = a + b;
    assert(identities_distinct(both)) by {
        assert forall|i: int, j: int| 0 <= i < j < both.len() implies finding_identity(#[trigger] both[i])
            != finding_identity(#[trigger] both[j]) by {
            if j < a.len() {
                assert(both[i] == a[i] && both[j] == a[j]);
            } else if i >= a.len() {
                assert(both[i] == b[i - a.len()] && both[j] == b[j - a.len()]);
            } else {
                assert(both[i] == a[i]);
                assert(both[j] == b[j - a.len()]);
                assert(from_public_candidate(p, t, c, x, n, a[i]));
                assert(from_restricted_candidate(p, t, c, x, n, b[j - a.len()]));
                let ki = choose|k: int| 0 <= k < n && #[trigger] public_candidate(p, t, c, x, k) && a[i].1 == all_defs(p, t)[k].0;
                let kj = choose|k: int|
                    0 <= k < n && #[trigger] restricted_candidate(p, t, c, x, k) && b[j - a.len()].1 == all_defs(p, t)[k].0;
                if finding_identity(a[i]) == finding_identity(b[j - a.len()]) {
                    assert(judged_public(p, t, c, x, definition_identity_view(all_defs(p, t)[kj].0)));
                }
            }
        }
    }
    let raw = raw_findings(p, t, c, x, preserve);
    if preserve {
        lemma_unsuppressed_distinct(p, t, both);
    }
    assert(identities_distinct(raw));
    let perm = choose|perm: Seq<int>| stable_order(raw, findings, perm);
    assert forall|i: int, j: int| 0 <= i < j < findings.len() implies finding_identity(#[trigger] findings[i])
        != finding_identity(#[trigger] findings[j]) by {
        assert(findings[i] == raw[perm[i]]);
        assert(findings[j] == raw[perm[j]]);
        assert(perm[i] != perm[j]);
        if perm[i] < perm[j] {
            assert(finding_identity(raw[perm[i]]) != finding_identity(raw[perm[j]]));
        } else {
            assert(finding_identity(raw[perm[j]]) != finding_identity(raw[perm[i]]));
        }
    }
}


/// The findings whose declaration lies outside crate `x`.
pub open spec fn outside_crate(fs: Seq<FindingView>, x: Seq<char>) -> Seq<FindingView> {
    fs.filter(|f: FindingView| f.1.crate_name@ != x)
}

/// Adding `x` to the excluded crates adds exactly the crate `x`.
proof fn lemma_holds_push(excl: Seq<String>, x: String, c: Seq<char>)
    ensures
        holds(excl.push(x), c) == (holds(excl, c) || c == x@),
{
    let xs = excl.push(x);
    if holds(xs, c) {
        let i = choose|i: int| 0 <= i < xs.len() && #[trigger] xs[i]@ == c;
        if i < excl.len() {
            assert(xs[i] == excl[i]);
            assert(excl[i]@ == c);
        }
    }
    if holds(excl, c) {
        let i = choose|i: int| 0 <= i < excl.len() && #[trigger] excl[i]@ == c;
        assert(xs[i] == excl[i]);
        assert(xs[i]@ == c);
    }
    if c == x@ {
        assert(xs[excl.len() as int] == x);
        assert(xs[excl.len() as int]@ == c);
    }
}

/// Excluding `x` as well makes a definition a public candidate exactly when
/// it was one and lies outside `x`.
proof fn lemma_public_candidate_push(p: Seq<Fragment>, t: Seq<Fragment>, c: Seq<String>, e: Seq<String>, x: String, k: int)
    ensures
        public_candidate(p, t, c, e.push(x), k) == (public_candidate(p, t, c, e, k) && all_defs(p, t)[k].0.crate_name@
            != x@),
{
    lemma_holds_push(e, x, all_defs(p, t)[k].0.crate_name@);
}

/// Whether the first pass judged an identity outside `x` does not depend on
/// excluding `x`.
proof fn lemma_judged_public_push(p: Seq<Fragment>, t: Seq<Fragment>, c: Seq<String>, e: Seq<String>, x: String, i: IdentityView)
    requires
        i.0 != x@,
    ensures
        judged_public(p, t, c, e.push(x), i) == judged_public(p, t, c, e, i),
{
    let xs = e.push(x);
    if judged_public(p, t, c, xs, i) {
        let j = choose|j: int|
            0 <= j < all_defs(p, t).len() && #[trigger] public_candidate(p, t, c, xs, j) && definition_identity_view(
                all_defs(p, t)[j].0,
            ) == i;
        lemma_public_candidate_push(p, t, c, e, x, j);
    }
    if judged_public(p, t, c, e, i) {
        let j = choose|j: int|
            0 <= j < all_defs(p, t).len() && #[trigger] public_candidate(p, t, c, e, j) && definition_identity_view(
                all_defs(p, t)[j].0,
            ) == i;
        lemma_public_candidate_push(p, t, c, e, x, j);
        assert(public_candidate(p, t, c, xs, j));
    }
}

/// Excluding `x` as well makes a definition a restricted candidate exactly
/// when it was one and lies outside `x`.
proof fn lemma_restricted_candidate_push(p: Seq<Fragment>, t: Seq<Fragment>, c: Seq<String>, e: Seq<String>, x: String, k: int)
    ensures
        restricted_candidate(p, t, c, e.push(x), k) == (restricted_candidate(p, t, c, e, k)
            && all_defs(p, t)[k].0.crate_name@ != x@),
{
    let d = all_defs(p, t)[k].0;
    lemma_holds_push(e, x, d.crate_name@);
    if d.crate_name@ != x@ {
        lemma_judged_public_push(p, t, c, e, x, definition_identity_view(d));
    }
}

/// Excluding `x` as well keeps the first public candidates outside `x`.
proof fn lemma_first_public_push(p: Seq<Fragment>, t: Seq<Fragment>, c: Seq<String>, e: Seq<String>, x: String, k: int)
    ensures
        first_public_candidate(p, t, c, e.push(x), k) == (first_public_candidate(p, t, c, e, k)
            && all_defs(p, t)[k].0.crate_name@ != x@),
{
    let xs = e.push(x);
    let dk = all_defs(p, t)[k].0;
    lemma_public_candidate_push(p, t, c, e, x, k);
    if first_public_candidate(p, t, c, xs, k) {
        assert forall|j: int| 0 <= j < k && #[trigger] public_candidate(p, t, c, e, j) implies definition_identity_view(
            all_defs(p, t)[j].0,
        ) != definition_identity_view(dk) by {
            lemma_public_candidate_push(p, t, c, e, x, j);
            if definition_identity_view(all_defs(p, t)[j].0) == definition_identity_view(dk) {
                assert(all_defs(p, t)[j].0.crate_name@ == dk.crate_name@);
                assert(public_candidate(p, t, c, xs, j));
            }
        }
    }
    if first_public_candidate(p, t, c, e, k) && dk.crate_name@ != x@ {
        assert forall|j: int| 0 <= j < k && #[trigger] public_candidate(p, t, c, xs, j) implies definition_identity_view(
            all_defs(p, t)[j].0,
        ) != definition_identity_view(dk) by {
            lemma_public_candidate_push(p, t, c, e, x, j);
        }
    }
}

/// Excluding `x` as well keeps the first restricted candidates outside `x`.
proof fn lemma_first_restricted_push(p: Seq<Fragment>, t: Seq<Fragment>, c: Seq<String>, e: Seq<String>, x: String, k: int)
    ensures
        first_restricted_candidate(p, t, c, e.push(x), k) == (first_restricted_candidate(p, t, c, e, k)
            && all_defs(p, t)[k].0.crate_name@ != x@),
{
    let xs = e.push(x);
    let dk = all_defs(p, t)[k].0;
    lemma_restricted_candidate_push(p, t, c, e, x, k);
    if first_restricted_candidate(p, t, c, xs, k) {
        assert forall|j: int| 0 <= j < k && #[trigger] restricted_candidate(p, t, c, e, j) implies definition_identity_view(
            all_defs(p, t)[j].0,
        ) != definition_identity_view(dk) by {
            lemma_restricted_candidate_push(p, t, c, e, x, j);
            if definition_identity_view(all_defs(p, t)[j].0) == definition_identity_view(dk) {
                assert(all_defs(p, t)[j].0.crate_name@ == dk.crate_name@);
                assert(restricted_candidate(p, t, c, xs, j));
            }
        }
    }
    if first_restricted_candidate(p, t, c, e, k) && dk.crate_name@ != x@ {
        assert forall|j: int| 0 <= j < k && #[trigger] restricted_candidate(p, t, c, xs, j) implies definition_identity_view(
            all_defs(p, t)[j].0,
        ) != definition_identity_view(dk) by {
            lemma_restricted_candidate_push(p, t, c, e, x, j);
        }
    }
}

/// Filtering a sequence of at most one finding.
proof fn lemma_outside_single(s: Seq<FindingView>, x: Seq<char>)
    requires
        s.len() <= 1,
    ensures
        outside_crate(s, x) == (if s.len() == 1 && s[0].1.crate_name@ != x {
            s
        } else {
            Seq::<FindingView>::empty()
        }),
{
    reveal_with_fuel(Seq::filter, 2);
    if s.len() == 1 {
        assert(s.drop_last() =~= Seq::<FindingView>::empty());
        assert(s.drop_last().filter(|f: FindingView| f.1.crate_name@ != x) =~= Seq::<FindingView>::empty());
        if s[0].1.crate_name@ != x {
            assert(Seq::<FindingView>::empty().push(s[0]) =~= s);
        }
    } else {
        assert(s =~= Seq::<FindingView>::empty());
    }
}

/// The first pass with `x` excluded as well reports its findings outside `x`.
proof fn lemma_public_findings_push(p: Seq<Fragment>, t: Seq<Fragment>, c: Seq<String>, e: Seq<String>, x: String, n: int)
    ensures
        public_findings(p, t, c, e.push(x), n) == outside_crate(public_findings(p, t, c, e, n), x@),
    decreases n,
{
    if n <= 0 {
        reveal(Seq::filter);
    } else {
        lemma_public_findings_push(p, t, c, e, x, n - 1);
        lemma_first_public_push(p, t, c, e, x, n - 1);
        let d = all_defs(p, t)[n - 1].0;
        let before = public_findings(p, t, c, e, n - 1);
        let step: Seq<FindingView> = if first_public_candidate(p, t, c, e, n - 1) {
            match public_finding(p, t, d) {
                Some(f) => seq![f],
                None => Seq::empty(),
            }
        } else {
            Seq::empty()
        };
        Seq::filter_distributes_over_add(before, step, |f: FindingView| f.1.crate_name@ != x@);
        lemma_outside_single(step, x@);
    }
}

/// The second pass with `x` excluded as well reports its findings outside
/// `x`.
proof fn lemma_restricted_findings_push(p: Seq<Fragment>, t: Seq<Fragment>, c: Seq<String>, e: Seq<String>, x: String, n: int)
    ensures
        restricted_findings(p, t, c, e.push(x), n) == outside_crate(restricted_findings(p, t, c, e, n), x@),
    decreases n,
{
    if n <= 0 {
        reveal(Seq::filter);
    } else {
        lemma_restricted_findings_push(p, t, c, e, x, n - 1);
        lemma_first_restricted_push(p, t, c, e, x, n - 1);
        let before = restricted_findings(p, t, c, e, n - 1);
        let step: Seq<FindingView> = if first_restricted_candidate(p, t, c, e, n - 1) {
            seq![restricted_report(p, t, all_defs(p, t)[n - 1].0)]
        } else {
            Seq::empty()
        };
        Seq::filter_distributes_over_add(before, step, |f: FindingView| f.1.crate_name@ != x@);
        lemma_outside_single(step, x@);
    }
}

/// Suppression and the filter by crate commute.
proof fn lemma_unsuppressed_outside(p: Seq<Fragment>, t: Seq<Fragment>, fs: Seq<FindingView>, x: Seq<char>)
    ensures
        unsuppressed(p, t, outside_crate(fs, x)) == outside_crate(unsuppressed(p, t, fs), x),
    decreases fs.len(),
{
    let pred = |f: FindingView| f.1.crate_name@ != x;
    if fs.len() == 0 {
        reveal(Seq::filter);
    } else {
        lemma_unsuppressed_outside(p, t, fs.drop_last(), x);
        let l = fs.last();
        let keep: Seq<FindingView> = if suppressed(p, t, l) {
            Seq::empty()
        } else {
            seq![l]
        };
        Seq::filter_distributes_over_add(unsuppressed(p, t, fs.drop_last()), keep, pred);
        lemma_outside_single(keep, x);
        let sub = outside_crate(fs.drop_last(), x);
        assert(outside_crate(fs, x) == if pred(l) {
            sub.push(l)
        } else {
            sub
        }) by {
            reveal(Seq::filter);
        }
        if pred(l) {
            let pushed = sub.push(l);
            assert(pushed.drop_last() =~= sub);
            assert(pushed.last() == l);
        }
    }
}

/// Excluding a crate does not change reachability, nor the finding of any
/// declaration outside it: the analysis with crate `x` excluded as well
/// reports exactly the findings of the analysis without that exclusion whose
/// declaration lies outside `x`.
pub proof fn lemma_exclusion_only_filters(
    p: Seq<Fragment>,
    t: Seq<Fragment>,
    candidate_crates: Seq<String>,
    excluded_crates: Seq<String>,
    x: String,
    preserve: bool,
)
    ensures
        raw_findings(p, t, candidate_crates, excluded_crates.push(x), preserve) == outside_crate(
            raw_findings(p, t, candidate_crates, excluded_crates, preserve),
            x@,
        ),
{
    let c = candidate_crates;
    let e = excluded_crates;
    let n = all_defs(p, t).len() as int;
    lemma_public_findings_push(p, t, c, e, x, n);
    lemma_restricted_findings_push(p, t, c, e, x, n);
    let both = public_findings(p, t, c, e, n) + restricted_findings(p, t, c, e, n);
    Seq::filter_distributes_over_add(
        public_findings(p, t, c, e, n),
        restricted_findings(p, t, c, e, n),
        |f: FindingView| f.1.crate_name@ != x@,
    );
    if preserve {
        lemma_unsuppressed_outside(p, t, both, x@);
    }
}


/// Every finding can be reported: its kind suits its declaration's kind.
pub open spec fn all_reportable(fs: Seq<FindingView>) -> bool {
    forall|i: int| 0 <= i < fs.len() ==> reported_combination((#[trigger] fs[i]).0, fs[i].1.kind)
}

/// The first pass only reports what suits the declaration.
proof fn lemma_public_reportable(p: Seq<Fragment>, t: Seq<Fragment>, c: Seq<String>, e: Seq<String>, n: int)
    ensures
        all_reportable(public_findings(p, t, c, e, n)),
    decreases n,
{
    if n > 0 {
        lemma_public_reportable(p, t, c, e, n - 1);
        let before = public_findings(p, t, c, e, n - 1);
        let all = public_findings(p, t, c, e, n);
        assert forall|i: int| 0 <= i < all.len() implies reported_combination((#[trigger] all[i]).0, all[i].1.kind) by {
            if i < before.len() {
                assert(all[i] == before[i]);
            }
        }
    }
}

/// The second pass only reports what suits the declaration.
proof fn lemma_restricted_reportable(p: Seq<Fragment>, t: Seq<Fragment>, c: Seq<String>, e: Seq<String>, n: int)
    ensures
        all_reportable(restricted_findings(p, t, c, e, n)),
    decreases n,
{
    if n > 0 {
        lemma_restricted_reportable(p, t, c, e, n - 1);
        let before = restricted_findings(p, t, c, e, n - 1);
        let all = restricted_findings(p, t, c, e, n);
        assert forall|i: int| 0 <= i < all.len() implies reported_combination((#[trigger] all[i]).0, all[i].1.kind) by {
            if i < before.len() {
                assert(all[i] == before[i]);
            } else {
                assert(restricted_candidate(p, t, c, e, n - 1));
            }
        }
    }
}

/// Suppression keeps findings that can be reported reportable.
proof fn lemma_unsuppressed_reportable(p: Seq<Fragment>, t: Seq<Fragment>, fs: Seq<FindingView>)
    requires
        all_reportable(fs),
    ensures
        all_reportable(unsuppressed(p, t, fs)),
    decreases fs.len(),
{
    if fs.len() > 0 {
        assert(all_reportable(fs.drop_last())) by {
            assert forall|i: int| 0 <= i < fs.drop_last().len() implies reported_combination(
                (#[trigger] fs.drop_last()[i]).0,
                fs.drop_last()[i].1.kind,
            ) by {
                assert(fs.drop_last()[i] == fs[i]);
            }
        }
        lemma_unsuppressed_reportable(p, t, fs.drop_last());
        let before = unsuppressed(p, t, fs.drop_last());
        let all = unsuppressed(p, t, fs);
        assert forall|i: int| 0 <= i < all.len() implies reported_combination((#[trigger] all[i]).0, all[i].1.kind) by {
            if i < before.len() {
                assert(all[i] == before[i]);
            } else {
                assert(all[i] == fs.last());
                assert(fs[fs.len() - 1] == fs.last());
            }
        }
    }
}

/// The analysis never reports a reachable enum variant as unnecessarily
/// public, and never proposes restricted narrowing for an enum variant or a
/// re-export: every finding, in the order reported, has a kind that suits its
/// declaration.
pub proof fn lemma_findings_suit_their_declarations(
    p: Seq<Fragment>,
    t: Seq<Fragment>,
    candidate_crates: Seq<String>,
    excluded_crates: Seq<String>,
    preserve: bool,
    findings: Seq<FindingView>,
)
    requires
        stably_sorted(raw_findings(p, t, candidate_crates, excluded_crates, preserve), findings),
    ensures
        all_reportable(findings),
{
    let c = candidate_crates;
    let e = excluded_crates;
    let n = all_defs(p, t).len() as int;
    let a = public_findings(p, t, c, e, n);
    let b = restricted_findings(p, t, c, e, n);
    lemma_public_reportable(p, t, c, e, n);
    lemma_restricted_reportable(p, t, c, e, n);
    let both = a + b;
    assert(all_reportable(both)) by {
        assert forall|i: int| 0 <= i < both.len() implies reported_combination((#[trigger] both[i]).0, both[i].1.kind) by {
            if i < a.len() {
                assert(both[i] == a[i]);
            } else {
                assert(both[i] == b[i - a.len()]);
            }
        }
    }
    if preserve {
        lemma_unsuppressed_reportable(p, t, both);
    }
    let raw = raw_findings(p, t, c, e, preserve);
    let perm = choose|perm: Seq<int>| stable_order(raw, findings, perm);
    assert forall|i: int| 0 <= i < findings.len() implies reported_combination(
        (#[trigger] findings[i]).0,
        findings[i].1.kind,
    ) by {
        assert(findings[i] == raw[perm[i]]);
    }
}

/// The dead public findings of a sequence of findings.
pub open spec fn dead_findings(fs: Seq<FindingView>) -> Seq<FindingView> {
    fs.filter(|f: FindingView| f.0 == FindingKind::DeadPublic)
}

/// Suppression by uniform field groups keeps every dead public finding.
proof fn lemma_unsuppressed_dead(p: Seq<Fragment>, t: Seq<Fragment>, fs: Seq<FindingView>)
    ensures
        dead_findings(unsuppressed(p, t, fs)) == dead_findings(fs),
    decreases fs.len(),
{
    let dead = |f: FindingView| f.0 == FindingKind::DeadPublic;
    reveal_with_fuel(Seq::filter, 2);
    if fs.len() > 0 {
        lemma_unsuppressed_dead(p, t, fs.drop_last());
        let l = fs.last();
        let keep: Seq<FindingView> = if suppressed(p, t, l) {
            Seq::empty()
        } else {
            seq![l]
        };
        Seq::filter_distributes_over_add(unsuppressed(p, t, fs.drop_last()), keep, dead);
        if keep.len() == 1 {
            assert(keep.drop_last() =~= Seq::<FindingView>::empty());
            if dead(l) {
                assert(Seq::<FindingView>::empty().push(l) =~= keep);
            }
        }
    }
}

/// Preserving uniform field visibility never hides a dead public
/// declaration: the findings that the analysis orders for its report hold
/// the same dead public findings, in the same sequence, with and without that
/// option.
pub proof fn lemma_uniform_fields_keep_dead_findings(
    p: Seq<Fragment>,
    t: Seq<Fragment>,
    candidate_crates: Seq<String>,
    excluded_crates: Seq<String>,
)
    ensures
        dead_findings(raw_findings(p, t, candidate_crates, excluded_crates, true)) == dead_findings(
            raw_findings(p, t, candidate_crates, excluded_crates, false),
        ),
{
    let n = all_defs(p, t).len() as int;
    let both = public_findings(p, t, candidate_crates, excluded_crates, n) + restricted_findings(
        p,
        t,
        candidate_crates,
        excluded_crates,
        n,
    );
    lemma_unsuppressed_dead(p, t, both);
}


/// The report of an analysis is determined by its inputs: two orders that
/// both stably sort the same analysis's findings are the same sequence. In
/// particular `analyze` reports what `analyze_with_options` reports without
/// preserving uniform field visibility.
pub proof fn lemma_analysis_is_determined(
    p: Seq<Fragment>,
    t: Seq<Fragment>,
    candidate_crates: Seq<String>,
    excluded_crates: Seq<String>,
    preserve: bool,
    a: Seq<FindingView>,
    b: Seq<FindingView>,
)
    requires
        stably_sorted(raw_findings(p, t, candidate_crates, excluded_crates, preserve), a),
        stably_sorted(raw_findings(p, t, candidate_crates, excluded_crates, preserve), b),
    ensures
        a == b,
{
    lemma_stable_sort_unique(raw_findings(p, t, candidate_crates, excluded_crates, preserve), a, b);
}

/// Excluding a crate drops only its own findings from the report: the report
/// with crate `x` excluded as well is the report without that exclusion, less
/// the findings whose declaration lies in `x`, in the same order.
pub proof fn lemma_exclusion_only_filters_report(
    p: Seq<Fragment>,
    t: Seq<Fragment>,
    candidate_crates: Seq<String>,
    excluded_crates: Seq<String>,
    x: String,
    preserve: bool,
    all: Seq<FindingView>,
    kept: Seq<FindingView>,
)
    requires
        stably_sorted(raw_findings(p, t, candidate_crates, excluded_crates, preserve), all),
        stably_sorted(raw_findings(p, t, candidate_crates, excluded_crates.push(x), preserve), kept),
    ensures
        kept == outside_crate(all, x@),
{
    let raw = raw_findings(p, t, candidate_crates, excluded_crates, preserve);
    lemma_exclusion_only_filters(p, t, candidate_crates, excluded_crates, x, preserve);
    lemma_stable_sort_filter(raw, all, |f: FindingView| f.1.crate_name@ != x@);
    lemma_stable_sort_unique(outside_crate(raw, x@), kept, outside_crate(all, x@));
}

/// Suppression keeps exactly the findings that are not suppressed.
proof fn lemma_unsuppressed_filter(p: Seq<Fragment>, t: Seq<Fragment>, fs: Seq<FindingView>)
    ensures
        unsuppressed(p, t, fs) == fs.filter(|f: FindingView| !suppressed(p, t, f)),
    decreases fs.len(),
{
    reveal(Seq::filter);
    if fs.len() > 0 {
        lemma_unsuppressed_filter(p, t, fs.drop_last());
        let before = unsuppressed(p, t, fs.drop_last());
        if !suppressed(p, t, fs.last()) {
            assert(before + seq![fs.last()] =~= before.push(fs.last()));
        } else {
            assert(before + Seq::<FindingView>::empty() =~= before);
        }
    }
}

/// Preserving uniform field visibility only omits findings: the report with
/// that option is the report without it, less the findings that a uniform
/// field group protects, in the same order. A dead public finding is never
/// so omitted.
pub proof fn lemma_uniform_fields_only_filter_report(
    p: Seq<Fragment>,
    t: Seq<Fragment>,
    candidate_crates: Seq<String>,
    excluded_crates: Seq<String>,
    on: Seq<FindingView>,
    off: Seq<FindingView>,
)
    requires
        stably_sorted(raw_findings(p, t, candidate_crates, excluded_crates, true), on),
        stably_sorted(raw_findings(p, t, candidate_crates, excluded_crates, false), off),
    ensures
        on == off.filter(|f: FindingView| !suppressed(p, t, f)),
        dead_findings(on) == dead_findings(off),
{
    let off_raw = raw_findings(p, t, candidate_crates, excluded_crates, false);
    let on_raw = raw_findings(p, t, candidate_crates, excluded_crates, true);
    lemma_unsuppressed_filter(p, t, off_raw);
    assert(on_raw == off_raw.filter(|f: FindingView| !suppressed(p, t, f)));
    lemma_stable_sort_filter(off_raw, off, |f: FindingView| !suppressed(p, t, f));
    lemma_stable_sort_unique(on_raw, on, off.filter(|f: FindingView| !suppressed(p, t, f)));
    lemma_uniform_fields_keep_dead_findings(p, t, candidate_crates, excluded_crates);
    lemma_stable_sort_filter(on_raw, on, |f: FindingView| f.0 == FindingKind::DeadPublic);
    lemma_stable_sort_filter(off_raw, off, |f: FindingView| f.0 == FindingKind::DeadPublic);
    lemma_stable_sort_unique(dead_findings(on_raw), dead_findings(on), dead_findings(off));
}

} // verus!
