//! The order in which findings are reported.

use vstd::prelude::*;
use vstd::string::StringSliceAdditionalSpecFns;

use crate::model::{Finding, FindingKind};
use crate::report::{finding_view, finding_views};
use crate::semantics::{bytes_lt, key_lt, sort_key, stable_order, stably_sorted, FindingView, SortKey};

verus! {

/// Byte order is a strict total order.
pub proof fn lemma_bytes_order(a: Seq<u8>, b: Seq<u8>, c: Seq<u8>)
    ensures
        !bytes_lt(a, a),
        bytes_lt(a, b) ==> !bytes_lt(b, a),
        a != b ==> bytes_lt(a, b) || bytes_lt(b, a),
        bytes_lt(a, b) && bytes_lt(b, c) ==> bytes_lt(a, c),
    decreases a.len(),
{
    if a.len() > 0 && b.len() > 0 && c.len() > 0 {
        lemma_bytes_order(a.drop_first(), b.drop_first(), c.drop_first());
    }
    if a.len() > 0 && b.len() > 0 {
        lemma_bytes_order(a.drop_first(), b.drop_first(), b.drop_first());
        if a[0] == b[0] && a.drop_first() == b.drop_first() {
            assert forall|i: int| 0 <= i < a.len() implies a[i] == b[i] by {
                if i > 0 {
                    assert(a[i] == a.drop_first()[i - 1]);
                    assert(b[i] == b.drop_first()[i - 1]);
                }
            }
            assert(a =~= b);
        }
    }
    if a.len() > 0 {
        lemma_bytes_order(a.drop_first(), a.drop_first(), a.drop_first());
    }
    if a.len() == 0 && b.len() == 0 {
        assert(a =~= b);
    }
}

/// The order of keys is a strict total order.
pub proof fn lemma_key_order(a: SortKey, b: SortKey, c: SortKey)
    ensures
        !key_lt(a, a),
        key_lt(a, b) ==> !key_lt(b, a),
        a != b ==> key_lt(a, b) || key_lt(b, a),
        key_lt(a, b) && key_lt(b, c) ==> key_lt(a, c),
{
    lemma_bytes_order(a.0, b.0, c.0);
    lemma_bytes_order(b.0, a.0, c.0);
    lemma_bytes_order(a.3, b.3, c.3);
    lemma_bytes_order(b.3, a.3, c.3);
    lemma_bytes_order(a.4, b.4, c.4);
    lemma_bytes_order(b.4, a.4, c.4);
}

/// A sequence of distinct positions below its length holds every such
/// position.
proof fn lemma_positions_cover(perm: Seq<int>, v: int)
    requires
        forall|i: int| 0 <= i < perm.len() ==> 0 <= #[trigger] perm[i] < perm.len(),
        forall|i: int, j: int| 0 <= i < j < perm.len() ==> #[trigger] perm[i] != #[trigger] perm[j],
        0 <= v < perm.len(),
    ensures
        exists|i: int| 0 <= i < perm.len() && perm[i] == v,
{
    let n = perm.len() as int;
    assert(perm.no_duplicates()) by {
        assert forall|i: int, j: int| 0 <= i < n && 0 <= j < n && i != j implies perm[i] != perm[j] by {
            if i < j {
                assert(perm[i] != perm[j]);
            } else {
                assert(perm[j] != perm[i]);
            }
        }
    }
    perm.unique_seq_to_set();
    let range = vstd::set_lib::set_int_range(0, n);
    vstd::set_lib::lemma_int_range(0, n);
    assert(perm.to_set().subset_of(range)) by {
        assert forall|a: int| perm.to_set().contains(a) implies range.contains(a) by {
            assert(perm.contains(a));
            let i = choose|i: int| 0 <= i < n && perm[i] == a;
            assert(0 <= perm[i] < n);
        }
    }
    vstd::set_lib::lemma_len_subset(perm.to_set(), range);
    vstd::set_lib::lemma_subset_equality(perm.to_set(), range);
    assert(range.contains(v));
    assert(perm.to_set().contains(v));
    assert(perm.contains(v));
}

/// Two stable orders of one input agree at each position.
proof fn lemma_stable_orders_agree(
    input: Seq<FindingView>,
    a: Seq<FindingView>,
    b: Seq<FindingView>,
    pa: Seq<int>,
    pb: Seq<int>,
    m: int,
)
    requires
        stable_order(input, a, pa),
        stable_order(input, b, pb),
        0 <= m < input.len(),
    ensures
        pa[m] == pb[m],
    decreases m,
{
    assert forall|j: int| 0 <= j < m implies pa[j] == pb[j] by {
        lemma_stable_orders_agree(input, a, b, pa, pb, j);
    }
    if pa[m] != pb[m] {
        let x = pa[m];
        let y = pb[m];
        lemma_positions_cover(pb, x);
        lemma_positions_cover(pa, y);
        let mb = choose|i: int| 0 <= i < pb.len() && pb[i] == x;
        let ma = choose|i: int| 0 <= i < pa.len() && pa[i] == y;
        if mb < m {
            assert(pa[mb] == x);
            assert(pa[mb] != pa[m]);
        }
        if ma < m {
            assert(pb[ma] == y);
            assert(pb[ma] != pb[m]);
        }
        assert(m < ma && m < mb);
        let kx = sort_key(input[x]);
        let ky = sort_key(input[y]);
        assert(a[m] == input[x] && a[ma] == input[y]);
        assert(b[m] == input[y] && b[mb] == input[x]);
        assert(!key_lt(sort_key(a[ma]), sort_key(a[m])));
        assert(!key_lt(sort_key(b[mb]), sort_key(b[m])));
        lemma_key_order(kx, ky, kx);
        assert(kx == ky);
        assert(pa[m] < pa[ma]);
        assert(pb[m] < pb[mb]);
    }
}

/// A stable sort is unique: two stably sorted orders of one input are the
/// same sequence.
pub proof fn lemma_stable_sort_unique(input: Seq<FindingView>, a: Seq<FindingView>, b: Seq<FindingView>)
    requires
        stably_sorted(input, a),
        stably_sorted(input, b),
    ensures
        a == b,
{
    let pa = choose|p: Seq<int>| stable_order(input, a, p);
    let pb = choose|p: Seq<int>| stable_order(input, b, p);
    assert forall|m: int| 0 <= m < a.len() implies a[m] == b[m] by {
        lemma_stable_orders_agree(input, a, b, pa, pb, m);
    }
    assert(a =~= b);
}

/// How many items before position `k` of `s` satisfy `pred`.
pub open spec fn rank_before(s: Seq<FindingView>, pred: spec_fn(FindingView) -> bool, k: int) -> int {
    s.take(k).filter(pred).len() as int
}

/// The filter of `s` splits at position `k` into the filter of the items
/// before `k` and the filter of the rest.
proof fn lemma_filter_split(s: Seq<FindingView>, pred: spec_fn(FindingView) -> bool, k: int)
    requires
        0 <= k <= s.len(),
    ensures
        s.filter(pred) == s.take(k).filter(pred) + s.skip(k).filter(pred),
{
    assert(s.take(k) + s.skip(k) =~= s);
    Seq::filter_distributes_over_add(s.take(k), s.skip(k), pred);
}

/// An item that satisfies `pred` sits in the filter at its rank.
proof fn lemma_rank_position(s: Seq<FindingView>, pred: spec_fn(FindingView) -> bool, k: int)
    requires
        0 <= k < s.len(),
        pred(s[k]),
    ensures
        0 <= rank_before(s, pred, k) < s.filter(pred).len(),
        s.filter(pred)[rank_before(s, pred, k)] == s[k],
        rank_before(s, pred, k + 1) == rank_before(s, pred, k) + 1,
{
    lemma_filter_split(s, pred, k);
    let rest = s.skip(k);
    assert(seq![s[k]] + rest.skip(1) =~= rest);
    Seq::filter_distributes_over_add(seq![s[k]], rest.skip(1), pred);
    reveal_with_fuel(Seq::filter, 2);
    assert(seq![s[k]].drop_last() =~= Seq::<FindingView>::empty());
    assert(seq![s[k]].filter(pred) =~= seq![s[k]]);
    lemma_filter_split(s, pred, k + 1);
    assert(s.take(k + 1) =~= s.take(k) + seq![s[k]]);
    Seq::filter_distributes_over_add(s.take(k), seq![s[k]], pred);
}

/// Ranks grow with position past an item that satisfies `pred`.
proof fn lemma_rank_grows(s: Seq<FindingView>, pred: spec_fn(FindingView) -> bool, k1: int, k2: int)
    requires
        0 <= k1 < k2 <= s.len(),
        pred(s[k1]),
    ensures
        rank_before(s, pred, k1) < rank_before(s, pred, k2),
{
    lemma_rank_position(s, pred, k1);
    let a = s.take(k1 + 1);
    let b = s.take(k2).skip(k1 + 1);
    assert(a + b =~= s.take(k2));
    Seq::filter_distributes_over_add(a, b, pred);
}

/// Every position of the filter is the rank of an item that satisfies
/// `pred`.
proof fn lemma_rank_onto(s: Seq<FindingView>, pred: spec_fn(FindingView) -> bool, i: int)
    requires
        0 <= i < s.filter(pred).len(),
    ensures
        exists|k: int| 0 <= k < s.len() && pred(s[k]) && rank_before(s, pred, k) == i,
    decreases s.len(),
{
    reveal(Seq::filter);
    let init = s.drop_last();
    if i < init.filter(pred).len() {
        lemma_rank_onto(init, pred, i);
        let k = choose|k: int| 0 <= k < init.len() && pred(init[k]) && rank_before(init, pred, k) == i;
        assert(init.take(k) =~= s.take(k));
        assert(pred(s[k]) && rank_before(s, pred, k) == i);
    } else {
        let k = s.len() - 1;
        assert(s.take(k) =~= init);
        assert(pred(s.last()));
        assert(pred(s[k]) && rank_before(s, pred, k) == i);
    }
}

/// A sequence of distinct positions below `n` is no longer than `n`.
proof fn lemma_distinct_positions_bound(f: Seq<int>, n: int)
    requires
        0 <= n,
        forall|i: int| 0 <= i < f.len() ==> 0 <= #[trigger] f[i] < n,
        forall|i: int, j: int| 0 <= i < j < f.len() ==> #[trigger] f[i] != #[trigger] f[j],
    ensures
        f.len() <= n,
{
    assert(f.no_duplicates()) by {
        assert forall|i: int, j: int| 0 <= i < f.len() && 0 <= j < f.len() && i != j implies f[i] != f[j] by {
            if i < j {
                assert(f[i] != f[j]);
            } else {
                assert(f[j] != f[i]);
            }
        }
    }
    f.unique_seq_to_set();
    let range = vstd::set_lib::set_int_range(0, n);
    vstd::set_lib::lemma_int_range(0, n);
    assert(f.to_set().subset_of(range)) by {
        assert forall|a: int| f.to_set().contains(a) implies range.contains(a) by {
            assert(f.contains(a));
            let i = choose|i: int| 0 <= i < f.len() && f[i] == a;
            assert(0 <= f[i] < n);
        }
    }
    vstd::set_lib::lemma_len_subset(f.to_set(), range);
}

/// Filtering a stably sorted order keeps it a stable order of the filtered
/// input.
pub proof fn lemma_stable_sort_filter(
    input: Seq<FindingView>,
    output: Seq<FindingView>,
    pred: spec_fn(FindingView) -> bool,
)
    requires
        stably_sorted(input, output),
    ensures
        stably_sorted(input.filter(pred), output.filter(pred)),
{
    let perm = choose|p: Seq<int>| stable_order(input, output, p);
    let fi = input.filter(pred);
    let fo = output.filter(pred);
    let sel = |i: int| choose|k: int| 0 <= k < output.len() && pred(output[k]) && rank_before(output, pred, k) == i;
    assert forall|i: int| 0 <= i < fo.len() implies {
        let k = #[trigger] sel(i);
        0 <= k < output.len() && pred(output[k]) && rank_before(output, pred, k) == i
    } by {
        lemma_rank_onto(output, pred, i);
    }
    let np = Seq::new(fo.len(), |i: int| rank_before(input, pred, perm[sel(i)]));
    // Where each filtered output item comes from.
    assert forall|i: int| 0 <= i < fo.len() implies 0 <= #[trigger] np[i] < fi.len() && fo[i] == fi[np[i]] by {
        let k = sel(i);
        assert(output[k] == input[perm[k]]);
        lemma_rank_position(output, pred, k);
        lemma_rank_position(input, pred, perm[k]);
    }
    // Selected positions follow the order of the filter.
    assert forall|i: int, j: int| 0 <= i < j < fo.len() implies #[trigger] sel(i) < #[trigger] sel(j) by {
        if sel(j) < sel(i) {
            lemma_rank_grows(output, pred, sel(j), sel(i));
        }
    }
    assert forall|i: int, j: int| 0 <= i < j < fo.len() implies #[trigger] np[i] != #[trigger] np[j] by {
        let a = perm[sel(i)];
        let b = perm[sel(j)];
        assert(a != b);
        assert(output[sel(i)] == input[a]);
        assert(output[sel(j)] == input[b]);
        if a < b {
            lemma_rank_grows(input, pred, a, b);
        } else {
            lemma_rank_grows(input, pred, b, a);
        }
    }
    assert forall|i: int, j: int| 0 <= i < j < fo.len() implies !key_lt(sort_key(#[trigger] fo[j]), sort_key(#[trigger] fo[i])) by {
        lemma_rank_position(output, pred, sel(i));
        lemma_rank_position(output, pred, sel(j));
    }
    assert forall|i: int, j: int|
        0 <= i < j < fo.len() && sort_key(#[trigger] fo[i]) == sort_key(#[trigger] fo[j]) implies np[i] < np[j] by {
        let a = perm[sel(i)];
        let b = perm[sel(j)];
        lemma_rank_position(output, pred, sel(i));
        lemma_rank_position(output, pred, sel(j));
        assert(output[sel(i)] == input[a]);
        assert(a < b);
        lemma_rank_grows(input, pred, a, b);
    }
    // As long as the filtered input: the inverse maps its items injectively back.
    lemma_distinct_positions_bound(np, fi.len() as int);
    let inv = |k: int| choose|i: int| 0 <= i < perm.len() && perm[i] == k;
    let isel = |j: int| choose|k: int| 0 <= k < input.len() && pred(input[k]) && rank_before(input, pred, k) == j;
    assert forall|j: int| 0 <= j < fi.len() implies {
        let k = #[trigger] isel(j);
        0 <= k < input.len() && pred(input[k]) && rank_before(input, pred, k) == j
    } by {
        lemma_rank_onto(input, pred, j);
    }
    assert forall|k: int| 0 <= k < input.len() implies {
        let i = #[trigger] inv(k);
        0 <= i < perm.len() && perm[i] == k
    } by {
        lemma_positions_cover(perm, k);
    }
    let back = Seq::new(fi.len(), |j: int| rank_before(output, pred, inv(isel(j))));
    assert forall|j: int| 0 <= j < fi.len() implies 0 <= #[trigger] back[j] < fo.len() by {
        let i = inv(isel(j));
        assert(output[i] == input[perm[i]]);
        lemma_rank_position(output, pred, i);
    }
    assert forall|j: int, l: int| 0 <= j < l < fi.len() implies #[trigger] back[j] != #[trigger] back[l] by {
        let a = isel(j);
        let b = isel(l);
        if a == b {
            assert(j == l);
        }
        let ia = inv(a);
        let ib = inv(b);
        assert(ia != ib);
        assert(output[ia] == input[a]);
        assert(output[ib] == input[b]);
        if ia < ib {
            lemma_rank_grows(output, pred, ia, ib);
        } else {
            lemma_rank_grows(output, pred, ib, ia);
        }
    }
    lemma_distinct_positions_bound(back, fo.len() as int);
    assert(stable_order(fi, fo, np));
}

/// Whether `a` comes strictly before `b` in byte order.
pub fn bytes_less(a: &[u8], b: &[u8]) -> (r: bool)
    ensures
        r == bytes_lt(a@, b@),
{
    let mut i: usize = 0;
    proof {
        assert(a@.skip(0) =~= a@);
        assert(b@.skip(0) =~= b@);
    }
    while i < a.len() && i < b.len() && a[i] == b[i]
        invariant
            i <= a@.len(),
            i <= b@.len(),
            forall|j: int| 0 <= j < i ==> a@[j] == b@[j],
            bytes_lt(a@, b@) == bytes_lt(a@.skip(i as int), b@.skip(i as int)),
        decreases a@.len() - i,
    {
        proof {
            let x = a@.skip(i as int);
            let y = b@.skip(i as int);
            assert(x.drop_first() =~= a@.skip(i + 1));
            assert(y.drop_first() =~= b@.skip(i + 1));
        }
        i = i + 1;
    }
    proof {
        let x = a@.skip(i as int);
        let y = b@.skip(i as int);
        if i < a.len() && i < b.len() {
            assert(x[0] == a@[i as int]);
            assert(y[0] == b@[i as int]);
        }
    }
    if i == b.len() {
        false
    } else if i == a.len() {
        true
    } else {
        a[i] < b[i]
    }
}

/// The order key of a finding, computed.
fn key_less(x: &Finding, y: &Finding) -> (r: bool)
    ensures
        r == key_lt(sort_key(finding_view(*x)), sort_key(finding_view(*y))),
{
    let dx = x.definition;
    let dy = y.definition;
    let fx: &[u8] = match &dx.span {
        Some(s) => s.file.as_str().as_bytes(),
        None => "".as_bytes(),
    };
    let fy: &[u8] = match &dy.span {
        Some(s) => s.file.as_str().as_bytes(),
        None => "".as_bytes(),
    };
    proof {
        reveal_strlit("");
        assert(""@ =~= Seq::<char>::empty());
        assert(vstd::utf8::encode_utf8(Seq::<char>::empty()) =~= Seq::<u8>::empty());
    }
    let lx: usize = match &dx.span {
        Some(s) => s.line,
        None => 0,
    };
    let ly: usize = match &dy.span {
        Some(s) => s.line,
        None => 0,
    };
    let cx: usize = match &dx.span {
        Some(s) => s.column,
        None => 0,
    };
    let cy: usize = match &dy.span {
        Some(s) => s.column,
        None => 0,
    };
    let ghost kx = sort_key(finding_view(*x));
    let ghost ky = sort_key(finding_view(*y));
    if bytes_less(fx, fy) {
        return true;
    }
    if bytes_less(fy, fx) {
        return false;
    }
    proof {
        lemma_bytes_order(fx@, fy@, fy@);
    }
    if lx != ly {
        return lx < ly;
    }
    if cx != cy {
        return cx < cy;
    }
    let ax = dx.crate_name.as_str().as_bytes();
    let ay = dy.crate_name.as_str().as_bytes();
    if bytes_less(ax, ay) {
        return true;
    }
    if bytes_less(ay, ax) {
        return false;
    }
    proof {
        lemma_bytes_order(ax@, ay@, ay@);
    }
    let nx = dx.name.as_str().as_bytes();
    let ny = dy.name.as_str().as_bytes();
    if bytes_less(nx, ny) {
        return true;
    }
    if bytes_less(ny, nx) {
        return false;
    }
    proof {
        lemma_bytes_order(nx@, ny@, ny@);
    }
    let rx = dx.kind.rank();
    let ry = dy.kind.rank();
    if rx != ry {
        return rx < ry;
    }
    finding_rank(x.kind) < finding_rank(y.kind)
}

/// The position of a finding kind in declaration order.
fn finding_rank(k: FindingKind) -> (r: u8)
    ensures
        r as nat == crate::model::finding_kind_rank(k),
{
    match k {
        FindingKind::DeadPublic => 0,
        FindingKind::UnnecessaryPublic => 1,
        FindingKind::UnnecessaryRestrictedVisibility => 2,
        FindingKind::UnnecessaryCrateVisibility => 3,
    }
}

/// A copy of a finding.
fn copy_finding<'a>(f: &Finding<'a>) -> (r: Finding<'a>)
    ensures
        finding_view(r) == finding_view(*f),
{
    Finding {
        kind: f.kind,
        definition: f.definition,
        test_only: f.test_only,
        test_compiled_only: f.test_compiled_only,
    }
}

proof fn lemma_insert_at(s: Seq<usize>, q: int, a: usize, z: int)
    requires
        0 <= q <= s.len(),
        0 <= z <= s.len(),
    ensures
        s.insert(q, a).len() == s.len() + 1,
        s.insert(q, a)[z] == if z < q {
            s[z]
        } else if z == q {
            a
        } else {
            s[z - 1]
        },
{
    s.insert_ensures(q, a);
    if z > q {
        assert(s.insert(q, a)[(z - 1) + 1] == s[z - 1]);
    }
}

/// `order` lists positions below `i`, each once, sorted by the keys of
/// `iv` and keeping equal keys in position order.
pub open spec fn ordered(iv: Seq<FindingView>, order: Seq<usize>, i: int) -> bool {
    &&& order.len() == i
    &&& forall|x: int| 0 <= x < i ==> #[trigger] order[x] < i
    &&& forall|x: int, y: int| 0 <= x < y < i ==> #[trigger] order[x] != #[trigger] order[y]
    &&& forall|x: int, y: int|
        0 <= x < y < i ==> !key_lt(sort_key(iv[#[trigger] order[y] as int]), sort_key(iv[#[trigger] order[x] as int]))
    &&& forall|x: int, y: int|
        0 <= x < y < i && sort_key(iv[#[trigger] order[x] as int]) == sort_key(iv[#[trigger] order[y] as int])
            ==> order[x] < order[y]
}

proof fn lemma_insert_ordered(iv: Seq<FindingView>, order: Seq<usize>, i: int, q: int)
    requires
        0 <= i < iv.len(),
        i <= usize::MAX,
        ordered(iv, order, i),
        0 <= q <= order.len(),
        q > 0 ==> !key_lt(sort_key(iv[i]), sort_key(iv[order[q - 1] as int])),
        forall|z: int| q <= z < order.len() ==> key_lt(sort_key(iv[i]), sort_key(iv[#[trigger] order[z] as int])),
    ensures
        ordered(iv, order.insert(q, i as usize), i + 1),
{
    let ki = sort_key(iv[i]);
    let new = order.insert(q, i as usize);
    let key = |x: int| sort_key(iv[new[x] as int]);
    assert forall|z: int| 0 <= z <= order.len() implies new[z] == if z < q {
        order[z]
    } else if z == q {
        i as usize
    } else {
        order[z - 1]
    } by {
        lemma_insert_at(order, q, i as usize, z);
    }
    lemma_insert_at(order, q, i as usize, 0);
    assert forall|x: int| 0 <= x < i + 1 implies #[trigger] new[x] < i + 1 by {}
    assert forall|x: int, y: int| 0 <= x < y < i + 1 implies #[trigger] new[x] != #[trigger] new[y] by {
        if x < q && y > q {
            assert(order[x] != order[y - 1]);
        }
    }
    assert forall|x: int, y: int|
        0 <= x < y < i + 1 implies !key_lt(sort_key(iv[#[trigger] new[y] as int]), sort_key(iv[#[trigger] new[x] as int])) by {
        if y == q {
            let kp = sort_key(iv[order[q - 1] as int]);
            let kx = sort_key(iv[order[x] as int]);
            if x < q - 1 {
                assert(!key_lt(kp, kx));
            }
            lemma_key_order(kx, kp, ki);
            lemma_key_order(ki, kp, kx);
            lemma_key_order(kp, ki, kx);
            lemma_key_order(kx, ki, kp);
        } else if x == q {
            let ky = sort_key(iv[order[y - 1] as int]);
            assert(key_lt(ki, ky));
            lemma_key_order(ki, ky, ky);
        } else if x < q && y > q {
            assert(!key_lt(sort_key(iv[order[y - 1] as int]), sort_key(iv[order[x] as int])));
        } else if x > q {
            assert(!key_lt(sort_key(iv[order[y - 1] as int]), sort_key(iv[order[x - 1] as int])));
        }
    }
    assert forall|x: int, y: int|
        0 <= x < y < i + 1 && sort_key(iv[#[trigger] new[x] as int]) == sort_key(iv[#[trigger] new[y] as int]) implies new[x]
            < new[y] by {
        if x == q {
            let ky = sort_key(iv[order[y - 1] as int]);
            assert(key_lt(ki, ky));
            lemma_key_order(ki, ky, ky);
        } else if x < q && y > q {
            assert(order[x] < order[y - 1]);
        } else if x > q {
            assert(order[x - 1] < order[y - 1]);
        }
    }
}

/// The findings sorted by key, with equal keys in their original order.
pub fn sort_findings<'a>(input: &Vec<Finding<'a>>) -> (output: Vec<Finding<'a>>)
    ensures
        stably_sorted(finding_views(input@), finding_views(output@)),
{
    let n = input.len();
    let ghost iv = finding_views(input@);
    let mut order: Vec<usize> = Vec::new();
    let mut i: usize = 0;
    while i < n
        invariant
            n == input@.len(),
            iv == finding_views(input@),
            i <= n,
            ordered(iv, order@, i as int),
        decreases n - i,
    {
        let mut q = order.len();
        while q > 0 && key_less(&input[i], &input[order[q - 1]])
            invariant
                n == input@.len(),
                iv == finding_views(input@),
                i < n,
                ordered(iv, order@, i as int),
                q <= order@.len(),
                forall|z: int| q <= z < order@.len() ==> key_lt(sort_key(iv[i as int]), sort_key(iv[#[trigger] order@[z] as int])),
            decreases q,
        {
            proof {
                assert(iv[i as int] == finding_view(input@[i as int]));
                assert(iv[order@[q - 1] as int] == finding_view(input@[order@[q - 1] as int]));
            }
            q = q - 1;
        }
        proof {
            if q > 0 {
                assert(iv[i as int] == finding_view(input@[i as int]));
                assert(iv[order@[q - 1] as int] == finding_view(input@[order@[q - 1] as int]));
            }
            lemma_insert_ordered(iv, order@, i as int, q as int);
        }
        order.insert(q, i);
        i = i + 1;
    }
    let mut output: Vec<Finding<'a>> = Vec::new();
    let mut x: usize = 0;
    while x < n
        invariant
            n == input@.len(),
            iv == finding_views(input@),
            ordered(iv, order@, n as int),
            x <= n,
            output@.len() == x,
            forall|z: int| 0 <= z < x ==> #[trigger] finding_view(output@[z]) == iv[order@[z] as int],
        decreases n - x,
    {
        let f = copy_finding(&input[order[x]]);
        output.push(f);
        x = x + 1;
    }
    proof {
        let ov = finding_views(output@);
        let perm = order@.map_values(|v: usize| v as int);
        assert forall|z: int| 0 <= z < ov.len() implies #[trigger] ov[z] == iv[perm[z]] by {
            assert(finding_view(output@[z]) == iv[order@[z] as int]);
        }
        assert forall|a: int, b: int| 0 <= a < b < perm.len() implies #[trigger] perm[a] != #[trigger] perm[b] by {
            assert(order@[a] != order@[b]);
        }
        assert forall|a: int, b: int| 0 <= a < b < ov.len() implies !key_lt(sort_key(#[trigger] ov[b]), sort_key(#[trigger] ov[a])) by {
            assert(!key_lt(sort_key(iv[order@[b] as int]), sort_key(iv[order@[a] as int])));
        }
        assert forall|a: int, b: int|
            0 <= a < b < ov.len() && sort_key(#[trigger] ov[a]) == sort_key(#[trigger] ov[b]) implies perm[a] < perm[b] by {
            assert(ov[a] == iv[order@[a] as int]);
            assert(ov[b] == iv[order@[b] as int]);
        }
        assert(stable_order(iv, ov, perm));
    }
    output
}

} // verus!
