//! Partitioning indices into classes of an equivalence relation.

use std::collections::HashMap;

use vstd::prelude::*;

verus! {

broadcast use vstd::std_specs::hash::group_hash_axioms;

/// `eq` is an equivalence relation on `0..n`.
pub open spec fn is_equivalence(eq: spec_fn(int, int) -> bool, n: int) -> bool {
    &&& forall|i: int| 0 <= i < n ==> #[trigger] eq(i, i)
    &&& forall|i: int, j: int| 0 <= i < n && 0 <= j < n && #[trigger] eq(i, j) ==> eq(j, i)
    &&& forall|i: int, j: int, k: int|
        0 <= i < n && 0 <= j < n && 0 <= k < n && #[trigger] eq(i, j) && #[trigger] eq(j, k) ==> eq(i, k)
}

/// The class of index `i` is the least index equivalent to it.
pub open spec fn is_least_equivalent(eq: spec_fn(int, int) -> bool, c: int, i: int) -> bool {
    &&& 0 <= c <= i
    &&& eq(c, i)
    &&& forall|j: int| 0 <= j < c ==> !#[trigger] eq(j, i)
}

/// For every index, the least index equivalent to it.
///
/// `keys` must agree on equivalent indices; they only speed up the search.
pub fn classify<F: Fn(usize, usize) -> bool>(
    keys: &Vec<u64>,
    same: F,
    Ghost(eq): Ghost<spec_fn(int, int) -> bool>,
) -> (class: Vec<usize>)
    requires
        is_equivalence(eq, keys@.len() as int),
        forall|i: usize, j: usize| i < keys@.len() && j < keys@.len() ==> #[trigger] same.requires((i, j)),
        forall|i: usize, j: usize, r: bool|
            i < keys@.len() && j < keys@.len() && #[trigger] same.ensures((i, j), r) ==> r == eq(
                i as int,
                j as int,
            ),
        forall|i: int, j: int|
            0 <= i < keys@.len() && 0 <= j < keys@.len() && #[trigger] eq(i, j) ==> keys@[i] == keys@[j],
    ensures
        class@.len() == keys@.len(),
        forall|i: int| 0 <= i < keys@.len() ==> is_least_equivalent(eq, #[trigger] class@[i] as int, i),
{
    let n = keys.len();
    let mut class: Vec<usize> = Vec::new();
    let mut buckets: HashMap<u64, Vec<usize>> = HashMap::new();
    let mut i: usize = 0;
    while i < n
        invariant
            n == keys@.len(),
            i <= n,
            class@.len() == i,
            is_equivalence(eq, n as int),
            forall|a: usize, b: usize| a < n && b < n ==> #[trigger] same.requires((a, b)),
            forall|a: usize, b: usize, r: bool|
                a < n && b < n && #[trigger] same.ensures((a, b), r) ==> r == eq(a as int, b as int),
            forall|a: int, b: int| 0 <= a < n && 0 <= b < n && #[trigger] eq(a, b) ==> keys@[a] == keys@[b],
            forall|a: int| 0 <= a < i ==> is_least_equivalent(eq, #[trigger] class@[a] as int, a),
            forall|k: u64, m: int|
                #![trigger buckets@[k]@[m]]
                buckets@.contains_key(k) && 0 <= m < buckets@[k]@.len() ==> {
                    &&& buckets@[k]@[m] < i
                    &&& class@[buckets@[k]@[m] as int] == buckets@[k]@[m]
                    &&& keys@[buckets@[k]@[m] as int] == k
                },
            forall|r: int|
                #![trigger class@[r]]
                0 <= r < i && class@[r] == r ==> buckets@.contains_key(keys@[r]) && buckets@[keys@[r]]@.contains(
                    r as usize,
                ),
        decreases n - i,
    {
        let k = keys[i];
        let mut found: Option<usize> = None;
        match buckets.get(&k) {
            Some(bucket) => {
                let mut m: usize = 0;
                while m < bucket.len() && found.is_none()
                    invariant
                        buckets@.contains_key(k),
                        bucket@ == buckets@[k]@,
                        m <= bucket@.len(),
                        i < n,
                        n == keys@.len(),
                        forall|a: usize, b: usize| a < n && b < n ==> #[trigger] same.requires((a, b)),
                        forall|a: usize, b: usize, r: bool|
                            a < n && b < n && #[trigger] same.ensures((a, b), r) ==> r == eq(
                                a as int,
                                b as int,
                            ),
                        forall|k2: u64, m2: int|
                            #![trigger buckets@[k2]@[m2]]
                            buckets@.contains_key(k2) && 0 <= m2 < buckets@[k2]@.len() ==> buckets@[k2]@[m2] < i,
                        match found {
                            Some(r) => r < i && bucket@.contains(r) && eq(r as int, i as int),
                            None => forall|q: int| 0 <= q < m ==> !eq(bucket@[q] as int, i as int),
                        },
                    decreases bucket@.len() - m,
                {
                    let r = bucket[m];
                    assert(buckets@[k]@[m as int] == r);
                    if same(r, i) {
                        found = Some(r);
                    }
                    m = m + 1;
                }
                assert(found is None ==> forall|q: int|
                    0 <= q < buckets@[k]@.len() ==> !eq(#[trigger] buckets@[k]@[q] as int, i as int));
            },
            None => {},
        }
        let ghost old_class = class@;
        let ghost old_buckets = buckets@;
        match found {
            Some(r) => {
                let ghost q = choose|q: int| 0 <= q < buckets@[k]@.len() && buckets@[k]@[q] == r;
                assert(class@[r as int] == r);
                assert(is_least_equivalent(eq, r as int, r as int));
                proof {
                    assert forall|j: int| 0 <= j < r implies !#[trigger] eq(j, i as int) by {
                        if eq(j, i as int) {
                            assert(eq(i as int, r as int));
                            assert(eq(j, r as int));
                        }
                    }
                }
                class.push(r);
            },
            None => {
                proof {
                    assert forall|j: int| 0 <= j < i implies !#[trigger] eq(j, i as int) by {
                        if eq(j, i as int) {
                            let c = class@[j] as int;
                            assert(is_least_equivalent(eq, c, j));
                            assert(eq(c, i as int));
                            assert(class@[c] == c) by {
                                assert(is_least_equivalent(eq, class@[c] as int, c));
                                if class@[c] < c {
                                    assert(eq(class@[c] as int, j));
                                }
                            }
                            assert(keys@[c] == k);
                            assert(buckets@[k]@.contains(c as usize));
                            let q = choose|q: int| 0 <= q < buckets@[k]@.len() && buckets@[k]@[q] == c as usize;
                            assert(!eq(buckets@[k]@[q] as int, i as int));
                        }
                    }
                }
                class.push(i);
                let mut bucket = match buckets.remove(&k) {
                    Some(b) => b,
                    None => Vec::new(),
                };
                let ghost old_bucket = bucket@;
                bucket.push(i);
                buckets.insert(k, bucket);
                proof {
                    assert(old_buckets.contains_key(k) ==> old_bucket == old_buckets[k]@);
                    assert(!old_buckets.contains_key(k) ==> old_bucket.len() == 0);
                    assert forall|k2: u64, m2: int|
                        #![trigger buckets@[k2]@[m2]]
                        buckets@.contains_key(k2) && 0 <= m2 < buckets@[k2]@.len() implies {
                            &&& buckets@[k2]@[m2] < i + 1
                            &&& class@[buckets@[k2]@[m2] as int] == buckets@[k2]@[m2]
                            &&& keys@[buckets@[k2]@[m2] as int] == k2
                        } by {
                        if k2 == k {
                            if m2 < old_bucket.len() {
                                assert(buckets@[k2]@[m2] == old_buckets[k2]@[m2]);
                            }
                        } else {
                            assert(buckets@[k2] == old_buckets[k2]);
                        }
                    }
                    assert forall|r: int|
                        #![trigger class@[r]]
                        0 <= r < i + 1 && class@[r] == r implies buckets@.contains_key(keys@[r])
                            && buckets@[keys@[r]]@.contains(r as usize) by {
                        if r == i {
                            assert(buckets@[k]@[buckets@[k]@.len() - 1] == i);
                        } else {
                            assert(old_class[r] == r);
                            let k2 = keys@[r];
                            let q = choose|q: int| 0 <= q < old_buckets[k2]@.len() && old_buckets[k2]@[q] == r as usize;
                            if k2 == k {
                                assert(buckets@[k2]@[q] == r as usize);
                            } else {
                                assert(buckets@[k2] == old_buckets[k2]);
                            }
                        }
                    }
                }
            },
        }
        proof {
            assert forall|a: int| 0 <= a < i + 1 implies is_least_equivalent(eq, #[trigger] class@[a] as int, a) by {
                if a < i {
                    assert(class@[a] == old_class[a]);
                }
            }
        }
        i = i + 1;
    }
    class
}

} // verus!
