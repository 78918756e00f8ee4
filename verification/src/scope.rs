//! The lattice of scopes from which a declaration must stay visible.

use vstd::prelude::*;

use crate::text::{str_eq, views};

verus! {

/// The plain value of a required scope.
pub enum ScopeView {
    /// No compiled use requires any visibility.
    Bottom,
    /// Every compiled use lies in the given crate, inside the given module path.
    Known(Seq<char>, Seq<Seq<char>>),
    /// Some compiled use lies where no module scope can describe it.
    Unknown,
}

/// The length of the longest common prefix of two sequences.
pub open spec fn common_len(a: Seq<Seq<char>>, b: Seq<Seq<char>>) -> nat
    decreases a.len(),
{
    if a.len() == 0 || b.len() == 0 || a[0] != b[0] {
        0
    } else {
        1 + common_len(a.drop_first(), b.drop_first())
    }
}

/// The longest common prefix of two module paths.
pub open spec fn common_prefix(a: Seq<Seq<char>>, b: Seq<Seq<char>>) -> Seq<Seq<char>> {
    a.take(common_len(a, b) as int)
}

/// The least scope that covers both `a` and `b`.
pub open spec fn join(a: ScopeView, b: ScopeView) -> ScopeView {
    match b {
        ScopeView::Bottom => a,
        ScopeView::Unknown => ScopeView::Unknown,
        ScopeView::Known(c2, s2) => match a {
            ScopeView::Bottom => b,
            ScopeView::Unknown => ScopeView::Unknown,
            ScopeView::Known(c1, s1) => if c1 == c2 {
                ScopeView::Known(c1, common_prefix(s1, s2))
            } else {
                ScopeView::Unknown
            },
        },
    }
}

/// `a` is covered by `b`.
pub open spec fn scope_le(a: ScopeView, b: ScopeView) -> bool {
    join(a, b) == b
}

/// The scope from which the declarations of a crate and module are visible.
#[derive(Clone, Debug, PartialEq, Eq)]
pub enum RequiredScope {
    Bottom,
    Known { crate_name: String, module_scope: Vec<String> },
    Unknown,
}

impl View for RequiredScope {
    type V = ScopeView;

    open spec fn view(&self) -> ScopeView {
        match self {
            RequiredScope::Bottom => ScopeView::Bottom,
            RequiredScope::Known { crate_name, module_scope } => ScopeView::Known(
                crate_name@,
                views(module_scope@),
            ),
            RequiredScope::Unknown => ScopeView::Unknown,
        }
    }
}

impl Default for RequiredScope {
    fn default() -> (r: Self)
        ensures
            r@ == ScopeView::Bottom,
    {
        RequiredScope::Bottom
    }
}

proof fn lemma_common_len_bounds(a: Seq<Seq<char>>, b: Seq<Seq<char>>)
    ensures
        common_len(a, b) <= a.len(),
        common_len(a, b) <= b.len(),
        forall|j: int| 0 <= j < common_len(a, b) ==> a[j] == b[j],
        common_len(a, b) < a.len() && common_len(a, b) < b.len() ==> a[common_len(a, b) as int]
            != b[common_len(a, b) as int],
    decreases a.len(),
{
    if a.len() == 0 || b.len() == 0 || a[0] != b[0] {
    } else {
        lemma_common_len_bounds(a.drop_first(), b.drop_first());
        assert forall|j: int| 0 <= j < common_len(a, b) implies a[j] == b[j] by {
            if j > 0 {
                assert(a.drop_first()[j - 1] == b.drop_first()[j - 1]);
            }
        }
    }
}

/// `common_len` is the first index where the sequences differ.
proof fn lemma_common_len_is_mismatch(a: Seq<Seq<char>>, b: Seq<Seq<char>>, k: nat)
    requires
        k <= a.len(),
        k <= b.len(),
        forall|j: int| 0 <= j < k ==> a[j] == b[j],
        k == a.len() || k == b.len() || a[k as int] != b[k as int],
    ensures
        common_len(a, b) == k,
{
    lemma_common_len_bounds(a, b);
    let c = common_len(a, b);
    if c < k {
        assert(a[c as int] == b[c as int]);
    } else if c > k {
        assert(a[k as int] == b[k as int]);
    }
}

proof fn lemma_common_prefix_comm(a: Seq<Seq<char>>, b: Seq<Seq<char>>)
    ensures
        common_prefix(a, b) == common_prefix(b, a),
{
    lemma_common_len_bounds(a, b);
    lemma_common_len_is_mismatch(b, a, common_len(a, b));
    assert(common_prefix(a, b) =~= common_prefix(b, a));
}

proof fn lemma_common_prefix_self(a: Seq<Seq<char>>)
    ensures
        common_prefix(a, a) == a,
{
    lemma_common_len_is_mismatch(a, a, a.len());
    assert(common_prefix(a, a) =~= a);
}

proof fn lemma_common_prefix_assoc(a: Seq<Seq<char>>, b: Seq<Seq<char>>, c: Seq<Seq<char>>)
    ensures
        common_prefix(common_prefix(a, b), c) == common_prefix(a, common_prefix(b, c)),
{
    let ab = common_prefix(a, b);
    let bc = common_prefix(b, c);
    lemma_common_len_bounds(a, b);
    lemma_common_len_bounds(b, c);
    lemma_common_len_bounds(ab, c);
    lemma_common_len_bounds(a, bc);
    let x = common_len(ab, c);
    let y = common_len(a, bc);
    // Both sides are the longest prefix shared by all three sequences.
    let k = if common_len(a, b) <= common_len(b, c) {
        if common_len(a, b) < common_len(b, c) {
            common_len(a, b)
        } else {
            common_len(a, b)
        }
    } else {
        common_len(b, c)
    };
    assert forall|j: int| 0 <= j < k implies ab[j] == c[j] by {
        assert(a[j] == b[j]);
        assert(b[j] == c[j]);
    }
    if k < ab.len() && k < c.len() {
        // k is a common_len of (b, c) that is smaller than ab's length
        assert(k == common_len(b, c));
        if k < b.len() && k < c.len() {
            assert(b[k as int] != c[k as int]);
            assert(a[k as int] == b[k as int]);
        }
    }
    lemma_common_len_is_mismatch(ab, c, k);
    assert forall|j: int| 0 <= j < k implies a[j] == bc[j] by {
        assert(a[j] == b[j]);
        assert(b[j] == c[j]);
    }
    if k < a.len() && k < bc.len() {
        assert(k == common_len(a, b));
        if k < a.len() && k < b.len() {
            assert(a[k as int] != b[k as int]);
            assert(b[k as int] == c[k as int]);
        }
    }
    lemma_common_len_is_mismatch(a, bc, k);
    assert(common_prefix(ab, c) =~= common_prefix(a, bc));
}

/// Joining scopes does not depend on their order.
pub proof fn lemma_join_commutative(a: ScopeView, b: ScopeView)
    ensures
        join(a, b) == join(b, a),
{
    match (a, b) {
        (ScopeView::Known(c1, s1), ScopeView::Known(c2, s2)) => {
            lemma_common_prefix_comm(s1, s2);
        },
        _ => {},
    }
}

/// Joining scopes does not depend on their grouping.
pub proof fn lemma_join_associative(a: ScopeView, b: ScopeView, c: ScopeView)
    ensures
        join(join(a, b), c) == join(a, join(b, c)),
{
    match (a, b, c) {
        (ScopeView::Known(c1, s1), ScopeView::Known(c2, s2), ScopeView::Known(c3, s3)) => {
            lemma_common_prefix_assoc(s1, s2, s3);
        },
        _ => {},
    }
}

/// Joining a scope with itself changes nothing.
pub proof fn lemma_join_idempotent(a: ScopeView)
    ensures
        join(a, a) == a,
{
    match a {
        ScopeView::Known(c, s) => {
            lemma_common_prefix_self(s);
        },
        _ => {},
    }
}

/// `Bottom` is the least scope and `Unknown` the greatest.
pub proof fn lemma_join_bounds(a: ScopeView)
    ensures
        join(a, ScopeView::Bottom) == a,
        join(ScopeView::Bottom, a) == a,
        join(a, ScopeView::Unknown) == ScopeView::Unknown,
        join(ScopeView::Unknown, a) == ScopeView::Unknown,
{
}

/// A join covers both of its operands.
pub proof fn lemma_join_upper(a: ScopeView, b: ScopeView)
    ensures
        scope_le(a, join(a, b)),
        scope_le(b, join(a, b)),
{
    lemma_join_associative(a, a, b);
    lemma_join_idempotent(a);
    lemma_join_commutative(a, b);
    lemma_join_associative(b, b, a);
    lemma_join_idempotent(b);
}

/// A join is covered by every scope that covers both operands.
pub proof fn lemma_join_least(a: ScopeView, b: ScopeView, c: ScopeView)
    requires
        scope_le(a, c),
        scope_le(b, c),
    ensures
        scope_le(join(a, b), c),
{
    lemma_join_associative(a, b, c);
}

/// Coverage is transitive.
pub proof fn lemma_le_transitive(a: ScopeView, b: ScopeView, c: ScopeView)
    requires
        scope_le(a, b),
        scope_le(b, c),
    ensures
        scope_le(a, c),
{
    lemma_join_associative(a, b, c);
}

/// Scopes that cover each other are equal.
pub proof fn lemma_le_antisymmetric(a: ScopeView, b: ScopeView)
    requires
        scope_le(a, b),
        scope_le(b, a),
    ensures
        a == b,
{
    lemma_join_commutative(a, b);
}

/// Every scope covers itself.
pub proof fn lemma_le_reflexive(a: ScopeView)
    ensures
        scope_le(a, a),
{
    lemma_join_idempotent(a);
}

/// The length of the longest common prefix of two module paths.
fn common_prefix_len(a: &Vec<String>, b: &Vec<String>) -> (k: usize)
    ensures
        k == common_len(views(a@), views(b@)),
{
    let mut k: usize = 0;
    while k < a.len() && k < b.len() && str_eq(a[k].as_str(), b[k].as_str())
        invariant
            k <= a@.len(),
            k <= b@.len(),
            forall|j: int| 0 <= j < k ==> views(a@)[j] == views(b@)[j],
        decreases a@.len() - k,
    {
        k = k + 1;
    }
    proof {
        lemma_common_len_is_mismatch(views(a@), views(b@), k as nat);
    }
    k
}

impl RequiredScope {
    /// Widens this scope to cover `other`; reports whether it changed.
    pub fn merge(&mut self, other: &Self) -> (changed: bool)
        ensures
            final(self)@ == join(old(self)@, other@),
            changed == (final(self)@ != old(self)@),
    {
        match other {
            RequiredScope::Bottom => false,
            RequiredScope::Unknown => {
                match self {
                    RequiredScope::Unknown => false,
                    _ => {
                        *self = RequiredScope::Unknown;
                        true
                    },
                }
            },
            RequiredScope::Known { crate_name: other_crate, module_scope: other_scope } => {
                match self {
                    RequiredScope::Bottom => {
                        *self = RequiredScope::Known {
                            crate_name: other_crate.clone(),
                            module_scope: other_scope.clone(),
                        };
                        proof {
                            assert(views(other_scope@) =~= views(self->module_scope@));
                        }
                        true
                    },
                    RequiredScope::Unknown => false,
                    RequiredScope::Known { crate_name, module_scope } => {
                        if str_eq(crate_name.as_str(), other_crate.as_str()) {
                            let shared = common_prefix_len(module_scope, other_scope);
                            proof {
                                lemma_common_len_bounds(views(module_scope@), views(other_scope@));
                            }
                            if shared == module_scope.len() {
                                proof {
                                    assert(views(module_scope@).take(shared as int) =~= views(
                                        module_scope@,
                                    ));
                                }
                                false
                            } else {
                                let ghost before = views(module_scope@);
                                module_scope.truncate(shared);
                                proof {
                                    assert(views(module_scope@) =~= before.take(shared as int));
                                    assert(views(module_scope@).len() != before.len());
                                }
                                true
                            }
                        } else {
                            *self = RequiredScope::Unknown;
                            true
                        }
                    },
                }
            },
        }
    }
}

} // verus!
