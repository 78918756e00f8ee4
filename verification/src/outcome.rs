//! The decisions of an analysis run: what the report emits and how the run
//! ends, and whether another fix round makes progress.

use vstd::prelude::*;

use crate::config::ConfigDiagnostic;
use crate::fixing::FixRound;
use crate::lint::{level_after, DiagnosticKind, LintLevel, LintLevels, LintSelector};
use crate::model::{
    copy_opt_span, opt_span_view, DefinitionKind, Finding, FindingKind, FixTarget, Span, VisibilityReduction,
};
use crate::text::str_eq;

verus! {

/// The diagnostics of a report, findings first, each by its kind.
pub open spec fn report_kinds(findings: Seq<Finding>, diagnostics: Seq<ConfigDiagnostic>) -> Seq<DiagnosticKind> {
    findings.map_values(|f: Finding| DiagnosticKind::Finding(f.kind)) + diagnostics.map_values(
        |d: ConfigDiagnostic| DiagnosticKind::Config(d.kind),
    )
}

/// Whether the lint levels emit a diagnostic of kind `k`.
pub open spec fn emitted(levels: Seq<(LintSelector, LintLevel)>, k: DiagnosticKind) -> bool {
    level_after(levels, levels.len() as int, k) != LintLevel::Allow
}

/// How many of the diagnostics the lint levels emit.
pub open spec fn emitted_count(levels: Seq<(LintSelector, LintLevel)>, kinds: Seq<DiagnosticKind>) -> nat
    decreases kinds.len(),
{
    if kinds.len() == 0 {
        0
    } else {
        emitted_count(levels, kinds.drop_last()) + if emitted(levels, kinds.last()) {
            1nat
        } else {
            0nat
        }
    }
}

/// Whether the lint levels deny one of the diagnostics.
pub open spec fn any_denied(levels: Seq<(LintSelector, LintLevel)>, kinds: Seq<DiagnosticKind>) -> bool {
    exists|i: int| 0 <= i < kinds.len() && level_after(levels, levels.len() as int, #[trigger] kinds[i]) == LintLevel::Deny
}

/// How a report ends: how many diagnostics it emits, a diagnostic being
/// emitted when its level is not `allow`, and whether the run fails, which it
/// does when one of them is denied.
pub fn report_outcome(findings: &[Finding], config_diagnostics: &[ConfigDiagnostic], levels: &LintLevels) -> (r: (
    usize,
    bool,
))
    requires
        findings@.len() + config_diagnostics@.len() <= usize::MAX,
    ensures
        r.0 == emitted_count(levels@, report_kinds(findings@, config_diagnostics@)),
        r.1 == any_denied(levels@, report_kinds(findings@, config_diagnostics@)),
{
    let ghost kinds = report_kinds(findings@, config_diagnostics@);
    let nf = findings.len();
    let total = nf + config_diagnostics.len();
    let mut count: usize = 0;
    let mut denied = false;
    let mut j: usize = 0;
    while j < total
        invariant
            kinds == report_kinds(findings@, config_diagnostics@),
            nf == findings@.len(),
            total == kinds.len(),
            j <= total,
            count == emitted_count(levels@, kinds.take(j as int)),
            count <= j,
            denied == any_denied(levels@, kinds.take(j as int)),
        decreases total - j,
    {
        let kind = if j < nf {
            DiagnosticKind::Finding(findings[j].kind)
        } else {
            DiagnosticKind::Config(config_diagnostics[j - nf].kind)
        };
        assert(kinds[j as int] == kind);
        let level = levels.level(kind);
        proof {
            let prefix = kinds.take(j + 1);
            assert(prefix.drop_last() =~= kinds.take(j as int));
            assert(prefix.last() == kind);
            if any_denied(levels@, prefix) {
                let i = choose|i: int|
                    0 <= i < prefix.len() && level_after(levels@, levels@.len() as int, #[trigger] prefix[i])
                        == LintLevel::Deny;
                if i < j {
                    assert(kinds.take(j as int)[i] == prefix[i]);
                }
            }
            if any_denied(levels@, kinds.take(j as int)) {
                let i = choose|i: int|
                    0 <= i < j && level_after(levels@, levels@.len() as int, #[trigger] kinds.take(j as int)[i])
                        == LintLevel::Deny;
                assert(prefix[i] == kinds.take(j as int)[i]);
            }
            if level == LintLevel::Deny {
                assert(prefix[j as int] == kind);
            }
        }
        if level != LintLevel::Allow {
            count = count + 1;
        }
        if level == LintLevel::Deny {
            denied = true;
        }
        j = j + 1;
    }
    assert(kinds.take(total as int) =~= kinds);
    (count, denied)
}

/// The plain values of a fix target within a round: whether it belongs to
/// the production plan, its crate, name, definition kind and location, its
/// finding kind and its replacement visibility.
pub type FixTargetKey = (bool, String, String, DefinitionKind, Option<Span>, FindingKind, VisibilityReduction);

/// The plain value of a fix target key.
pub type FixTargetKeyView = (
    bool,
    Seq<char>,
    Seq<char>,
    DefinitionKind,
    Option<(Seq<char>, usize, usize)>,
    FindingKind,
    VisibilityReduction,
);

/// The plain value of a key.
pub open spec fn key_view(k: FixTargetKey) -> FixTargetKeyView {
    (k.0, k.1@, k.2@, k.3, opt_span_view(k.4), k.5, k.6)
}

/// The plain values of keys.
pub open spec fn keys_view(v: Seq<FixTargetKey>) -> Seq<FixTargetKeyView> {
    v.map_values(|k: FixTargetKey| key_view(k))
}

/// The plain values of the key lists of earlier rounds.
pub open spec fn seen_view(v: Seq<Vec<FixTargetKey>>) -> Seq<Seq<FixTargetKeyView>> {
    v.map_values(|k: Vec<FixTargetKey>| keys_view(k@))
}

/// The key of a target of the production plan (`production`) or the test plan.
pub open spec fn target_key(production: bool, t: FixTarget) -> FixTargetKeyView {
    (production, t.crate_name@, t.name@, t.definition_kind, opt_span_view(t.span), t.kind, t.replacement)
}

/// The keys of a fix round: the production plan's targets, then the test
/// plan's.
pub open spec fn round_keys(round: FixRound) -> Seq<FixTargetKeyView> {
    round.production_fix.targets@.map_values(|t: FixTarget| target_key(true, t))
        + round.test_fix.targets@.map_values(|t: FixTarget| target_key(false, t))
}

/// How often `x` occurs in `s`.
pub open spec fn occurrences(s: Seq<FixTargetKeyView>, x: FixTargetKeyView) -> nat
    decreases s.len(),
{
    if s.len() == 0 {
        0
    } else {
        occurrences(s.drop_last(), x) + if s.last() == x {
            1nat
        } else {
            0nat
        }
    }
}

/// Counting occurrences counts the multiset of the sequence.
proof fn lemma_occurrences(s: Seq<FixTargetKeyView>, x: FixTargetKeyView)
    ensures
        occurrences(s, x) == s.to_multiset().count(x),
    decreases s.len(),
{
    broadcast use vstd::seq_lib::group_to_multiset_ensures, vstd::multiset::group_multiset_axioms;

    if s.len() == 0 {
        assert(s.to_multiset().count(x) == 0);
    } else {
        lemma_occurrences(s.drop_last(), x);
        assert(s.drop_last().push(s.last()) =~= s);
        assert(s.to_multiset() =~= s.drop_last().to_multiset().insert(s.last()));
    }
}

/// Whether a round's plans repeat those of an earlier round, whatever the
/// order of their targets.
pub open spec fn repeats(seen: Seq<Seq<FixTargetKeyView>>, keys: Seq<FixTargetKeyView>) -> bool {
    exists|i: int| 0 <= i < seen.len() && (#[trigger] seen[i]).to_multiset() == keys.to_multiset()
}

/// What to do after a fix round was planned.
#[derive(Clone, Copy, Debug, PartialEq, Eq, Structural)]
pub enum FixStep {
    /// Nothing is left to fix.
    Done,
    /// The round plans what an earlier round planned: fixing made no
    /// progress.
    NoProgress,
    /// Apply the round's plans.
    Apply,
}

/// Whether two keys are equal.
fn same_key(a: &FixTargetKey, b: &FixTargetKey) -> (r: bool)
    ensures
        r == (key_view(*a) == key_view(*b)),
{
    let spans = match (&a.4, &b.4) {
        (Some(x), Some(y)) => str_eq(x.file.as_str(), y.file.as_str()) && x.line == y.line && x.column == y.column,
        (None, None) => true,
        _ => false,
    };
    a.0 == b.0 && str_eq(a.1.as_str(), b.1.as_str()) && str_eq(a.2.as_str(), b.2.as_str()) && a.3 == b.3 && spans
        && a.5 == b.5 && a.6 == b.6
}

/// How often `k` occurs among `v`.
fn count_key(v: &Vec<FixTargetKey>, k: &FixTargetKey) -> (r: usize)
    ensures
        r == occurrences(keys_view(v@), key_view(*k)),
{
    let mut r: usize = 0;
    let mut i: usize = 0;
    while i < v.len()
        invariant
            i <= v@.len(),
            r <= i,
            r == occurrences(keys_view(v@).take(i as int), key_view(*k)),
        decreases v@.len() - i,
    {
        proof {
            assert(keys_view(v@).take(i + 1).drop_last() =~= keys_view(v@).take(i as int));
        }
        if same_key(&v[i], k) {
            r = r + 1;
        }
        i = i + 1;
    }
    assert(keys_view(v@).take(i as int) =~= keys_view(v@));
    r
}

/// Whether two key lists hold the same keys, each as often, in any order.
fn same_keys(a: &Vec<FixTargetKey>, b: &Vec<FixTargetKey>) -> (r: bool)
    ensures
        r == (keys_view(a@).to_multiset() == keys_view(b@).to_multiset()),
{
    broadcast use vstd::seq_lib::group_to_multiset_ensures;

    let ghost av = keys_view(a@);
    let ghost bv = keys_view(b@);
    let mut i: usize = 0;
    while i < a.len()
        invariant
            av == keys_view(a@),
            bv == keys_view(b@),
            i <= a@.len(),
            forall|j: int| 0 <= j < i ==> occurrences(av, #[trigger] av[j]) == occurrences(bv, av[j]),
        decreases a@.len() - i,
    {
        let ca = count_key(a, &a[i]);
        let cb = count_key(b, &a[i]);
        if ca != cb {
            proof {
                lemma_occurrences(av, av[i as int]);
                lemma_occurrences(bv, av[i as int]);
            }
            return false;
        }
        i = i + 1;
    }
    let mut i: usize = 0;
    while i < b.len()
        invariant
            av == keys_view(a@),
            bv == keys_view(b@),
            i <= b@.len(),
            forall|j: int| 0 <= j < a@.len() ==> occurrences(av, #[trigger] av[j]) == occurrences(bv, av[j]),
            forall|j: int| 0 <= j < i ==> occurrences(av, #[trigger] bv[j]) == occurrences(bv, bv[j]),
        decreases b@.len() - i,
    {
        let ca = count_key(a, &b[i]);
        let cb = count_key(b, &b[i]);
        if ca != cb {
            proof {
                lemma_occurrences(av, bv[i as int]);
                lemma_occurrences(bv, bv[i as int]);
            }
            return false;
        }
        i = i + 1;
    }
    proof {
        assert forall|x: FixTargetKeyView| av.to_multiset().count(x) == bv.to_multiset().count(x) by {
            lemma_occurrences(av, x);
            lemma_occurrences(bv, x);
            if av.contains(x) {
                let j = choose|j: int| 0 <= j < av.len() && av[j] == x;
                assert(occurrences(av, av[j]) == occurrences(bv, av[j]));
            } else if bv.contains(x) {
                let j = choose|j: int| 0 <= j < bv.len() && bv[j] == x;
                assert(occurrences(av, bv[j]) == occurrences(bv, bv[j]));
            }
        }
        assert(av.to_multiset() =~= bv.to_multiset());
    }
    true
}

/// The key of a target.
fn key_of(production: bool, t: &FixTarget) -> (r: FixTargetKey)
    ensures
        key_view(r) == target_key(production, *t),
{
    (production, t.crate_name.clone(), t.name.clone(), t.definition_kind, copy_opt_span(&t.span), t.kind, t.replacement)
}

/// Appends the keys of a plan's targets.
fn push_keys(out: &mut Vec<FixTargetKey>, production: bool, targets: &Vec<FixTarget>)
    ensures
        keys_view(final(out)@) == keys_view(old(out)@) + targets@.map_values(|t: FixTarget| target_key(production, t)),
{
    let ghost start = keys_view(out@);
    let mut i: usize = 0;
    while i < targets.len()
        invariant
            i <= targets@.len(),
            keys_view(out@) == start + targets@.take(i as int).map_values(|t: FixTarget| target_key(production, t)),
        decreases targets@.len() - i,
    {
        let k = key_of(production, &targets[i]);
        let ghost kept = keys_view(out@);
        out.push(k);
        proof {
            assert(keys_view(out@) =~= kept.push(key_view(k)));
            assert(targets@.take(i + 1).map_values(|t: FixTarget| target_key(production, t)) =~= targets@.take(
                i as int,
            ).map_values(|t: FixTarget| target_key(production, t)).push(target_key(production, targets@[i as int])));
            assert(keys_view(out@) =~= start + targets@.take(i + 1).map_values(
                |t: FixTarget| target_key(production, t),
            ));
        }
        i = i + 1;
    }
    assert(targets@.take(i as int) =~= targets@);
}

/// Decides what follows a planned fix round, given the key lists of the
/// rounds applied before: the run is done when neither plan has a target;
/// it makes no progress when the round plans the same targets as an earlier
/// round, in whatever order; otherwise the round is applied and its keys
/// are remembered.
pub fn fix_step(seen: &mut Vec<Vec<FixTargetKey>>, round: &FixRound) -> (r: FixStep)
    ensures
        (r == FixStep::Done) <==> (round.production_fix.targets@.len() == 0 && round.test_fix.targets@.len() == 0),
        (r == FixStep::NoProgress) <==> (!(round.production_fix.targets@.len() == 0 && round.test_fix.targets@.len()
            == 0) && repeats(seen_view(old(seen)@), round_keys(*round))),
        r == FixStep::Apply ==> seen_view(final(seen)@) == seen_view(old(seen)@).push(round_keys(*round)),
        r != FixStep::Apply ==> final(seen)@ == old(seen)@,
{
    if round.production_fix.targets.len() == 0 && round.test_fix.targets.len() == 0 {
        return FixStep::Done;
    }
    let mut keys: Vec<FixTargetKey> = Vec::new();
    push_keys(&mut keys, true, &round.production_fix.targets);
    push_keys(&mut keys, false, &round.test_fix.targets);
    assert(keys_view(keys@) =~= round_keys(*round));
    let ghost before = seen_view(seen@);
    let mut i: usize = 0;
    while i < seen.len()
        invariant
            i <= seen@.len(),
            before == seen_view(seen@),
            keys_view(keys@) == round_keys(*round),
            !(round.production_fix.targets@.len() == 0 && round.test_fix.targets@.len() == 0),
            forall|j: int| 0 <= j < i ==> (#[trigger] before[j]).to_multiset() != round_keys(*round).to_multiset(),
        decreases seen@.len() - i,
    {
        if same_keys(&seen[i], &keys) {
            proof {
                assert(before[i as int] == keys_view(seen@[i as int]@));
                assert(repeats(before, round_keys(*round)));
            }
            return FixStep::NoProgress;
        }
        assert(before[i as int] == keys_view(seen@[i as int]@));
        i = i + 1;
    }
    assert(!repeats(before, round_keys(*round)));
    seen.push(keys);
    assert(seen_view(seen@) =~= before.push(round_keys(*round)));
    FixStep::Apply
}


/// The keys of a plan's targets, for the production plan (`production`) or
/// the test plan: each target without its id.
pub open spec fn plan_keys(production: bool, targets: Seq<FixTarget>) -> Seq<FixTargetKeyView> {
    targets.map_values(|t: FixTarget| target_key(production, t))
}

/// A round's repeat test ignores the order and the ids of targets: when a
/// later round plans, in each mode, the same targets as an applied round up
/// to their ids and their order, `fix_step` finds it a repeat.
pub proof fn lemma_repeat_ignores_order_and_ids(seen: Seq<Seq<FixTargetKeyView>>, a: FixRound, b: FixRound)
    requires
        plan_keys(true, a.production_fix.targets@).to_multiset() == plan_keys(true, b.production_fix.targets@).to_multiset(),
        plan_keys(false, a.test_fix.targets@).to_multiset() == plan_keys(false, b.test_fix.targets@).to_multiset(),
    ensures
        repeats(seen.push(round_keys(a)), round_keys(b)),
{
    vstd::seq_lib::lemma_multiset_commutative(
        plan_keys(true, a.production_fix.targets@),
        plan_keys(false, a.test_fix.targets@),
    );
    vstd::seq_lib::lemma_multiset_commutative(
        plan_keys(true, b.production_fix.targets@),
        plan_keys(false, b.test_fix.targets@),
    );
    assert(round_keys(a) == plan_keys(true, a.production_fix.targets@) + plan_keys(false, a.test_fix.targets@));
    assert(round_keys(b) == plan_keys(true, b.production_fix.targets@) + plan_keys(false, b.test_fix.targets@));
    assert(seen.push(round_keys(a))[seen.len() as int] == round_keys(a));
}

/// The mode of a plan is part of a round's keys: a round that plans targets
/// for production only is no repeat of a round that plans the same targets
/// for tests only.
pub proof fn lemma_repeat_keeps_modes(a: FixRound, b: FixRound)
    requires
        a.production_fix.targets@.len() > 0,
        a.test_fix.targets@.len() == 0,
        b.production_fix.targets@.len() == 0,
        b.test_fix.targets@ == a.production_fix.targets@,
    ensures
        round_keys(a).to_multiset() != round_keys(b).to_multiset(),
{
    broadcast use vstd::seq_lib::group_to_multiset_ensures;

    let k = round_keys(a)[0];
    assert(round_keys(a)[0] == target_key(true, a.production_fix.targets@[0]));
    assert(round_keys(a).contains(k));
    if round_keys(b).contains(k) {
        let j = choose|j: int| 0 <= j < round_keys(b).len() && round_keys(b)[j] == k;
        assert(round_keys(b)[j] == target_key(false, b.test_fix.targets@[j]));
    }
    assert(round_keys(a).to_multiset().count(k) > 0);
    assert(round_keys(b).to_multiset().count(k) == 0);
}

} // verus!
