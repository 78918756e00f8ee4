//! Fix plans: which declarations a fix compilation changes, and to what
//! visibility.

use vstd::prelude::*;

use crate::lint::{DiagnosticKind, LintLevel, LintLevels, level_after};
use crate::model::{
    copy_opt_span, definition_identity_view, spec_visibility_reduction, Definition, DefinitionIdentity, Finding,
    FindingKind, FixPlan, FixTarget, Fragment, ProtocolVersion,
};

verus! {

/// The definitions of the fragments, fragment by fragment.
pub open spec fn fragment_definitions(fs: Seq<Fragment>) -> Seq<Definition>
    decreases fs.len(),
{
    if fs.len() == 0 {
        Seq::empty()
    } else {
        fragment_definitions(fs.drop_last()) + fs.last().definitions@
    }
}

/// The fix target of a definition for a finding with the given replacement.
pub open spec fn target_of(d: Definition, f: Finding, replacement: crate::model::VisibilityReduction) -> FixTarget {
    FixTarget {
        id: d.id,
        crate_name: d.crate_name,
        name: d.name,
        definition_kind: d.kind,
        span: d.span,
        kind: f.kind,
        replacement,
    }
}

/// The fix targets of one finding among the first `n` definitions: every
/// definition with the identity of the finding's declaration, when the
/// finding proposes a visibility.
pub open spec fn targets_for(f: Finding, defs: Seq<Definition>, n: int) -> Seq<FixTarget>
    decreases n,
{
    if n <= 0 {
        Seq::empty()
    } else {
        let before = targets_for(f, defs, n - 1);
        match spec_visibility_reduction(f.kind) {
            Some(r) => if definition_identity_view(defs[n - 1]) == definition_identity_view(*f.definition) {
                before.push(target_of(defs[n - 1], f, r))
            } else {
                before
            },
            None => before,
        }
    }
}

/// The fix targets of the findings, finding by finding.
pub open spec fn targets_of(findings: Seq<Finding>, defs: Seq<Definition>) -> Seq<FixTarget>
    decreases findings.len(),
{
    if findings.len() == 0 {
        Seq::empty()
    } else {
        targets_of(findings.drop_last(), defs) + targets_for(findings.last(), defs, defs.len() as int)
    }
}

/// Whether two definitions have the same identity.
fn same_identity(a: &Definition, b: &Definition) -> (r: bool)
    ensures
        r == (definition_identity_view(*a) == definition_identity_view(*b)),
{
    let x = DefinitionIdentity::new(a.crate_name.as_str(), a.name.as_str(), a.kind, a.span.as_ref());
    let y = DefinitionIdentity::new(b.crate_name.as_str(), b.name.as_str(), b.kind, b.span.as_ref());
    x.same(&y)
}

/// A copy of a definition's fix target.
fn make_target(d: &Definition, f: &Finding, replacement: crate::model::VisibilityReduction) -> (r: FixTarget)
    ensures
        r == target_of(*d, *f, replacement),
{
    FixTarget {
        id: d.id.clone(),
        crate_name: d.crate_name.clone(),
        name: d.name.clone(),
        definition_kind: d.kind,
        span: copy_opt_span(&d.span),
        kind: f.kind,
        replacement,
    }
}

/// Appends the fix targets of one finding.
fn push_targets_for(targets: &mut Vec<FixTarget>, f: &Finding, fragments: &[Fragment])
    ensures
        final(targets)@ == old(targets)@ + targets_for(
            *f,
            fragment_definitions(fragments@),
            fragment_definitions(fragments@).len() as int,
        ),
{
    let ghost defs = fragment_definitions(fragments@);
    let ghost start = targets@;
    let replacement = match f.kind.visibility_reduction() {
        Some(r) => r,
        None => {
            proof {
                lemma_targets_for_none(*f, defs, defs.len() as int);
                assert(start + Seq::<FixTarget>::empty() =~= start);
            }
            return;
        },
    };
    let mut q: usize = 0;
    let mut count: Ghost<int> = Ghost(0);
    proof {
        assert(fragment_definitions(fragments@.take(0)) =~= Seq::<Definition>::empty());
        assert(start + targets_for(*f, defs, 0) =~= start);
    }
    while q < fragments.len()
        invariant
            defs == fragment_definitions(fragments@),
            spec_visibility_reduction(f.kind) == Some(replacement),
            q <= fragments@.len(),
            count@ == fragment_definitions(fragments@.take(q as int)).len(),
            fragment_definitions(fragments@.take(q as int)) == defs.take(count@),
            count@ <= defs.len(),
            targets@ == start + targets_for(*f, defs, count@),
        decreases fragments@.len() - q,
    {
        let fragment = &fragments[q];
        let ghost base = count@;
        proof {
            lemma_fragment_definitions_prefix(fragments@, q as int);
            let whole = fragment_definitions(fragments@.take(q + 1));
            assert(whole == defs.take(whole.len() as int));
            assert forall|k: int| 0 <= k < fragment.definitions@.len() implies #[trigger] defs[base + k]
                == fragment.definitions@[k] by {
                assert(whole[base + k] == fragment.definitions@[k]);
            }
        }
        let mut j: usize = 0;
        while j < fragment.definitions.len()
            invariant
                defs == fragment_definitions(fragments@),
                spec_visibility_reduction(f.kind) == Some(replacement),
                q < fragments@.len(),
                *fragment == fragments@[q as int],
                fragment_definitions(fragments@.take(q + 1)) == defs.take(base + fragment.definitions@.len()),
                0 <= base,
                base + fragment.definitions@.len() <= defs.len(),
                j <= fragment.definitions@.len(),
                count@ == base + j,
                forall|k: int| 0 <= k < fragment.definitions@.len() ==> #[trigger] defs[base + k] == fragment.definitions@[k],
                targets@ == start + targets_for(*f, defs, count@),
            decreases fragment.definitions@.len() - j,
        {
            let d = &fragment.definitions[j];
            proof {
                assert(base + j < defs.len());
                assert(defs[base + j] == fragment.definitions@[j as int]);
                assert(targets_for(*f, defs, count@ + 1) == if definition_identity_view(defs[count@])
                    == definition_identity_view(*f.definition) {
                    targets_for(*f, defs, count@).push(target_of(defs[count@], *f, replacement))
                } else {
                    targets_for(*f, defs, count@)
                });
            }
            if same_identity(d, f.definition) {
                let ghost before = targets@;
                targets.push(make_target(d, f, replacement));
                proof {
                    assert(targets@ =~= start + targets_for(*f, defs, count@ + 1));
                }
            }
            proof {
                count@ = count@ + 1;
            }
            j = j + 1;
        }
        q = q + 1;
    }
    proof {
        assert(fragments@.take(q as int) =~= fragments@);
        assert(defs.take(count@) == defs);
    }
}

/// Without a proposed visibility, a finding has no fix targets.
proof fn lemma_targets_for_none(f: Finding, defs: Seq<Definition>, n: int)
    requires
        spec_visibility_reduction(f.kind) is None,
    ensures
        targets_for(f, defs, n) == Seq::<FixTarget>::empty(),
    decreases n,
{
    if n > 0 {
        lemma_targets_for_none(f, defs, n - 1);
    }
}

/// Every fix target of a finding carries the finding's kind and the
/// visibility that kind proposes.
proof fn lemma_targets_for_members(f: Finding, defs: Seq<Definition>, n: int, i: int)
    requires
        0 <= i < targets_for(f, defs, n).len(),
    ensures
        targets_for(f, defs, n)[i].kind == f.kind,
        spec_visibility_reduction(f.kind) == Some(targets_for(f, defs, n)[i].replacement),
    decreases n,
{
    if n > 0 {
        let before = targets_for(f, defs, n - 1);
        if i < before.len() {
            lemma_targets_for_members(f, defs, n - 1, i);
        }
    }
}

/// Every fix target of a list of findings comes from one of them: it carries
/// that finding's kind and the visibility the kind proposes.
proof fn lemma_targets_of_members(findings: Seq<Finding>, defs: Seq<Definition>, i: int) -> (j: int)
    requires
        0 <= i < targets_of(findings, defs).len(),
    ensures
        0 <= j < findings.len(),
        targets_of(findings, defs)[i].kind == findings[j].kind,
        spec_visibility_reduction(findings[j].kind) == Some(targets_of(findings, defs)[i].replacement),
    decreases findings.len(),
{
    let before = targets_of(findings.drop_last(), defs);
    if i < before.len() {
        let j = lemma_targets_of_members(findings.drop_last(), defs, i);
        j
    } else {
        lemma_targets_for_members(findings.last(), defs, defs.len() as int, i - before.len());
        findings.len() - 1
    }
}

/// Fixes apply only to enabled narrowing findings: a dead public declaration
/// is never fixed, a finding whose lint is allowed is never fixed, rounds
/// after the first do not narrow public visibility, and every target
/// receives the visibility that its finding kind proposes. This holds of
/// every plan of a fix round, whichever side it selects.
pub proof fn lemma_fix_targets_are_enabled_narrowings(
    findings: Seq<Finding>,
    levels: Seq<(crate::lint::LintSelector, LintLevel)>,
    round: nat,
    which: int,
    defs: Seq<Definition>,
    i: int,
)
    requires
        0 <= i < targets_of(findings.filter(|f: Finding| fix_selection(levels, round, which, f)), defs).len(),
    ensures
        ({
            let t = targets_of(findings.filter(|f: Finding| fix_selection(levels, round, which, f)), defs)[i];
            &&& t.kind != FindingKind::DeadPublic
            &&& level_after(levels, levels.len() as int, DiagnosticKind::Finding(t.kind)) != LintLevel::Allow
            &&& round > 0 ==> t.kind != FindingKind::UnnecessaryPublic
            &&& spec_visibility_reduction(t.kind) == Some(t.replacement)
        }),
{
    let selected = findings.filter(|f: Finding| fix_selection(levels, round, which, f));
    let j = lemma_targets_of_members(selected, defs, i);
    findings.lemma_filter_pred(|f: Finding| fix_selection(levels, round, which, f), j);
}

/// Each of the first `n` definitions that has the identity of a narrowing
/// finding's declaration is one of the finding's fix targets.
proof fn lemma_targets_for_contains(
    f: Finding,
    defs: Seq<Definition>,
    n: int,
    k: int,
    r: crate::model::VisibilityReduction,
)
    requires
        0 <= k < n <= defs.len(),
        spec_visibility_reduction(f.kind) == Some(r),
        definition_identity_view(defs[k]) == definition_identity_view(*f.definition),
    ensures
        targets_for(f, defs, n).contains(target_of(defs[k], f, r)),
    decreases n,
{
    let all = targets_for(f, defs, n);
    let before = targets_for(f, defs, n - 1);
    if k < n - 1 {
        lemma_targets_for_contains(f, defs, n - 1, k, r);
        let m = choose|m: int| 0 <= m < before.len() && before[m] == target_of(defs[k], f, r);
        assert(all[m] == before[m]);
    } else {
        assert(all == before.push(target_of(defs[k], f, r)));
        assert(all[all.len() - 1] == target_of(defs[k], f, r));
    }
}

/// The fix targets of any one of the findings are among the fix targets of
/// them all.
proof fn lemma_targets_of_contains(findings: Seq<Finding>, defs: Seq<Definition>, j: int, t: FixTarget)
    requires
        0 <= j < findings.len(),
        targets_for(findings[j], defs, defs.len() as int).contains(t),
    ensures
        targets_of(findings, defs).contains(t),
    decreases findings.len(),
{
    let before = targets_of(findings.drop_last(), defs);
    let last = targets_for(findings.last(), defs, defs.len() as int);
    assert(targets_of(findings, defs) == before + last);
    if j < findings.len() - 1 {
        assert(findings.drop_last()[j] == findings[j]);
        lemma_targets_of_contains(findings.drop_last(), defs, j, t);
        let m = choose|m: int| 0 <= m < before.len() && before[m] == t;
        assert((before + last)[m] == t);
    } else {
        let m = choose|m: int| 0 <= m < last.len() && last[m] == t;
        assert((before + last)[before.len() + m] == t);
    }
}

/// Every emitted narrowing finding is fixed. When a finding's lint is not
/// allowed and it narrows crate visibility (to `pub(super)`), restricted
/// visibility (to private) or, in the first round only, public visibility
/// (to `pub(crate)`), every definition with the identity of its declaration
/// is a target, with that visibility, of each plan of the round whose side
/// the finding is on: the production plan (`which == 0`) for a finding that
/// concerns no test, the test plan (`which == 1`) for one that does, and the
/// emission plans (`which == 2`) for every such finding.
pub proof fn lemma_enabled_narrowings_are_fixed(
    findings: Seq<Finding>,
    levels: Seq<(crate::lint::LintSelector, LintLevel)>,
    round: nat,
    which: int,
    defs: Seq<Definition>,
    j: int,
    k: int,
)
    requires
        0 <= j < findings.len(),
        0 <= k < defs.len(),
        level_after(levels, levels.len() as int, DiagnosticKind::Finding(findings[j].kind)) != LintLevel::Allow,
        findings[j].kind == FindingKind::UnnecessaryCrateVisibility || findings[j].kind
            == FindingKind::UnnecessaryRestrictedVisibility || (round == 0 && findings[j].kind
            == FindingKind::UnnecessaryPublic),
        which == 2 || (which == 1) == (findings[j].test_only || findings[j].test_compiled_only),
        definition_identity_view(defs[k]) == definition_identity_view(*findings[j].definition),
    ensures
        targets_of(findings.filter(|f: Finding| fix_selection(levels, round, which, f)), defs).contains(
            target_of(
                defs[k],
                findings[j],
                if findings[j].kind == FindingKind::UnnecessaryCrateVisibility {
                    crate::model::VisibilityReduction::Super
                } else if findings[j].kind == FindingKind::UnnecessaryRestrictedVisibility {
                    crate::model::VisibilityReduction::Private
                } else {
                    crate::model::VisibilityReduction::Crate
                },
            ),
        ),
{
    let pred = |f: Finding| fix_selection(levels, round, which, f);
    let selected = findings.filter(pred);
    let f = findings[j];
    let r = spec_visibility_reduction(f.kind).unwrap();
    assert(pred(f));
    findings.lemma_filter_contains(pred, j);
    let m = choose|m: int| 0 <= m < selected.len() && selected[m] == f;
    lemma_targets_for_contains(f, defs, defs.len() as int, k, r);
    lemma_targets_of_contains(selected, defs, m, target_of(defs[k], f, r));
}

/// The definitions of the first `q + 1` fragments extend those of the
/// first `q` by the definitions of fragment `q`.
proof fn lemma_fragment_definitions_prefix(fs: Seq<Fragment>, q: int)
    requires
        0 <= q < fs.len(),
    ensures
        fragment_definitions(fs.take(q + 1)) == fragment_definitions(fs.take(q)) + fs[q].definitions@,
        fragment_definitions(fs.take(q + 1)).len() <= fragment_definitions(fs).len(),
        fragment_definitions(fs.take(q + 1)) == fragment_definitions(fs).take(
            fragment_definitions(fs.take(q + 1)).len() as int,
        ),
    decreases fs.len() - q,
{
    assert(fs.take(q + 1).drop_last() =~= fs.take(q));
    if q + 1 < fs.len() {
        lemma_fragment_definitions_prefix(fs, q + 1);
    } else {
        assert(fs.take(q + 1) =~= fs);
    }
}

/// The fix plan of the findings: for each finding that proposes a
/// visibility, every definition of the fragments with the identity of its
/// declaration.
pub fn fix_plan_for(findings: &[Finding], fragments: &[Fragment]) -> (r: FixPlan)
    ensures
        r.targets@ == targets_of(findings@, fragment_definitions(fragments@)),
{
    let mut targets: Vec<FixTarget> = Vec::new();
    let mut i: usize = 0;
    while i < findings.len()
        invariant
            i <= findings@.len(),
            targets@ == targets_of(findings@.take(i as int), fragment_definitions(fragments@)),
        decreases findings@.len() - i,
    {
        push_targets_for(&mut targets, &findings[i], fragments);
        proof {
            assert(findings@.take(i + 1).drop_last() =~= findings@.take(i as int));
        }
        i = i + 1;
    }
    proof {
        assert(findings@.take(i as int) =~= findings@);
    }
    FixPlan { protocol_version: ProtocolVersion, targets }
}

/// Whether a fix may change the finding's declaration: its diagnostic is
/// emitted, and it narrows restricted or crate visibility, or, in the first
/// round only, public visibility. Making unreachable public surface
/// `pub(crate)` could start rustc's `dead_code` lint, so dead declarations
/// are never fixed, and later rounds do not narrow public visibility again.
pub open spec fn fixable(levels: Seq<(crate::lint::LintSelector, LintLevel)>, round: nat, f: Finding) -> bool {
    &&& level_after(levels, levels.len() as int, DiagnosticKind::Finding(f.kind)) != LintLevel::Allow
    &&& (f.kind == FindingKind::UnnecessaryRestrictedVisibility || f.kind == FindingKind::UnnecessaryCrateVisibility
        || (round == 0 && f.kind == FindingKind::UnnecessaryPublic))
}

/// A finding that concerns only tests.
pub open spec fn concerns_tests(f: Finding) -> bool {
    f.test_only || f.test_compiled_only
}

/// The plans of one fix round: the production and test plans decide whether
/// a mode is fixed; the emission plans, which project every fixable finding
/// onto each mode's graph, are what each fix compilation applies, since a
/// grouped `pub use` shares one visibility among aliases that different
/// modes approve.
pub struct FixRound {
    pub production_fix: FixPlan,
    pub test_fix: FixPlan,
    pub production_emission: FixPlan,
    pub test_emission: FixPlan,
}

/// A copy of a finding.
fn copy_finding<'a>(f: &Finding<'a>) -> (r: Finding<'a>)
    ensures
        r == *f,
{
    Finding { kind: f.kind, definition: f.definition, test_only: f.test_only, test_compiled_only: f.test_compiled_only }
}

/// The fixable findings that concern production (`which == 0`), tests
/// (`which == 1`), or either (`which == 2`).
pub open spec fn fix_selection(levels: Seq<(crate::lint::LintSelector, LintLevel)>, round: nat, which: int, f: Finding) -> bool {
    fixable(levels, round, f) && (which == 2 || (which == 1) == concerns_tests(f))
}

/// The findings of a fix selection.
fn select<'a>(findings: &[Finding<'a>], levels: &LintLevels, round: usize, which: u8) -> (r: Vec<Finding<'a>>)
    requires
        which <= 2,
    ensures
        r@ == findings@.filter(|f: Finding| fix_selection(levels@, round as nat, which as int, f)),
{
    let mut r: Vec<Finding<'a>> = Vec::new();
    let mut i: usize = 0;
    while i < findings.len()
        invariant
            which <= 2,
            i <= findings@.len(),
            r@ == findings@.take(i as int).filter(|f: Finding| fix_selection(levels@, round as nat, which as int, f)),
        decreases findings@.len() - i,
    {
        let f = &findings[i];
        let emitted = levels.level(DiagnosticKind::Finding(f.kind)).is_emitted();
        let narrows = f.kind == FindingKind::UnnecessaryRestrictedVisibility || f.kind
            == FindingKind::UnnecessaryCrateVisibility || (round == 0 && f.kind == FindingKind::UnnecessaryPublic);
        let side = which == 2 || ((which == 1) == (f.test_only || f.test_compiled_only));
        proof {
            reveal(Seq::filter);
            assert(findings@.take(i + 1).drop_last() =~= findings@.take(i as int));
        }
        if emitted && narrows && side {
            r.push(copy_finding(f));
        }
        i = i + 1;
    }
    proof {
        assert(findings@.take(i as int) =~= findings@);
    }
    r
}

/// The plans of fix round `round` for the findings of an analysis of the
/// production and test fragments.
pub fn plan_fixes(
    findings: &[Finding],
    levels: &LintLevels,
    round: usize,
    production_fragments: &[Fragment],
    test_fragments: &[Fragment],
) -> (r: FixRound)
    ensures
        r.production_fix.targets@ == targets_of(
            findings@.filter(|f: Finding| fix_selection(levels@, round as nat, 0, f)),
            fragment_definitions(production_fragments@),
        ),
        r.test_fix.targets@ == targets_of(
            findings@.filter(|f: Finding| fix_selection(levels@, round as nat, 1, f)),
            fragment_definitions(test_fragments@),
        ),
        r.production_emission.targets@ == targets_of(
            findings@.filter(|f: Finding| fix_selection(levels@, round as nat, 2, f)),
            fragment_definitions(production_fragments@),
        ),
        r.test_emission.targets@ == targets_of(
            findings@.filter(|f: Finding| fix_selection(levels@, round as nat, 2, f)),
            fragment_definitions(test_fragments@),
        ),
{
    let production_findings = select(findings, levels, round, 0);
    let test_findings = select(findings, levels, round, 1);
    let all_findings = select(findings, levels, round, 2);
    FixRound {
        production_fix: fix_plan_for(production_findings.as_slice(), production_fragments),
        test_fix: fix_plan_for(test_findings.as_slice(), test_fragments),
        production_emission: fix_plan_for(all_findings.as_slice(), production_fragments),
        test_emission: fix_plan_for(all_findings.as_slice(), test_fragments),
    }
}

} // verus!
