//! Properties of lint levels and overrides: how options and overrides
//! decide what is reported.

use vstd::prelude::*;

use crate::config::{
    is_active, overridden, override_report, selector_applies, selects_finding, selects_many, selects_none,
    AnalysisTarget, ConfigDiagnosticKind, LintOverride, OverrideLevel,
};
use crate::invocation::crate_name_text;
use crate::lint::{diagnostic_code, level_after, lemma_diagnostic_code_injective, selector_named, DiagnosticKind, LintLevel, LintSelector};
use crate::model::{Finding, Fragment};

verus! {

/// The last option that names a diagnostic decides its level, whatever came
/// before.
pub proof fn lemma_last_named_option_decides(
    options: Seq<(LintSelector, LintLevel)>,
    k: DiagnosticKind,
    level: LintLevel,
)
    ensures
        ({
            let more = options.push((LintSelector::Diagnostic(k), level));
            level_after(more, more.len() as int, k) == level
        }),
{
    let more = options.push((LintSelector::Diagnostic(k), level));
    assert(more[more.len() - 1] == (LintSelector::Diagnostic(k), level));
}

/// The `warnings` group changes only diagnostics that are emitted at that
/// point: an allowed diagnostic stays allowed, so `-D warnings` does not
/// enable an opt-in lint.
pub proof fn lemma_warnings_keep_allowed(options: Seq<(LintSelector, LintLevel)>, k: DiagnosticKind, level: LintLevel)
    requires
        level_after(options, options.len() as int, k) == LintLevel::Allow,
    ensures
        ({
            let more = options.push((LintSelector::Warnings, level));
            level_after(more, more.len() as int, k) == LintLevel::Allow
        }),
{
    let more = options.push((LintSelector::Warnings, level));
    assert(more.drop_last() =~= options);
    lemma_level_prefix(options, more, k, options.len() as int);
}

/// Levels after a prefix of the options agree with the levels after the
/// same prefix of a longer option list.
proof fn lemma_level_prefix(
    a: Seq<(LintSelector, LintLevel)>,
    b: Seq<(LintSelector, LintLevel)>,
    k: DiagnosticKind,
    n: int,
)
    requires
        0 <= n <= a.len() <= b.len(),
        forall|i: int| 0 <= i < a.len() ==> a[i] == b[i],
    ensures
        level_after(a, n, k) == level_after(b, n, k),
    decreases n,
{
    if n > 0 {
        lemma_level_prefix(a, b, k, n - 1);
    }
}

/// The `warnings` group sets the level of an emitted diagnostic.
pub proof fn lemma_warnings_set_emitted(options: Seq<(LintSelector, LintLevel)>, k: DiagnosticKind, level: LintLevel)
    requires
        level_after(options, options.len() as int, k) != LintLevel::Allow,
    ensures
        ({
            let more = options.push((LintSelector::Warnings, level));
            level_after(more, more.len() as int, k) == level
        }),
{
    let more = options.push((LintSelector::Warnings, level));
    lemma_level_prefix(options, more, k, options.len() as int);
}

/// The lint code of each diagnostic names that diagnostic as a lint-level
/// selector.
pub proof fn lemma_selector_round_trip(k: DiagnosticKind)
    ensures
        selector_named(diagnostic_code(k)) == Some(LintSelector::Diagnostic(k)),
{
    reveal_strlit("warnings");
    reveal_strlit("hawk::dead_public");
    reveal_strlit("hawk::unnecessary_public");
    reveal_strlit("hawk::unnecessary_restricted_visibility");
    reveal_strlit("hawk::unnecessary_crate_visibility");
    reveal_strlit("hawk::unknown_item");
    reveal_strlit("hawk::ambiguous_item");
    reveal_strlit("hawk::unfulfilled_expectation");
    assert(diagnostic_code(k).len() > 8);
    assert(diagnostic_code(k) != "warnings"@);
    let c = choose|c: DiagnosticKind| diagnostic_code(c) == diagnostic_code(k);
    lemma_diagnostic_code_injective(c, k);
}

/// An override reports nothing and suppresses nothing on a target its
/// selector rejects.
pub proof fn lemma_inapplicable_override_is_silent(
    e: LintOverride,
    target: AnalysisTarget,
    fs: Seq<Fragment>,
    findings: Seq<Finding>,
)
    requires
        !selector_applies(e.target, target),
    ensures
        override_report(e, target, fs, findings) is None,
        !is_active(e, target, fs),
{
}

/// An override that names no compiled item, or items of several kinds,
/// suppresses no finding and reports why.
pub proof fn lemma_unidentified_override_suppresses_nothing(
    e: LintOverride,
    target: AnalysisTarget,
    fs: Seq<Fragment>,
    findings: Seq<Finding>,
)
    requires
        selector_applies(e.target, target),
        selects_none(fs, e) || selects_many(fs, e),
    ensures
        !is_active(e, target, fs),
        override_report(e, target, fs, findings) == Some(
            if selects_none(fs, e) {
                ConfigDiagnosticKind::UnknownItem
            } else {
                ConfigDiagnosticKind::AmbiguousItem
            },
        ),
{
}

/// An active override suppresses every finding it selects; an active
/// expectation is reported unfulfilled exactly when it selects no finding,
/// and an active allowance is never reported.
pub proof fn lemma_active_override(
    es: Seq<LintOverride>,
    i: int,
    target: AnalysisTarget,
    fs: Seq<Fragment>,
    findings: Seq<Finding>,
    f: Finding,
)
    requires
        0 <= i < es.len(),
        is_active(es[i], target, fs),
    ensures
        selects_finding(es[i], f) ==> overridden(es, target, fs, f),
        es[i].level == OverrideLevel::Expect ==> (override_report(es[i], target, fs, findings) == Some(
            ConfigDiagnosticKind::UnfulfilledExpectation,
        ) <==> !exists|x: int| 0 <= x < findings.len() && selects_finding(es[i], #[trigger] findings[x])),
        es[i].level == OverrideLevel::Allow ==> override_report(es[i], target, fs, findings) is None,
{
}

/// Crate names have no `-`, so naming a crate name again changes nothing.
pub proof fn lemma_crate_name_idempotent(name: Seq<char>)
    ensures
        crate_name_text(crate_name_text(name)) == crate_name_text(name),
{
    assert(crate_name_text(crate_name_text(name)) =~= crate_name_text(name));
}

} // verus!
