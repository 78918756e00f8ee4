//! The analysis of merged graph fragments.

use vstd::prelude::*;

use crate::graphs::group_members;
use crate::identity::identity_facts;
use crate::liveness::live_nodes;
use crate::model::{Finding, Fragment};
use crate::numbering::lay_out;
use crate::order::sort_findings;
use crate::report::{finding_views, public_pass, restricted_pass, suppress_protected_fields, Analysis};
use crate::resolve::{equivalence_groups, last_definitions};
use crate::scoping::required_scopes;
use crate::semantics::{raw_findings, stably_sorted};
use crate::visibility::required_public_nodes;

verus! {

/// Reports the public and restricted declarations of the candidate crates
/// whose visibility can shrink, sorted by source location.
///
/// `production_fragments` describe the product's compilations and
/// `test_fragments` the test compilations; declarations of crates outside
/// `candidate_crates`, or inside `excluded_crates`, are never reported.
pub fn analyze<'a>(
    production_fragments: &'a [Fragment],
    test_fragments: &'a [Fragment],
    candidate_crates: &Vec<String>,
    excluded_crates: &Vec<String>,
) -> (findings: Vec<Finding<'a>>)
    requires
        production_fragments@.len() + test_fragments@.len() <= usize::MAX,
    ensures
        stably_sorted(
            raw_findings(production_fragments@, test_fragments@, candidate_crates@, excluded_crates@, false),
            finding_views(findings@),
        ),
{
    analyze_with_options(production_fragments, test_fragments, candidate_crates, excluded_crates, false)
}

/// Like `analyze`; with `preserve_uniform_field_visibility`, a field is not
/// narrowed while another field of its uniform visibility group needs the
/// visibility that they share.
pub fn analyze_with_options<'a>(
    production_fragments: &'a [Fragment],
    test_fragments: &'a [Fragment],
    candidate_crates: &Vec<String>,
    excluded_crates: &Vec<String>,
    preserve_uniform_field_visibility: bool,
) -> (findings: Vec<Finding<'a>>)
    requires
        production_fragments@.len() + test_fragments@.len() <= usize::MAX,
    ensures
        stably_sorted(
            raw_findings(
                production_fragments@,
                test_fragments@,
                candidate_crates@,
                excluded_crates@,
                preserve_uniform_field_visibility,
            ),
            finding_views(findings@),
        ),
{
    let ghost p = production_fragments@;
    let ghost t = test_fragments@;
    let layout = lay_out(production_fragments, test_fragments);
    let rep = last_definitions(&layout, Ghost(p), Ghost(t));
    let grp = equivalence_groups(&layout, &rep, Ghost(p), Ghost(t));
    let members = group_members(&grp);
    let np = production_fragments.len();
    let production_live = live_nodes(&layout, &rep, &grp, &members, true, np, Ghost(p), Ghost(t));
    let test_live = live_nodes(&layout, &rep, &grp, &members, false, np, Ghost(p), Ghost(t));
    let required = required_public_nodes(&layout, &rep, &grp, &members, production_fragments, test_fragments);
    let scopes = required_scopes(&layout, &rep, &grp, &members, Ghost(p), Ghost(t));
    let identity = identity_facts(&layout, production_fragments, test_fragments);
    let a = Analysis { layout, rep, grp, members, production_live, test_live, required, scopes, identity };
    let (mut found, judged) = public_pass(&a, candidate_crates, excluded_crates, Ghost(p), Ghost(t));
    let restricted = restricted_pass(&a, candidate_crates, excluded_crates, &judged, Ghost(p), Ghost(t));
    let ghost first = finding_views(found@);
    let mut k: usize = 0;
    while k < restricted.len()
        invariant
            k <= restricted@.len(),
            finding_views(found@) == first + finding_views(restricted@).take(k as int),
        decreases restricted@.len() - k,
    {
        let f = &restricted[k];
        let ghost before = found@;
        found.push(Finding {
            kind: f.kind,
            definition: f.definition,
            test_only: f.test_only,
            test_compiled_only: f.test_compiled_only,
        });
        proof {
            assert(finding_views(found@) =~= finding_views(before).push(finding_views(restricted@)[k as int]));
            assert(finding_views(restricted@).take(k + 1) =~= finding_views(restricted@).take(k as int).push(
                finding_views(restricted@)[k as int],
            ));
        }
        k = k + 1;
    }
    proof {
        assert(finding_views(restricted@).take(k as int) =~= finding_views(restricted@));
    }
    if preserve_uniform_field_visibility {
        let kept = suppress_protected_fields(&a, &found, Ghost(p), Ghost(t));
        sort_findings(&kept)
    } else {
        sort_findings(&found)
    }
}

} // verus!
