//! Lint levels: which diagnostics are emitted, and how severely, after the
//! `--allow`, `--warn` and `--deny` options in command-line order.

use vstd::prelude::*;
use vstd::string::StringExecFns;

use crate::config::{config_code, ConfigDiagnosticKind};
use crate::model::{finding_code, FindingKind};
use crate::text::str_eq;

verus! {

/// How a diagnostic is treated.
#[derive(Clone, Copy, Debug, PartialEq, Eq, Structural)]
pub enum LintLevel {
    /// Do not emit the diagnostic.
    Allow,
    /// Report the diagnostic without failing.
    Warn,
    /// Report the diagnostic as an error and fail.
    Deny,
}

impl Default for LintLevel {
    fn default() -> (r: Self)
        ensures
            r == LintLevel::Warn,
    {
        LintLevel::Warn
    }
}

/// The severity word of an emitted level.
pub open spec fn severity_text(level: LintLevel) -> Seq<char> {
    match level {
        LintLevel::Deny => "error"@,
        _ => "warning"@,
    }
}

impl LintLevel {
    /// The severity word of an emitted diagnostic.
    pub fn severity(self) -> (r: &'static str)
        requires
            self != LintLevel::Allow,
        ensures
            r@ == severity_text(self),
    {
        match self {
            LintLevel::Deny => "error",
            _ => "warning",
        }
    }

    /// Whether diagnostics at this level are emitted.
    pub fn is_emitted(self) -> (r: bool)
        ensures
            r == (self != LintLevel::Allow),
    {
        self != LintLevel::Allow
    }
}

/// A diagnostic that the lint levels control: a finding or a configuration
/// diagnostic.
#[derive(Clone, Copy, Debug, PartialEq, Eq, Structural)]
pub enum DiagnosticKind {
    Finding(FindingKind),
    Config(ConfigDiagnosticKind),
}

/// The lint code of a diagnostic.
pub open spec fn diagnostic_code(k: DiagnosticKind) -> Seq<char> {
    match k {
        DiagnosticKind::Finding(f) => finding_code(f),
        DiagnosticKind::Config(c) => config_code(c),
    }
}

/// The level of a diagnostic that no option changes: the crate-visibility
/// lint is opt-in, every other diagnostic warns.
pub open spec fn spec_default_level(k: DiagnosticKind) -> LintLevel {
    if k == DiagnosticKind::Finding(FindingKind::UnnecessaryCrateVisibility) {
        LintLevel::Allow
    } else {
        LintLevel::Warn
    }
}

impl DiagnosticKind {
    /// The diagnostic whose lint code is `code`.
    pub fn from_code(code: &str) -> (r: Option<Self>)
        ensures
            match r {
                Some(k) => diagnostic_code(k) == code@,
                None => forall|k: DiagnosticKind| diagnostic_code(k) != code@,
            },
    {
        match FindingKind::from_code(code) {
            Some(k) => Some(DiagnosticKind::Finding(k)),
            None => match ConfigDiagnosticKind::from_code(code) {
                Some(k) => Some(DiagnosticKind::Config(k)),
                None => {
                    proof {
                        assert forall|k: DiagnosticKind| diagnostic_code(k) != code@ by {
                            match k {
                                DiagnosticKind::Finding(f) => {},
                                DiagnosticKind::Config(c) => {},
                            }
                        }
                    }
                    None
                },
            },
        }
    }

    /// The level of this diagnostic when no option changes it.
    pub fn default_level(self) -> (r: LintLevel)
        ensures
            r == spec_default_level(self),
    {
        match self {
            DiagnosticKind::Finding(FindingKind::UnnecessaryCrateVisibility) => LintLevel::Allow,
            _ => LintLevel::Warn,
        }
    }
}

impl From<FindingKind> for DiagnosticKind {
    fn from(kind: FindingKind) -> (r: Self) {
        DiagnosticKind::Finding(kind)
    }
}

impl vstd::std_specs::convert::FromSpecImpl<FindingKind> for DiagnosticKind {
    open spec fn obeys_from_spec() -> bool {
        true
    }

    open spec fn from_spec(kind: FindingKind) -> Self {
        DiagnosticKind::Finding(kind)
    }
}

impl From<ConfigDiagnosticKind> for DiagnosticKind {
    fn from(kind: ConfigDiagnosticKind) -> (r: Self) {
        DiagnosticKind::Config(kind)
    }
}

impl vstd::std_specs::convert::FromSpecImpl<ConfigDiagnosticKind> for DiagnosticKind {
    open spec fn obeys_from_spec() -> bool {
        true
    }

    open spec fn from_spec(kind: ConfigDiagnosticKind) -> Self {
        DiagnosticKind::Config(kind)
    }
}

/// What a lint-level option names: the `warnings` group or one diagnostic.
#[derive(Clone, Copy, Debug, PartialEq, Eq, Structural)]
pub enum LintSelector {
    Warnings,
    Diagnostic(DiagnosticKind),
}

/// The selector that the text of a lint-level option names, if any.
pub open spec fn selector_named(text: Seq<char>) -> Option<LintSelector> {
    if text == "warnings"@ {
        Some(LintSelector::Warnings)
    } else if exists|k: DiagnosticKind| diagnostic_code(k) == text {
        Some(LintSelector::Diagnostic(choose|k: DiagnosticKind| diagnostic_code(k) == text))
    } else {
        None
    }
}

/// The message of an unknown lint selector.
pub open spec fn unknown_selector_message(text: Seq<char>) -> Seq<char> {
    "unknown lint selector `"@ + text + "`; expected `warnings` or a `hawk::...` diagnostic name"@
}

/// Distinct diagnostics have distinct lint codes.
pub proof fn lemma_diagnostic_code_injective(a: DiagnosticKind, b: DiagnosticKind)
    ensures
        diagnostic_code(a) == diagnostic_code(b) ==> a == b,
{
    reveal_strlit("hawk::dead_public");
    reveal_strlit("hawk::unnecessary_public");
    reveal_strlit("hawk::unnecessary_restricted_visibility");
    reveal_strlit("hawk::unnecessary_crate_visibility");
    reveal_strlit("hawk::unknown_item");
    reveal_strlit("hawk::ambiguous_item");
    reveal_strlit("hawk::unfulfilled_expectation");
    match (a, b) {
        (DiagnosticKind::Finding(x), DiagnosticKind::Finding(y)) => {
            crate::model::lemma_finding_code_injective(x, y);
        },
        (DiagnosticKind::Config(x), DiagnosticKind::Config(y)) => {
            crate::config::lemma_config_code_injective(x, y);
        },
        (DiagnosticKind::Finding(x), DiagnosticKind::Config(y)) => {
            if diagnostic_code(a) == diagnostic_code(b) {
                assert(diagnostic_code(a)[6] != diagnostic_code(b)[6] || diagnostic_code(a).len() != diagnostic_code(
                    b,
                ).len());
            }
        },
        (DiagnosticKind::Config(x), DiagnosticKind::Finding(y)) => {
            if diagnostic_code(a) == diagnostic_code(b) {
                assert(diagnostic_code(a)[6] != diagnostic_code(b)[6] || diagnostic_code(a).len() != diagnostic_code(
                    b,
                ).len());
            }
        },
    }
}

impl LintSelector {
    /// The selector named by the text of a lint-level option: `warnings` or
    /// a diagnostic's lint code.
    pub fn parse(selector: &str) -> (r: Result<Self, String>)
        ensures
            match r {
                Ok(s) => selector_named(selector@) == Some(s),
                Err(message) => selector_named(selector@) is None && message@ == unknown_selector_message(selector@),
            },
    {
        if str_eq(selector, "warnings") {
            return Ok(LintSelector::Warnings);
        }
        match DiagnosticKind::from_code(selector) {
            Some(k) => {
                proof {
                    let c = choose|c: DiagnosticKind| diagnostic_code(c) == selector@;
                    lemma_diagnostic_code_injective(c, k);
                }
                Ok(LintSelector::Diagnostic(k))
            },
            None => {
                let mut message = String::from_str("unknown lint selector `");
                message.append(selector);
                message.append("`; expected `warnings` or a `hawk::...` diagnostic name");
                Err(message)
            },
        }
    }
}

/// The level after one option: an option naming the diagnostic sets its
/// level, and an option naming `warnings` sets the level of a diagnostic
/// that is emitted at that point.
pub open spec fn apply_option(level: LintLevel, option: (LintSelector, LintLevel), k: DiagnosticKind) -> LintLevel {
    if option.0 == LintSelector::Diagnostic(k) || (option.0 == LintSelector::Warnings && level != LintLevel::Allow) {
        option.1
    } else {
        level
    }
}

/// The level of a diagnostic after the first `n` options, in order.
pub open spec fn level_after(options: Seq<(LintSelector, LintLevel)>, n: int, k: DiagnosticKind) -> LintLevel
    decreases n,
{
    if n <= 0 {
        spec_default_level(k)
    } else {
        apply_option(level_after(options, n - 1, k), options[n - 1], k)
    }
}

/// Only the crate-visibility lint is opt-in: with no options it is allowed
/// and every other diagnostic, each configuration diagnostic among them, is
/// emitted as a warning; `-D warnings` alone then makes each of those an
/// error and leaves the crate-visibility lint allowed.
pub proof fn lemma_only_crate_visibility_is_opt_in(k: DiagnosticKind)
    ensures
        (level_after(Seq::empty(), 0, k) == LintLevel::Allow) == (k == DiagnosticKind::Finding(
            FindingKind::UnnecessaryCrateVisibility,
        )),
        k != DiagnosticKind::Finding(FindingKind::UnnecessaryCrateVisibility) ==> level_after(
            Seq::empty(),
            0,
            k,
        ) == LintLevel::Warn,
        k is Config ==> level_after(Seq::empty(), 0, k) == LintLevel::Warn,
        k != DiagnosticKind::Finding(FindingKind::UnnecessaryCrateVisibility) ==> level_after(
            seq![(LintSelector::Warnings, LintLevel::Deny)],
            1,
            k,
        ) == LintLevel::Deny,
        level_after(seq![(LintSelector::Warnings, LintLevel::Deny)], 1, DiagnosticKind::Finding(
            FindingKind::UnnecessaryCrateVisibility,
        )) == LintLevel::Allow,
{
    let options = seq![(LintSelector::Warnings, LintLevel::Deny)];
    let crate_visibility = DiagnosticKind::Finding(FindingKind::UnnecessaryCrateVisibility);
    assert(level_after(options, 0, k) == level_after(Seq::empty(), 0, k));
    assert(level_after(options, 0, crate_visibility) == LintLevel::Allow);
    assert(level_after(options, 1, crate_visibility) == apply_option(LintLevel::Allow, options[0], crate_visibility));
}

/// The lint-level options, in command-line order.
#[derive(Debug)]
pub struct LintLevels {
    overrides: Vec<(LintSelector, LintLevel)>,
}

impl View for LintLevels {
    type V = Seq<(LintSelector, LintLevel)>;

    closed spec fn view(&self) -> Seq<(LintSelector, LintLevel)> {
        self.overrides@
    }
}

impl Default for LintLevels {
    fn default() -> (r: Self)
        ensures
            r@.len() == 0,
    {
        LintLevels { overrides: Vec::new() }
    }
}

/// `order` lists the positions of `keys`, each once, by key, and keeps
/// equal keys in position order.
pub open spec fn index_order(keys: Seq<usize>, order: Seq<usize>) -> bool {
    &&& order.len() == keys.len()
    &&& forall|x: int| 0 <= x < order.len() ==> #[trigger] order[x] < keys.len()
    &&& forall|x: int, y: int| 0 <= x < y < order.len() ==> #[trigger] order[x] != #[trigger] order[y]
    &&& forall|x: int, y: int|
        0 <= x < y < order.len() ==> keys[#[trigger] order[x] as int] <= keys[#[trigger] order[y] as int]
    &&& forall|x: int, y: int|
        0 <= x < y < order.len() && keys[#[trigger] order[x] as int] == keys[#[trigger] order[y] as int] ==> order[x]
            < order[y]
}

/// The positions of the keys, sorted by key and stable.
fn sort_positions(keys: &Vec<usize>) -> (order: Vec<usize>)
    ensures
        index_order(keys@, order@),
{
    let n = keys.len();
    let mut order: Vec<usize> = Vec::new();
    let mut i: usize = 0;
    while i < n
        invariant
            n == keys@.len(),
            i <= n,
            index_order(keys@.take(i as int), order@),
        decreases n - i,
    {
        let ghost before = order@;
        let mut q = order.len();
        while q > 0 && keys[order[q - 1]] > keys[i]
            invariant
                n == keys@.len(),
                i < n,
                order@ == before,
                index_order(keys@.take(i as int), before),
                q <= before.len(),
                forall|z: int| q <= z < before.len() ==> keys@[#[trigger] before[z] as int] > keys@[i as int],
            decreases q,
        {
            proof {
                assert(keys@.take(i as int)[before[q - 1] as int] == keys@[before[q - 1] as int]);
            }
            q = q - 1;
        }
        order.insert(q, i);
        proof {
            let ks = keys@.take(i + 1);
            let old_ks = keys@.take(i as int);
            assert forall|x: int| 0 <= x < i implies ks[x] == old_ks[x] && ks[x] == keys@[x] by {}
            assert(ks[i as int] == keys@[i as int]);
            assert forall|z: int| 0 <= z <= before.len() implies order@[z] == if z < q {
                before[z]
            } else if z == q {
                i
            } else {
                before[z - 1]
            } by {
                before.insert_ensures(q as int, i);
                if z > q {
                    assert(order@[(z - 1) + 1] == before[z - 1]);
                }
            }
            assert forall|x: int| 0 <= x < order@.len() implies #[trigger] order@[x] < ks.len() by {}
            assert forall|x: int, y: int| 0 <= x < y < order@.len() implies #[trigger] order@[x] != #[trigger] order@[y] by {
                if x < q && y > q {
                    assert(before[x] != before[y - 1]);
                }
            }
            assert forall|x: int, y: int|
                0 <= x < y < order@.len() implies ks[#[trigger] order@[x] as int] <= ks[#[trigger] order@[y] as int] by {
                if y == q && x < q {
                    if q > 0 {
                        assert(old_ks[before[x] as int] <= old_ks[before[q - 1] as int] || x == q - 1);
                    }
                } else if x == q {
                    assert(keys@[before[y - 1] as int] > keys@[i as int]);
                } else if x < q && y > q {
                    assert(old_ks[before[x] as int] <= old_ks[before[y - 1] as int]);
                } else if x > q {
                    assert(old_ks[before[x - 1] as int] <= old_ks[before[y - 1] as int]);
                } else {
                    assert(old_ks[before[x] as int] <= old_ks[before[y] as int]);
                }
            }
            assert forall|x: int, y: int|
                0 <= x < y < order@.len() && ks[#[trigger] order@[x] as int] == ks[#[trigger] order@[y] as int] implies order@[x]
                < order@[y] by {
                if x == q {
                    assert(keys@[before[y - 1] as int] > keys@[i as int]);
                } else if x < q && y > q {
                    assert(before[x] < before[y - 1] || old_ks[before[x] as int] != old_ks[before[y - 1] as int]);
                } else if x > q {
                    assert(before[x - 1] < before[y - 1] || old_ks[before[x - 1] as int] != old_ks[before[y - 1] as int]);
                } else if y < q {
                    assert(before[x] < before[y] || old_ks[before[x] as int] != old_ks[before[y] as int]);
                }
            }
        }
        i = i + 1;
    }
    proof {
        assert(keys@.take(n as int) =~= keys@);
    }
    order
}

/// The options sorted by their command-line positions, equal positions kept
/// in the order given.
pub open spec fn options_in_order(
    indexed: Seq<(usize, LintSelector, LintLevel)>,
    options: Seq<(LintSelector, LintLevel)>,
) -> bool {
    exists|order: Seq<usize>|
        index_order(indexed.map_values(|e: (usize, LintSelector, LintLevel)| e.0), order) && options.len() == order.len()
            && forall|x: int|
            0 <= x < options.len() ==> #[trigger] options[x] == (
                indexed[order[x] as int].1,
                indexed[order[x] as int].2,
            )
}

/// `indexed` holds the selectors that the written options name, with their
/// positions and levels.
pub open spec fn parsed_options(
    arguments: Seq<(usize, String, LintLevel)>,
    indexed: Seq<(usize, LintSelector, LintLevel)>,
) -> bool {
    &&& indexed.len() == arguments.len()
    &&& forall|i: int|
        0 <= i < indexed.len() ==> (#[trigger] indexed[i]).0 == arguments[i].0 && Some(indexed[i].1) == selector_named(
            arguments[i].1@,
        ) && indexed[i].2 == arguments[i].2
}

impl LintLevels {
    /// The lint levels of options given with their command-line positions,
    /// each naming a selector; the options count in position order. The
    /// first option, in the order given, whose selector is unknown refuses
    /// them all.
    pub fn from_indexed(arguments: &Vec<(usize, String, LintLevel)>) -> (r: Result<Self, String>)
        ensures
            match r {
                Ok(levels) => (forall|i: int|
                    0 <= i < arguments@.len() ==> selector_named((#[trigger] arguments@[i]).1@) is Some)
                    && exists|indexed: Seq<(usize, LintSelector, LintLevel)>|
                    #[trigger] parsed_options(arguments@, indexed) && options_in_order(indexed, levels@),
                Err(message) => exists|i: int|
                    0 <= i < arguments@.len() && (forall|j: int|
                        0 <= j < i ==> selector_named((#[trigger] arguments@[j]).1@) is Some) && selector_named(
                        arguments@[i].1@,
                    ) is None && message@ == unknown_selector_message(arguments@[i].1@),
            },
    {
        let mut parsed: Vec<(usize, LintSelector, LintLevel)> = Vec::new();
        let mut keys: Vec<usize> = Vec::new();
        let mut i: usize = 0;
        while i < arguments.len()
            invariant
                i <= arguments@.len(),
                parsed@.len() == i,
                keys@ == parsed@.map_values(|e: (usize, LintSelector, LintLevel)| e.0),
                forall|j: int| 0 <= j < i ==> selector_named((#[trigger] arguments@[j]).1@) is Some,
                forall|j: int|
                    0 <= j < i ==> (#[trigger] parsed@[j]).0 == arguments@[j].0 && Some(parsed@[j].1) == selector_named(
                        arguments@[j].1@,
                    ) && parsed@[j].2 == arguments@[j].2,
            decreases arguments@.len() - i,
        {
            let (index, text, level) = &arguments[i];
            match LintSelector::parse(text.as_str()) {
                Ok(selector) => {
                    let ghost before = parsed@;
                    parsed.push((*index, selector, *level));
                    keys.push(*index);
                    proof {
                        assert(keys@ =~= parsed@.map_values(|e: (usize, LintSelector, LintLevel)| e.0));
                    }
                },
                Err(message) => {
                    return Err(message);
                },
            }
            i = i + 1;
        }
        let order = sort_positions(&keys);
        let mut overrides: Vec<(LintSelector, LintLevel)> = Vec::new();
        let mut x: usize = 0;
        while x < order.len()
            invariant
                keys@ == parsed@.map_values(|e: (usize, LintSelector, LintLevel)| e.0),
                index_order(keys@, order@),
                x <= order@.len(),
                overrides@.len() == x,
                forall|z: int|
                    0 <= z < x ==> #[trigger] overrides@[z] == (parsed@[order@[z] as int].1, parsed@[order@[z] as int].2),
            decreases order@.len() - x,
        {
            let p = order[x];
            proof {
                assert(order@[x as int] < keys@.len());
            }
            overrides.push((parsed[p].1, parsed[p].2));
            x = x + 1;
        }
        let levels = LintLevels { overrides };
        proof {
            assert(index_order(parsed@.map_values(|e: (usize, LintSelector, LintLevel)| e.0), order@));
            assert(options_in_order(parsed@, levels@));
            assert(parsed_options(arguments@, parsed@));
        }
        Ok(levels)
    }

    /// The level of a diagnostic: its default level, changed by each option
    /// in turn.
    pub fn level(&self, diagnostic: DiagnosticKind) -> (r: LintLevel)
        ensures
            r == level_after(self@, self@.len() as int, diagnostic),
    {
        let mut level = diagnostic.default_level();
        let mut i: usize = 0;
        while i < self.overrides.len()
            invariant
                i <= self.overrides@.len(),
                level == level_after(self.overrides@, i as int, diagnostic),
            decreases self.overrides@.len() - i,
        {
            let (selector, option_level) = self.overrides[i];
            let names = match selector {
                LintSelector::Diagnostic(k) => k == diagnostic,
                LintSelector::Warnings => false,
            };
            let group = match selector {
                LintSelector::Warnings => level != LintLevel::Allow,
                LintSelector::Diagnostic(_) => false,
            };
            if names || group {
                level = option_level;
            }
            i = i + 1;
        }
        level
    }
}

} // verus!
