//! The project configuration: production consumers and lint overrides, how
//! they are validated, and how overrides apply to the findings of an analysis.

use vstd::prelude::*;
use vstd::string::{StrSliceExecFns, StringExecFns, StringSliceAdditionalSpecFns};
use vstd::utf8::{encode_utf8, is_char_boundary};

use crate::model::{finding_code, Definition, DefinitionKind, Finding, FindingKind, Fragment};
use crate::protocol::{decimal, push_decimal};
use crate::text::{is_blank, is_white_space, line_of, starts_with, str_eq, strip_prefix, text_line, views};

verus! {

/// How an override treats the findings it selects.
#[derive(Clone, Copy, Debug, PartialEq, Eq, Structural)]
pub enum OverrideLevel {
    /// Suppress the finding.
    Allow,
    /// Suppress the finding and report when it is no longer produced.
    Expect,
}

/// A one-based line and column in the configuration file.
#[derive(Clone, Copy, Debug, PartialEq, Eq, Structural)]
pub struct ConfigSpan {
    pub line: usize,
    pub column: usize,
}

/// A UTF-8 continuation byte: one that does not begin a character.
pub open spec fn is_continuation(b: u8) -> bool {
    0x80 <= b <= 0xbf
}

/// The one-based line on which the text `prefix` ends.
pub open spec fn line_after(prefix: Seq<u8>) -> nat
    decreases prefix.len(),
{
    if prefix.len() == 0 {
        1
    } else if prefix.last() == 10 {
        line_after(prefix.drop_last()) + 1
    } else {
        line_after(prefix.drop_last())
    }
}

/// The one-based column, in characters, at which the text `prefix` ends.
pub open spec fn column_after(prefix: Seq<u8>) -> nat
    decreases prefix.len(),
{
    if prefix.len() == 0 {
        1
    } else if prefix.last() == 10 {
        1
    } else if is_continuation(prefix.last()) {
        column_after(prefix.drop_last())
    } else {
        column_after(prefix.drop_last()) + 1
    }
}

/// The line and column of byte `offset` of a configuration source.
pub open spec fn spec_config_span(source: Seq<u8>, offset: int) -> (nat, nat) {
    (line_after(source.take(offset)), column_after(source.take(offset)))
}

/// The line and column of byte `offset` of `source`: lines are counted by
/// line feeds, columns by characters.
pub fn config_span(source: &str, offset: usize) -> (r: ConfigSpan)
    requires
        offset <= source.spec_bytes().len() < usize::MAX,
        is_char_boundary(source.spec_bytes(), offset as int),
    ensures
        (r.line as nat, r.column as nat) == spec_config_span(source.spec_bytes(), offset as int),
{
    let bytes = source.as_bytes();
    let mut line: usize = 1;
    let mut column: usize = 1;
    let mut i: usize = 0;
    while i < offset
        invariant
            bytes@ == source.spec_bytes(),
            offset <= bytes@.len() < usize::MAX,
            i <= offset,
            line as nat == line_after(bytes@.take(i as int)),
            column as nat == column_after(bytes@.take(i as int)),
            line <= i + 1,
            column <= i + 1,
        decreases offset - i,
    {
        let b = bytes[i];
        proof {
            assert(bytes@.take(i + 1).drop_last() =~= bytes@.take(i as int));
            assert(bytes@.take(i + 1).last() == b);
        }
        if b == 10 {
            line = line + 1;
            column = 1;
        } else if !(0x80 <= b && b <= 0xbf) {
            column = column + 1;
        }
        i = i + 1;
    }
    ConfigSpan { line, column }
}

/// The configuration diagnostics that the overrides can produce.
#[derive(Clone, Copy, Debug, PartialEq, Eq, Structural)]
pub enum ConfigDiagnosticKind {
    UnknownItem,
    AmbiguousItem,
    UnfulfilledExpectation,
}

/// The lint code of a configuration diagnostic.
pub open spec fn config_code(k: ConfigDiagnosticKind) -> Seq<char> {
    match k {
        ConfigDiagnosticKind::UnknownItem => "hawk::unknown_item"@,
        ConfigDiagnosticKind::AmbiguousItem => "hawk::ambiguous_item"@,
        ConfigDiagnosticKind::UnfulfilledExpectation => "hawk::unfulfilled_expectation"@,
    }
}

impl ConfigDiagnosticKind {
    /// The lint code of this diagnostic.
    pub fn code(self) -> (r: &'static str)
        ensures
            r@ == config_code(self),
    {
        match self {
            ConfigDiagnosticKind::UnknownItem => "hawk::unknown_item",
            ConfigDiagnosticKind::AmbiguousItem => "hawk::ambiguous_item",
            ConfigDiagnosticKind::UnfulfilledExpectation => "hawk::unfulfilled_expectation",
        }
    }

    /// The configuration diagnostic whose lint code is `code`.
    pub fn from_code(code: &str) -> (r: Option<Self>)
        ensures
            match r {
                Some(k) => config_code(k) == code@,
                None => forall|k: ConfigDiagnosticKind| config_code(k) != code@,
            },
    {
        if crate::text::str_eq(code, "hawk::unknown_item") {
            Some(ConfigDiagnosticKind::UnknownItem)
        } else if crate::text::str_eq(code, "hawk::ambiguous_item") {
            Some(ConfigDiagnosticKind::AmbiguousItem)
        } else if crate::text::str_eq(code, "hawk::unfulfilled_expectation") {
            Some(ConfigDiagnosticKind::UnfulfilledExpectation)
        } else {
            proof {
                assert forall|k: ConfigDiagnosticKind| config_code(k) != code@ by {
                    match k {
                        ConfigDiagnosticKind::UnknownItem => {},
                        ConfigDiagnosticKind::AmbiguousItem => {},
                        ConfigDiagnosticKind::UnfulfilledExpectation => {},
                    }
                }
            }
            None
        }
    }
}

/// Distinct configuration diagnostics have distinct lint codes.
pub proof fn lemma_config_code_injective(a: ConfigDiagnosticKind, b: ConfigDiagnosticKind)
    ensures
        config_code(a) == config_code(b) ==> a == b,
{
    reveal_strlit("hawk::unknown_item");
    reveal_strlit("hawk::ambiguous_item");
    reveal_strlit("hawk::unfulfilled_expectation");
    assert(config_code(ConfigDiagnosticKind::UnknownItem).len() == 18);
    assert(config_code(ConfigDiagnosticKind::AmbiguousItem).len() == 20);
    assert(config_code(ConfigDiagnosticKind::UnfulfilledExpectation).len() == 29);
}

/// What `cargo_platform::Platform::from_str` reports of a target selector:
/// nothing when the selector parses, or the text of its parse error.
pub uninterp spec fn target_selector_problem(selector: Seq<char>) -> Option<Seq<char>>;

/// What `cargo_platform::Cfg::from_str` reports of one configuration line of
/// a compilation target: nothing when it parses, or the text of its error.
pub uninterp spec fn cfg_problem(line: Seq<char>) -> Option<Seq<char>>;

/// Whether `cargo_platform::Platform::matches` accepts the compilation target
/// named `target`, with the configuration lines `cfgs`, for the selector.
pub uninterp spec fn target_selector_matches(selector: Seq<char>, target: Seq<char>, cfgs: Seq<Seq<char>>) -> bool;

/// The characters of an optional owned string.
pub open spec fn opt_string_view(s: Option<String>) -> Option<Seq<char>> {
    match s {
        Some(s) => Some(s@),
        None => None,
    }
}

/// Parses a target selector with `cargo_platform::Platform::from_str`; the
/// result is nothing when it parses and the error's text otherwise, as the
/// name `target_selector_problem` records.
#[verifier::external_body]
fn check_target_selector(selector: &str) -> (r: Option<String>)
    ensures
        opt_string_view(r) == target_selector_problem(selector@),
{
    match selector.parse::<cargo_platform::Platform>() {
        Ok(_) => None,
        Err(error) => Some(error.to_string()),
    }
}

/// Parses one configuration line with `cargo_platform::Cfg::from_str`; the
/// result is nothing when it parses and the error's text otherwise, as the
/// name `cfg_problem` records.
#[verifier::external_body]
fn check_cfg(line: &str) -> (r: Option<String>)
    ensures
        opt_string_view(r) == cfg_problem(line@),
{
    match line.parse::<cargo_platform::Cfg>() {
        Ok(_) => None,
        Err(error) => Some(error.to_string()),
    }
}

/// Matches a target with `cargo_platform::Platform::matches`, on the selector
/// and configuration lines as `Platform::from_str` and `Cfg::from_str` parse
/// them; the result is what the name `target_selector_matches` records.
#[verifier::external_body]
fn selector_matches(selector: &str, target: &str, cfgs: &Vec<String>) -> (r: bool)
    requires
        target_selector_problem(selector@) is None,
        forall|i: int| 0 <= i < cfgs@.len() ==> cfg_problem((#[trigger] cfgs@[i])@) is None,
    ensures
        r == target_selector_matches(selector@, target@, views(cfgs@)),
{
    let platform = selector.parse::<cargo_platform::Platform>().expect("validated target selector");
    let cfgs = cfgs.iter().map(|cfg| cfg.parse::<cargo_platform::Cfg>().expect("validated configuration")).collect::<
        Vec<_>,
    >();
    platform.matches(target, &cfgs)
}

/// The compilation target of an analysis: its name and its configuration, one
/// `rustc --print=cfg` line each.
#[derive(Clone, Debug)]
pub struct AnalysisTarget {
    name: String,
    cfgs: Vec<String>,
}

impl AnalysisTarget {
    /// The target's name.
    pub closed spec fn spec_name(&self) -> Seq<char> {
        self.name@
    }

    /// The target's configuration lines.
    pub closed spec fn spec_cfgs(&self) -> Seq<Seq<char>> {
        views(self.cfgs@)
    }

    /// Every configuration line parses.
    pub closed spec fn wf(&self) -> bool {
        forall|i: int| 0 <= i < self.cfgs@.len() ==> cfg_problem((#[trigger] self.cfgs@[i])@) is None
    }

    /// The target named `name` with the configuration lines `cfgs`, or the
    /// first line that does not parse and its parse error.
    pub fn new(name: String, cfgs: Vec<String>) -> (r: Result<Self, (String, String)>)
        ensures
            match r {
                Ok(t) => {
                    &&& t.wf()
                    &&& t.spec_name() == name@
                    &&& t.spec_cfgs() == views(cfgs@)
                },
                Err((line, cause)) => exists|i: int|
                    0 <= i < cfgs@.len() && (forall|j: int|
                        0 <= j < i ==> cfg_problem((#[trigger] cfgs@[j])@) is None) && cfgs@[i]@ == line@
                        && cfg_problem(cfgs@[i]@) == Some(cause@),
            },
    {
        let mut i: usize = 0;
        while i < cfgs.len()
            invariant
                i <= cfgs@.len(),
                forall|j: int| 0 <= j < i ==> cfg_problem((#[trigger] cfgs@[j])@) is None,
            decreases cfgs@.len() - i,
        {
            if let Some(cause) = check_cfg(cfgs[i].as_str()) {
                let line = cfgs[i].clone();
                return Err((line, cause));
            }
            i = i + 1;
        }
        Ok(AnalysisTarget { name, cfgs })
    }

    /// The target's name.
    pub fn name(&self) -> (r: &str)
        ensures
            r@ == self.spec_name(),
    {
        self.name.as_str()
    }
}

/// Whether a target selector, if there is one, accepts the target.
pub open spec fn selector_applies(selector: Option<String>, target: AnalysisTarget) -> bool {
    match selector {
        None => true,
        Some(s) => target_selector_matches(s@, target.spec_name(), target.spec_cfgs()),
    }
}

/// Whether an optional selector accepts the target.
fn applies(selector: &Option<String>, target: &AnalysisTarget) -> (r: bool)
    requires
        target.wf(),
        selector matches Some(s) ==> target_selector_problem(s@) is None,
    ensures
        r == selector_applies(*selector, *target),
{
    match selector {
        None => true,
        Some(s) => selector_matches(s.as_str(), target.name.as_str(), &target.cfgs),
    }
}

/// A lint override of the configuration.
#[derive(Clone, Debug)]
pub struct LintOverride {
    pub lint: FindingKind,
    pub crate_name: String,
    pub item: String,
    pub definition_kind: Option<DefinitionKind>,
    pub level: OverrideLevel,
    pub reason: String,
    pub target: Option<String>,
    pub span: ConfigSpan,
}

/// A production consumer of the configuration: a binary that ships.
#[derive(Clone, Debug)]
pub struct ProductionConsumer {
    pub package: String,
    pub binary: String,
    pub reason: String,
    pub target: Option<String>,
    pub span: ConfigSpan,
}

/// A lint override as the configuration file writes it, with the byte offset
/// of its table.
#[derive(Clone, Debug)]
pub struct RawLintOverride {
    pub lint: String,
    pub crate_name: String,
    pub item: String,
    pub definition_kind: Option<DefinitionKind>,
    pub level: OverrideLevel,
    pub reason: String,
    pub target: Option<String>,
    pub offset: usize,
}

/// A production consumer as the configuration file writes it, with the byte
/// offset of its table.
#[derive(Clone, Debug)]
pub struct RawProductionConsumer {
    pub package: String,
    pub binary: String,
    pub reason: String,
    pub target: Option<String>,
    pub offset: usize,
}

/// Why an entry of the configuration is refused.
#[derive(Clone, Copy, Debug, PartialEq, Eq, Structural)]
pub enum ConfigIssue {
    /// The override names no Hawk lint.
    UnknownLint,
    /// The reason is empty or white space.
    MissingReason,
    /// The target selector does not parse.
    InvalidTarget,
    /// An exclusion gives both or neither of a module and a file.
    ExclusionScope,
    /// A feature profile's name holds a character other than an ASCII
    /// letter, digit, `-` or `_`.
    InvalidProfileName,
    /// Two feature profiles share a name.
    DuplicateProfile,
    /// A feature profile combines `all-features` with `no-default-features`
    /// or a `features` list.
    ConflictingFeatures,
}

/// The kind of configuration entry that an error concerns.
#[derive(Clone, Copy, Debug, PartialEq, Eq, Structural)]
pub enum ConfigEntry {
    Override,
    Production,
    Exclusion,
    FeatureProfile,
}

/// How an entry kind is named in messages.
pub open spec fn entry_text(e: ConfigEntry) -> Seq<char> {
    match e {
        ConfigEntry::Override => "override"@,
        ConfigEntry::Production => "production consumer"@,
        ConfigEntry::Exclusion => "exclusion"@,
        ConfigEntry::FeatureProfile => "feature profile"@,
    }
}

/// How an entry kind is named in messages.
fn entry_name(e: ConfigEntry) -> (r: &'static str)
    ensures
        r@ == entry_text(e),
{
    match e {
        ConfigEntry::Override => "override",
        ConfigEntry::Production => "production consumer",
        ConfigEntry::Exclusion => "exclusion",
        ConfigEntry::FeatureProfile => "feature profile",
    }
}

/// A text that is empty or white space only.
pub open spec fn blank(s: Seq<char>) -> bool {
    forall|i: int| 0 <= i < s.len() ==> is_white_space(#[trigger] s[i])
}

/// Whether some Hawk lint has the code `code`.
pub open spec fn known_lint(code: Seq<char>) -> bool {
    exists|k: FindingKind| finding_code(k) == code
}

/// Whether an optional target selector is refused.
pub open spec fn invalid_selector(target: Option<String>) -> bool {
    target matches Some(s) && target_selector_problem(s@) is Some
}

/// What is wrong with a written override, checked in this order.
pub open spec fn override_issue(e: RawLintOverride) -> Option<ConfigIssue> {
    if !known_lint(e.lint@) {
        Some(ConfigIssue::UnknownLint)
    } else if blank(e.reason@) {
        Some(ConfigIssue::MissingReason)
    } else if invalid_selector(e.target) {
        Some(ConfigIssue::InvalidTarget)
    } else {
        None
    }
}

/// What is wrong with a written production consumer, checked in this order.
pub open spec fn production_issue(e: RawProductionConsumer) -> Option<ConfigIssue> {
    if blank(e.reason@) {
        Some(ConfigIssue::MissingReason)
    } else if invalid_selector(e.target) {
        Some(ConfigIssue::InvalidTarget)
    } else {
        None
    }
}

/// A refused configuration: what is wrong, in which kind of entry, and where.
#[derive(Clone, Debug)]
pub struct ConfigError {
    pub issue: ConfigIssue,
    /// The kind of entry that is refused.
    pub entry: ConfigEntry,
    pub path: String,
    pub span: ConfigSpan,
    /// The unknown lint code, the refused target selector or the feature
    /// profile's name; empty otherwise.
    pub subject: String,
    /// The parse error of a refused target selector.
    pub cause: Option<String>,
}

/// The location `path:line:column` of a configuration entry.
pub open spec fn location_text(path: Seq<char>, span: ConfigSpan) -> Seq<char> {
    path + ":"@ + decimal(span.line as nat) + ":"@ + decimal(span.column as nat)
}

/// The message of a refused configuration.
pub open spec fn config_error_message(e: ConfigError) -> Seq<char> {
    let at = location_text(e.path@, e.span);
    match e.issue {
        ConfigIssue::UnknownLint => "unknown Hawk lint `"@ + e.subject@ + "` in "@ + at,
        ConfigIssue::MissingReason => entry_text(e.entry) + " in "@ + at + " must provide a non-empty reason"@,
        ConfigIssue::InvalidTarget => "parse target selector `"@ + e.subject@ + "` in "@ + at,
        ConfigIssue::ExclusionScope => "exclusion in "@ + at + " must provide exactly one of `module` or `file`"@,
        ConfigIssue::InvalidProfileName => "feature profile name `"@ + e.subject@ + "` in "@ + at
            + " must contain only ASCII letters, digits, `-`, or `_`"@,
        ConfigIssue::DuplicateProfile => "duplicate feature profile `"@ + e.subject@ + "` in "@ + at,
        ConfigIssue::ConflictingFeatures => "feature profile `"@ + e.subject@ + "` in "@ + at
            + " cannot combine `all-features` with `no-default-features` or `features`"@,
    }
}

/// Appends `path:line:column`.
fn push_location(out: &mut String, path: &str, span: ConfigSpan)
    ensures
        final(out)@ == old(out)@ + location_text(path@, span),
{
    out.append(path);
    out.append(":");
    push_decimal(out, span.line as u64);
    out.append(":");
    push_decimal(out, span.column as u64);
}

impl ConfigError {
    /// The message of this error; the parse error of a refused selector is
    /// its cause.
    pub fn message(&self) -> (r: String)
        ensures
            r@ == config_error_message(*self),
    {
        let mut r = String::new();
        match self.issue {
            ConfigIssue::UnknownLint => {
                r.append("unknown Hawk lint `");
                r.append(self.subject.as_str());
                r.append("` in ");
                push_location(&mut r, self.path.as_str(), self.span);
            },
            ConfigIssue::MissingReason => {
                r.append(entry_name(self.entry));
                r.append(" in ");
                push_location(&mut r, self.path.as_str(), self.span);
                r.append(" must provide a non-empty reason");
            },
            ConfigIssue::InvalidTarget => {
                r.append("parse target selector `");
                r.append(self.subject.as_str());
                r.append("` in ");
                push_location(&mut r, self.path.as_str(), self.span);
            },
            ConfigIssue::ExclusionScope => {
                r.append("exclusion in ");
                push_location(&mut r, self.path.as_str(), self.span);
                r.append(" must provide exactly one of `module` or `file`");
            },
            ConfigIssue::InvalidProfileName => {
                r.append("feature profile name `");
                r.append(self.subject.as_str());
                r.append("` in ");
                push_location(&mut r, self.path.as_str(), self.span);
                r.append(" must contain only ASCII letters, digits, `-`, or `_`");
            },
            ConfigIssue::DuplicateProfile => {
                r.append("duplicate feature profile `");
                r.append(self.subject.as_str());
                r.append("` in ");
                push_location(&mut r, self.path.as_str(), self.span);
            },
            ConfigIssue::ConflictingFeatures => {
                r.append("feature profile `");
                r.append(self.subject.as_str());
                r.append("` in ");
                push_location(&mut r, self.path.as_str(), self.span);
                r.append(" cannot combine `all-features` with `no-default-features` or `features`");
            },
        }
        proof {
            assert(r@ =~= config_error_message(*self));
        }
        r
    }
}

/// A copy of an optional owned string.
fn copy_opt_string(s: &Option<String>) -> (r: Option<String>)
    ensures
        r == *s,
{
    match s {
        Some(s) => Some(s.clone()),
        None => None,
    }
}

/// The override that a written override becomes once it is accepted.
pub open spec fn accepted_override(o: LintOverride, e: RawLintOverride, source: Seq<u8>) -> bool {
    &&& finding_code(o.lint) == e.lint@
    &&& o.crate_name@ == e.crate_name@
    &&& o.item@ == e.item@
    &&& o.definition_kind == e.definition_kind
    &&& o.level == e.level
    &&& o.reason@ == e.reason@
    &&& opt_string_view(o.target) == opt_string_view(e.target)
    &&& (o.span.line as nat, o.span.column as nat) == spec_config_span(source, e.offset as int)
}

/// The production consumer that a written one becomes once it is accepted.
pub open spec fn accepted_consumer(c: ProductionConsumer, e: RawProductionConsumer, source: Seq<u8>) -> bool {
    &&& c.package@ == e.package@
    &&& c.binary@ == e.binary@
    &&& c.reason@ == e.reason@
    &&& opt_string_view(c.target) == opt_string_view(e.target)
    &&& (c.span.line as nat, c.span.column as nat) == spec_config_span(source, e.offset as int)
}

/// What an error says of the entry it refuses: its issue, where it stands,
/// and the refused text.
pub open spec fn describes_issue(
    e: ConfigError,
    issue: ConfigIssue,
    entry: ConfigEntry,
    lint: Seq<char>,
    target: Option<String>,
    offset: int,
    source: Seq<u8>,
) -> bool {
    &&& e.issue == issue
    &&& e.entry == entry
    &&& (e.span.line as nat, e.span.column as nat) == spec_config_span(source, offset)
    &&& match issue {
        ConfigIssue::UnknownLint => e.subject@ == lint && e.cause is None,
        ConfigIssue::MissingReason => e.subject@.len() == 0 && e.cause is None,
        ConfigIssue::InvalidTarget => target matches Some(t) && e.subject@ == t@ && opt_string_view(e.cause)
            == target_selector_problem(t@),
        ConfigIssue::ExclusionScope => e.subject@.len() == 0 && e.cause is None,
        _ => e.subject@ == lint && e.cause is None,
    }
}

/// The written override `i` is the first refused, and `e` describes why.
pub open spec fn override_refused_at(overrides: Seq<RawLintOverride>, i: int, e: ConfigError, source: Seq<u8>) -> bool {
    &&& 0 <= i < overrides.len()
    &&& forall|j: int| 0 <= j < i ==> override_issue(#[trigger] overrides[j]) is None
    &&& override_issue(overrides[i]) is Some
    &&& describes_issue(
        e,
        override_issue(overrides[i]).unwrap(),
        ConfigEntry::Override,
        overrides[i].lint@,
        overrides[i].target,
        overrides[i].offset as int,
        source,
    )
}

/// The written production consumer `i` is the first refused, and `e`
/// describes why.
pub open spec fn consumer_refused_at(production: Seq<RawProductionConsumer>, i: int, e: ConfigError, source: Seq<u8>) -> bool {
    &&& 0 <= i < production.len()
    &&& forall|j: int| 0 <= j < i ==> production_issue(#[trigger] production[j]) is None
    &&& production_issue(production[i]) is Some
    &&& describes_issue(
        e,
        production_issue(production[i]).unwrap(),
        ConfigEntry::Production,
        Seq::empty(),
        production[i].target,
        production[i].offset as int,
        source,
    )
}

/// The offsets of the written entries fall on character boundaries of the
/// source.
pub open spec fn offsets_in(source: Seq<u8>, overrides: Seq<RawLintOverride>, production: Seq<RawProductionConsumer>) -> bool {
    &&& forall|i: int|
        0 <= i < overrides.len() ==> (#[trigger] overrides[i]).offset <= source.len() && is_char_boundary(
            source,
            overrides[i].offset as int,
        )
    &&& forall|i: int|
        0 <= i < production.len() ==> (#[trigger] production[i]).offset <= source.len() && is_char_boundary(
            source,
            production[i].offset as int,
        )
}

/// What an exclusion selects within its crate: a module and its
/// descendants, by diagnostic path, or one source file, by the path that
/// diagnostics print.
#[derive(Clone, Debug)]
pub enum ExclusionScope {
    Module(String),
    File(String),
}

/// An accepted exclusion: it suppresses every finding in its scope.
#[derive(Clone, Debug)]
pub struct Exclusion {
    pub crate_name: String,
    pub scope: ExclusionScope,
    pub reason: String,
    pub target: Option<String>,
    pub span: ConfigSpan,
}

/// An exclusion as the configuration file writes it, with the byte offset
/// of its table.
#[derive(Clone, Debug)]
pub struct RawExclusion {
    pub crate_name: String,
    pub module: Option<String>,
    pub file: Option<String>,
    pub reason: String,
    pub target: Option<String>,
    pub offset: usize,
}

/// What is wrong with a written exclusion, checked in this order.
pub open spec fn exclusion_issue(e: RawExclusion) -> Option<ConfigIssue> {
    if (e.module is Some) == (e.file is Some) {
        Some(ConfigIssue::ExclusionScope)
    } else if blank(e.reason@) {
        Some(ConfigIssue::MissingReason)
    } else if invalid_selector(e.target) {
        Some(ConfigIssue::InvalidTarget)
    } else {
        None
    }
}

/// The exclusion that a written one becomes once it is accepted.
pub open spec fn accepted_exclusion(x: Exclusion, e: RawExclusion, source: Seq<u8>) -> bool {
    &&& x.crate_name@ == e.crate_name@
    &&& match x.scope {
        ExclusionScope::Module(m) => e.module matches Some(n) && m@ == n@,
        ExclusionScope::File(f) => e.file matches Some(n) && f@ == n@,
    }
    &&& x.reason@ == e.reason@
    &&& opt_string_view(x.target) == opt_string_view(e.target)
    &&& (x.span.line as nat, x.span.column as nat) == spec_config_span(source, e.offset as int)
}

/// The written exclusion `i` is the first refused, and `e` describes why.
pub open spec fn exclusion_refused_at(exclusions: Seq<RawExclusion>, i: int, e: ConfigError, source: Seq<u8>) -> bool {
    &&& 0 <= i < exclusions.len()
    &&& forall|j: int| 0 <= j < i ==> exclusion_issue(#[trigger] exclusions[j]) is None
    &&& exclusion_issue(exclusions[i]) is Some
    &&& describes_issue(
        e,
        exclusion_issue(exclusions[i]).unwrap(),
        ConfigEntry::Exclusion,
        Seq::empty(),
        exclusions[i].target,
        exclusions[i].offset as int,
        source,
    )
}

/// Whether an exclusion's scope holds a declaration: the declaration is of
/// the exclusion's crate, and either is the selected module or lies below
/// it, or was declared in the selected file.
pub open spec fn excludes_definition(x: Exclusion, d: Definition) -> bool {
    &&& d.crate_name@ == x.crate_name@
    &&& match x.scope {
        ExclusionScope::Module(m) => d.name@ == m@ || starts_with(encode_utf8(d.name@), encode_utf8(m@ + "::"@)),
        ExclusionScope::File(f) => d.span matches Some(s) && s.file@ == f@,
    }
}

/// Whether an exclusion that applies to the target holds the finding's
/// declaration.
pub open spec fn excluded(xs: Seq<Exclusion>, target: AnalysisTarget, f: Finding) -> bool {
    exists|i: int| 0 <= i < xs.len() && selector_applies(xs[i].target, target) && excludes_definition(#[trigger] xs[i], *f.definition)
}

/// An exclusion never reaches into another crate: whenever a finding is
/// excluded, an exclusion that applies to the target names the crate of the
/// finding's declaration, whether it selects a module or a file. A finding on
/// a same-named module or file of any other crate stays reported.
pub proof fn lemma_exclusions_stay_in_their_crate(xs: Seq<Exclusion>, target: AnalysisTarget, f: Finding)
    requires
        excluded(xs, target, f),
    ensures
        exists|i: int|
            0 <= i < xs.len() && selector_applies(xs[i].target, target) && (#[trigger] xs[i]).crate_name@
                == f.definition.crate_name@,
{
    let i = choose|i: int|
        0 <= i < xs.len() && selector_applies(xs[i].target, target) && excludes_definition(
            #[trigger] xs[i],
            *f.definition,
        );
    assert(xs[i].crate_name@ == f.definition.crate_name@);
}

/// The encoding of two texts one after the other is the two encodings one
/// after the other.
proof fn lemma_encode_utf8_concat(a: Seq<char>, b: Seq<char>)
    ensures
        encode_utf8(a + b) == encode_utf8(a) + encode_utf8(b),
    decreases a.len(),
{
    if a.len() == 0 {
        assert(a + b =~= b);
        assert(encode_utf8(a) + encode_utf8(b) =~= encode_utf8(b));
    } else {
        assert((a + b)[0] == a[0]);
        assert((a + b).drop_first() =~= a.drop_first() + b);
        lemma_encode_utf8_concat(a.drop_first(), b);
        assert(encode_utf8(a + b) =~= encode_utf8(a) + encode_utf8(b));
    }
}

/// A module exclusion that applies to the target suppresses, within its own
/// crate, the findings on the module itself and on every declaration whose
/// path continues it with `::`.
pub proof fn lemma_module_exclusion_covers_its_subtree(
    xs: Seq<Exclusion>,
    target: AnalysisTarget,
    f: Finding,
    i: int,
    rest: Seq<char>,
)
    requires
        0 <= i < xs.len(),
        selector_applies(xs[i].target, target),
        xs[i].crate_name@ == f.definition.crate_name@,
        xs[i].scope matches ExclusionScope::Module(m) && (f.definition.name@ == m@ || f.definition.name@ == m@
            + "::"@ + rest),
    ensures
        excluded(xs, target, f),
{
    if let ExclusionScope::Module(m) = xs[i].scope {
        if f.definition.name@ != m@ {
            let p = m@ + "::"@;
            lemma_encode_utf8_concat(p, rest);
            assert(encode_utf8(f.definition.name@).subrange(0, encode_utf8(p).len() as int) =~= encode_utf8(p));
        }
    }
    assert(excludes_definition(xs[i], *f.definition));
}

/// Whether an exclusion's scope holds a declaration.
fn excludes_exec(x: &Exclusion, d: &Definition) -> (r: bool)
    ensures
        r == excludes_definition(*x, *d),
{
    if !str_eq(d.crate_name.as_str(), x.crate_name.as_str()) {
        return false;
    }
    match &x.scope {
        ExclusionScope::Module(m) => {
            if str_eq(d.name.as_str(), m.as_str()) {
                return true;
            }
            let mut prefix = m.clone();
            prefix.append("::");
            let below = strip_prefix(d.name.as_str(), prefix.as_str()).is_some();
            proof {
                assert(prefix@ == m@ + "::"@);
            }
            below
        },
        ExclusionScope::File(f) => match &d.span {
            Some(s) => str_eq(s.file.as_str(), f.as_str()),
            None => false,
        },
    }
}

/// A feature profile: the Cargo features that one build of the analysis
/// enables.
#[derive(Clone, Debug)]
pub struct FeatureProfile {
    pub name: String,
    pub all_features: bool,
    pub no_default_features: bool,
    pub features: Vec<String>,
}

/// The Cargo arguments that select the features `fs`, one `--features`
/// value each.
pub open spec fn feature_arguments(fs: Seq<Seq<char>>) -> Seq<Seq<char>>
    decreases fs.len(),
{
    if fs.len() == 0 {
        Seq::empty()
    } else {
        feature_arguments(fs.drop_last()) + seq!["--features"@, fs.last()]
    }
}

/// The Cargo arguments of a feature profile.
pub open spec fn profile_arguments(p: FeatureProfile) -> Seq<Seq<char>> {
    if p.all_features {
        seq!["--all-features"@]
    } else {
        (if p.no_default_features {
            seq!["--no-default-features"@]
        } else {
            Seq::empty()
        }) + feature_arguments(views(p.features@))
    }
}

impl FeatureProfile {
    /// The profile's name.
    pub fn name(&self) -> (r: &str)
        ensures
            r@ == self.name@,
    {
        self.name.as_str()
    }

    /// The Cargo arguments that build with this profile's features.
    pub fn cargo_arguments(&self) -> (r: Vec<String>)
        ensures
            views(r@) == profile_arguments(*self),
    {
        let mut r: Vec<String> = Vec::new();
        if self.all_features {
            r.push(String::from_str("--all-features"));
            proof {
                assert(views(r@) =~= profile_arguments(*self));
            }
            return r;
        }
        if self.no_default_features {
            r.push(String::from_str("--no-default-features"));
        }
        let ghost start = views(r@);
        proof {
            assert(start == (if self.no_default_features {
                seq!["--no-default-features"@]
            } else {
                Seq::<Seq<char>>::empty()
            }));
        }
        let mut i: usize = 0;
        while i < self.features.len()
            invariant
                i <= self.features@.len(),
                views(r@) == start + feature_arguments(views(self.features@).take(i as int)),
            decreases self.features@.len() - i,
        {
            let ghost before = views(r@);
            r.push(String::from_str("--features"));
            r.push(self.features[i].clone());
            proof {
                let fs = views(self.features@).take(i + 1);
                assert(fs.drop_last() =~= views(self.features@).take(i as int));
                assert(fs.last() == self.features@[i as int]@);
                assert(views(r@) =~= before + seq!["--features"@, self.features@[i as int]@]);
            }
            i = i + 1;
        }
        proof {
            assert(views(self.features@).take(i as int) =~= views(self.features@));
        }
        r
    }

    /// The Cargo arguments of this profile, separated by spaces, as
    /// summaries print them.
    pub fn cargo_arguments_description(&self) -> (r: String)
        ensures
            r@ == crate::workspace::joined_by(profile_arguments(*self), " "@),
    {
        let arguments = self.cargo_arguments();
        let r = crate::workspace::join_strings(&arguments, " ");
        proof {
            assert(crate::workspace::names(arguments@) =~= views(arguments@));
        }
        r
    }
}

/// A feature profile as the configuration file writes it, with the byte
/// offset of its table; `features` is `None` when the table has no list.
#[derive(Clone, Debug)]
pub struct RawFeatureProfile {
    pub name: String,
    pub all_features: bool,
    pub no_default_features: bool,
    pub features: Option<Vec<String>>,
    pub offset: usize,
}

/// A character that a feature profile's name may hold.
pub open spec fn profile_name_char(c: char) -> bool {
    ('a' <= c <= 'z') || ('A' <= c <= 'Z') || ('0' <= c <= '9') || c == '-' || c == '_'
}

/// A name made only of such characters.
pub open spec fn valid_profile_name(n: Seq<char>) -> bool {
    forall|i: int| 0 <= i < n.len() ==> profile_name_char(#[trigger] n[i])
}

/// What is wrong with written profile `i`, checked in this order: its
/// name's characters, a name that an earlier profile has, and
/// `all-features` together with other feature settings.
pub open spec fn profile_issue(profiles: Seq<RawFeatureProfile>, i: int) -> Option<ConfigIssue> {
    let e = profiles[i];
    if !valid_profile_name(e.name@) {
        Some(ConfigIssue::InvalidProfileName)
    } else if exists|j: int| 0 <= j < i && (#[trigger] profiles[j]).name@ == e.name@ {
        Some(ConfigIssue::DuplicateProfile)
    } else if e.all_features && (e.no_default_features || e.features is Some) {
        Some(ConfigIssue::ConflictingFeatures)
    } else {
        None
    }
}

/// The feature list of a written profile.
pub open spec fn written_features(e: RawFeatureProfile) -> Seq<Seq<char>> {
    match e.features {
        Some(f) => views(f@),
        None => Seq::empty(),
    }
}

/// The profile that a written one becomes once it is accepted.
pub open spec fn accepted_profile(p: FeatureProfile, e: RawFeatureProfile) -> bool {
    &&& p.name@ == e.name@
    &&& p.all_features == e.all_features
    &&& p.no_default_features == e.no_default_features
    &&& views(p.features@) == written_features(e)
}

/// The profile of a configuration that writes none: all features.
pub open spec fn default_profile(p: FeatureProfile) -> bool {
    &&& p.name@ == "all-features"@
    &&& p.all_features
    &&& !p.no_default_features
    &&& p.features@.len() == 0
}

/// The written profile `i` is the first refused, and `e` describes why.
pub open spec fn profile_refused_at(profiles: Seq<RawFeatureProfile>, i: int, e: ConfigError, source: Seq<u8>) -> bool {
    &&& 0 <= i < profiles.len()
    &&& forall|j: int| 0 <= j < i ==> #[trigger] profile_issue(profiles, j) is None
    &&& profile_issue(profiles, i) is Some
    &&& describes_issue(
        e,
        profile_issue(profiles, i).unwrap(),
        ConfigEntry::FeatureProfile,
        profiles[i].name@,
        None,
        profiles[i].offset as int,
        source,
    )
}

/// The offsets of written exclusions and profiles fall on character
/// boundaries of the source.
pub open spec fn more_offsets_in(source: Seq<u8>, exclusions: Seq<RawExclusion>, profiles: Seq<RawFeatureProfile>) -> bool {
    &&& forall|i: int|
        0 <= i < exclusions.len() ==> (#[trigger] exclusions[i]).offset <= source.len() && is_char_boundary(
            source,
            exclusions[i].offset as int,
        )
    &&& forall|i: int|
        0 <= i < profiles.len() ==> (#[trigger] profiles[i]).offset <= source.len() && is_char_boundary(
            source,
            profiles[i].offset as int,
        )
}

/// Accepts the written exclusions, or refuses the first that is wrong.
fn accept_exclusions(path: &str, source: &str, exclusions: &Vec<RawExclusion>) -> (r: Result<Vec<Exclusion>, ConfigError>)
    requires
        source.spec_bytes().len() < usize::MAX,
        more_offsets_in(source.spec_bytes(), exclusions@, Seq::empty()),
    ensures
        match r {
            Ok(xs) => {
                &&& forall|i: int| 0 <= i < exclusions@.len() ==> exclusion_issue(#[trigger] exclusions@[i]) is None
                &&& xs@.len() == exclusions@.len()
                &&& forall|i: int|
                    0 <= i < xs@.len() ==> accepted_exclusion(#[trigger] xs@[i], exclusions@[i], source.spec_bytes())
                &&& forall|i: int| 0 <= i < xs@.len() ==> !invalid_selector((#[trigger] xs@[i]).target)
            },
            Err(e) => e.path@ == path@ && exists|i: int| exclusion_refused_at(exclusions@, i, e, source.spec_bytes()),
        },
{
    let mut xs: Vec<Exclusion> = Vec::new();
    let mut i: usize = 0;
    while i < exclusions.len()
        invariant
            i <= exclusions@.len(),
            source.spec_bytes().len() < usize::MAX,
            more_offsets_in(source.spec_bytes(), exclusions@, Seq::empty()),
            xs@.len() == i,
            forall|j: int| 0 <= j < i ==> exclusion_issue(#[trigger] exclusions@[j]) is None,
            forall|j: int| 0 <= j < i ==> accepted_exclusion(#[trigger] xs@[j], exclusions@[j], source.spec_bytes()),
            forall|j: int| 0 <= j < i ==> !invalid_selector((#[trigger] xs@[j]).target),
        decreases exclusions@.len() - i,
    {
        let e = &exclusions[i];
        let span = config_span(source, e.offset);
        let scope = match (&e.module, &e.file) {
            (Some(m), None) => ExclusionScope::Module(m.clone()),
            (None, Some(f)) => ExclusionScope::File(f.clone()),
            _ => {
                let err = ConfigError {
                    issue: ConfigIssue::ExclusionScope,
                    entry: ConfigEntry::Exclusion,
                    path: String::from_str(path),
                    span,
                    subject: String::new(),
                    cause: None,
                };
                proof {
                    assert(exclusion_refused_at(exclusions@, i as int, err, source.spec_bytes()));
                }
                return Err(err);
            },
        };
        if is_blank(e.reason.as_str()) {
            let err = ConfigError {
                issue: ConfigIssue::MissingReason,
                entry: ConfigEntry::Exclusion,
                path: String::from_str(path),
                span,
                subject: String::new(),
                cause: None,
            };
            proof {
                assert(exclusion_refused_at(exclusions@, i as int, err, source.spec_bytes()));
            }
            return Err(err);
        }
        if let Some(target) = &e.target {
            if let Some(cause) = check_target_selector(target.as_str()) {
                let err = ConfigError {
                    issue: ConfigIssue::InvalidTarget,
                    entry: ConfigEntry::Exclusion,
                    path: String::from_str(path),
                    span,
                    subject: target.clone(),
                    cause: Some(cause),
                };
                proof {
                    assert(exclusion_refused_at(exclusions@, i as int, err, source.spec_bytes()));
                }
                return Err(err);
            }
        }
        xs.push(
            Exclusion {
                crate_name: e.crate_name.clone(),
                scope,
                reason: e.reason.clone(),
                target: copy_opt_string(&e.target),
                span,
            },
        );
        i = i + 1;
    }
    Ok(xs)
}

/// Whether a feature profile's name holds only letters, digits, `-` and `_`.
fn valid_name(name: &str) -> (r: bool)
    ensures
        r == valid_profile_name(name@),
{
    let n = name.unicode_len();
    let mut i: usize = 0;
    while i < n
        invariant
            n == name@.len(),
            i <= n,
            forall|j: int| 0 <= j < i ==> profile_name_char(#[trigger] name@[j]),
        decreases n - i,
    {
        let c = name.get_char(i);
        if !(('a' <= c && c <= 'z') || ('A' <= c && c <= 'Z') || ('0' <= c && c <= '9') || c == '-' || c == '_') {
            return false;
        }
        i = i + 1;
    }
    true
}

/// Whether a profile before profile `i` has its name.
fn name_taken(profiles: &Vec<RawFeatureProfile>, i: usize) -> (r: bool)
    requires
        i < profiles@.len(),
    ensures
        r == exists|j: int| 0 <= j < i && (#[trigger] profiles@[j]).name@ == profiles@[i as int].name@,
{
    let mut j: usize = 0;
    while j < i
        invariant
            i < profiles@.len(),
            j <= i,
            forall|x: int| 0 <= x < j ==> (#[trigger] profiles@[x]).name@ != profiles@[i as int].name@,
        decreases i - j,
    {
        if str_eq(profiles[j].name.as_str(), profiles[i].name.as_str()) {
            return true;
        }
        j = j + 1;
    }
    false
}

/// Accepts the written feature profiles, or refuses the first that is
/// wrong; with none written, the one profile enables all features.
fn accept_profiles(path: &str, source: &str, profiles: &Vec<RawFeatureProfile>) -> (r: Result<Vec<FeatureProfile>, ConfigError>)
    requires
        source.spec_bytes().len() < usize::MAX,
        more_offsets_in(source.spec_bytes(), Seq::empty(), profiles@),
    ensures
        match r {
            Ok(ps) => {
                &&& forall|i: int| 0 <= i < profiles@.len() ==> #[trigger] profile_issue(profiles@, i) is None
                &&& profiles@.len() == 0 ==> ps@.len() == 1 && default_profile(ps@[0])
                &&& profiles@.len() > 0 ==> ps@.len() == profiles@.len() && forall|i: int|
                    0 <= i < ps@.len() ==> accepted_profile(#[trigger] ps@[i], profiles@[i])
            },
            Err(e) => e.path@ == path@ && exists|i: int| profile_refused_at(profiles@, i, e, source.spec_bytes()),
        },
{
    if profiles.len() == 0 {
        let mut ps: Vec<FeatureProfile> = Vec::new();
        ps.push(
            FeatureProfile {
                name: String::from_str("all-features"),
                all_features: true,
                no_default_features: false,
                features: Vec::new(),
            },
        );
        proof {
            reveal_strlit("all-features");
        }
        return Ok(ps);
    }
    let mut ps: Vec<FeatureProfile> = Vec::new();
    let mut i: usize = 0;
    while i < profiles.len()
        invariant
            i <= profiles@.len(),
            source.spec_bytes().len() < usize::MAX,
            more_offsets_in(source.spec_bytes(), Seq::empty(), profiles@),
            ps@.len() == i,
            forall|j: int| 0 <= j < i ==> #[trigger] profile_issue(profiles@, j) is None,
            forall|j: int| 0 <= j < i ==> accepted_profile(#[trigger] ps@[j], profiles@[j]),
        decreases profiles@.len() - i,
    {
        let e = &profiles[i];
        let span = config_span(source, e.offset);
        let mut issue: Option<ConfigIssue> = None;
        if !valid_name(e.name.as_str()) {
            issue = Some(ConfigIssue::InvalidProfileName);
        } else {
            if name_taken(profiles, i) {
                issue = Some(ConfigIssue::DuplicateProfile);
            }
            if issue.is_none() && e.all_features && (e.no_default_features || e.features.is_some()) {
                issue = Some(ConfigIssue::ConflictingFeatures);
            }
        }
        assert(issue == profile_issue(profiles@, i as int));
        if let Some(issue) = issue {
            let err = ConfigError {
                issue,
                entry: ConfigEntry::FeatureProfile,
                path: String::from_str(path),
                span,
                subject: e.name.clone(),
                cause: None,
            };
            proof {
                assert(profile_refused_at(profiles@, i as int, err, source.spec_bytes()));
            }
            return Err(err);
        }
        let features = match &e.features {
            Some(f) => f.clone(),
            None => Vec::new(),
        };
        proof {
            if e.features is Some {
                assert(views(features@) =~= views(e.features.unwrap()@));
            } else {
                assert(views(features@) =~= Seq::<Seq<char>>::empty());
            }
        }
        ps.push(
            FeatureProfile {
                name: e.name.clone(),
                all_features: e.all_features,
                no_default_features: e.no_default_features,
                features,
            },
        );
        i = i + 1;
    }
    Ok(ps)
}

/// The consumers that a sequence of references points at.
pub open spec fn consumers_of(r: Seq<&ProductionConsumer>) -> Seq<ProductionConsumer> {
    r.map_values(|c: &ProductionConsumer| *c)
}

/// A loaded configuration.
#[derive(Debug)]
pub struct Config {
    path: Option<String>,
    source: String,
    preserve_uniform_field_visibility: bool,
    overrides: Vec<LintOverride>,
    production: Vec<ProductionConsumer>,
    exclusions: Vec<Exclusion>,
    feature_profiles: Vec<FeatureProfile>,
}

impl Default for Config {
    /// The configuration of a workspace without a configuration file.
    fn default() -> (r: Self)
        ensures
            r.spec_path() is None,
            r.spec_source().len() == 0,
            !r.spec_preserve_uniform_field_visibility(),
            r.spec_overrides().len() == 0,
            r.spec_production().len() == 0,
            r.spec_exclusions().len() == 0,
            r.spec_feature_profiles().len() == 1,
            default_profile(r.spec_feature_profiles()[0]),
    {
        let mut feature_profiles: Vec<FeatureProfile> = Vec::new();
        feature_profiles.push(
            FeatureProfile {
                name: String::from_str("all-features"),
                all_features: true,
                no_default_features: false,
                features: Vec::new(),
            },
        );
        proof {
            reveal_strlit("all-features");
        }
        Config {
            path: None,
            source: String::new(),
            preserve_uniform_field_visibility: false,
            overrides: Vec::new(),
            production: Vec::new(),
            exclusions: Vec::new(),
            feature_profiles,
        }
    }
}

impl Config {
    /// The file the configuration was read from.
    pub closed spec fn spec_path(&self) -> Option<Seq<char>> {
        opt_string_view(self.path)
    }

    /// Whether uniform field visibility is preserved.
    pub closed spec fn spec_preserve_uniform_field_visibility(&self) -> bool {
        self.preserve_uniform_field_visibility
    }

    /// Whether the configuration asks to preserve the uniform visibility of
    /// the fields of a struct or union.
    pub fn preserve_uniform_field_visibility(&self) -> (r: bool)
        ensures
            r == self.spec_preserve_uniform_field_visibility(),
    {
        self.preserve_uniform_field_visibility
    }

    /// The bytes of the configuration file.
    pub closed spec fn spec_source(&self) -> Seq<u8> {
        encode_utf8(self.source@)
    }

    /// The overrides, in file order.
    pub closed spec fn spec_overrides(&self) -> Seq<LintOverride> {
        self.overrides@
    }

    /// The production consumers, in file order.
    pub closed spec fn spec_production(&self) -> Seq<ProductionConsumer> {
        self.production@
    }

    /// The exclusions, in file order.
    pub closed spec fn spec_exclusions(&self) -> Seq<Exclusion> {
        self.exclusions@
    }

    /// The feature profiles, in file order.
    pub closed spec fn spec_feature_profiles(&self) -> Seq<FeatureProfile> {
        self.feature_profiles@
    }

    /// The feature profiles that each analysis builds with, in file order;
    /// one that enables all features when the file configures none.
    pub fn feature_profiles(&self) -> (r: &Vec<FeatureProfile>)
        ensures
            r@ == self.spec_feature_profiles(),
    {
        &self.feature_profiles
    }

    /// Whether `--fix` can run under this configuration: fixes are applied
    /// for one feature profile only, since a visibility change that is safe
    /// across several would need a plan coordinated between them.
    pub fn supports_fixes(&self) -> (r: bool)
        ensures
            r == (self.spec_feature_profiles().len() <= 1),
    {
        self.feature_profiles.len() <= 1
    }

    /// Every target selector of the configuration parses.
    pub open spec fn wf(&self) -> bool {
        &&& forall|i: int|
            0 <= i < self.spec_exclusions().len() ==> !invalid_selector((#[trigger] self.spec_exclusions()[i]).target)
        &&& forall|i: int|
            0 <= i < self.spec_overrides().len() ==> !invalid_selector((#[trigger] self.spec_overrides()[i]).target)
        &&& forall|i: int|
            0 <= i < self.spec_production().len() ==> !invalid_selector((#[trigger] self.spec_production()[i]).target)
    }

    /// The configuration read from `path`, whose text is `source`, with its
    /// uniform field visibility setting and its written overrides and production consumers: each must name a Hawk lint
    /// (overrides), give a reason that is not blank, and have a target
    /// selector that parses, checked entry by entry, overrides first.
    pub fn from_entries(
        path: String,
        source: String,
        preserve_uniform_field_visibility: bool,
        overrides: Vec<RawLintOverride>,
        production: Vec<RawProductionConsumer>,
        exclusions: Vec<RawExclusion>,
        feature_profiles: Vec<RawFeatureProfile>,
    ) -> (r: Result<Self, ConfigError>)
        requires
            encode_utf8(source@).len() < usize::MAX,
            offsets_in(encode_utf8(source@), overrides@, production@),
            more_offsets_in(encode_utf8(source@), exclusions@, feature_profiles@),
        ensures
            match r {
                Ok(c) => {
                    &&& c.wf()
                    &&& forall|i: int| 0 <= i < overrides@.len() ==> override_issue(#[trigger] overrides@[i]) is None
                    &&& forall|i: int| 0 <= i < production@.len() ==> production_issue(#[trigger] production@[i]) is None
                    &&& c.spec_path() == Some(path@)
                    &&& c.spec_preserve_uniform_field_visibility() == preserve_uniform_field_visibility
                    &&& c.spec_source() == encode_utf8(source@)
                    &&& c.spec_overrides().len() == overrides@.len()
                    &&& forall|i: int|
                        0 <= i < overrides@.len() ==> accepted_override(
                            #[trigger] c.spec_overrides()[i],
                            overrides@[i],
                            encode_utf8(source@),
                        )
                    &&& c.spec_production().len() == production@.len()
                    &&& forall|i: int|
                        0 <= i < production@.len() ==> accepted_consumer(
                            #[trigger] c.spec_production()[i],
                            production@[i],
                            encode_utf8(source@),
                        )
                    &&& forall|i: int| 0 <= i < exclusions@.len() ==> exclusion_issue(#[trigger] exclusions@[i]) is None
                    &&& c.spec_exclusions().len() == exclusions@.len()
                    &&& forall|i: int|
                        0 <= i < exclusions@.len() ==> accepted_exclusion(
                            #[trigger] c.spec_exclusions()[i],
                            exclusions@[i],
                            encode_utf8(source@),
                        )
                    &&& forall|i: int| 0 <= i < feature_profiles@.len() ==> #[trigger] profile_issue(feature_profiles@, i) is None
                    &&& feature_profiles@.len() == 0 ==> c.spec_feature_profiles().len() == 1 && default_profile(
                        c.spec_feature_profiles()[0],
                    )
                    &&& feature_profiles@.len() > 0 ==> c.spec_feature_profiles().len() == feature_profiles@.len()
                        && forall|i: int|
                        0 <= i < feature_profiles@.len() ==> accepted_profile(
                            #[trigger] c.spec_feature_profiles()[i],
                            feature_profiles@[i],
                        )
                },
                Err(e) => {
                    &&& e.path@ == path@
                    &&& {
                        ||| exists|i: int| override_refused_at(overrides@, i, e, encode_utf8(source@))
                        ||| (forall|j: int| 0 <= j < overrides@.len() ==> override_issue(#[trigger] overrides@[j]) is None)
                            && exists|i: int| consumer_refused_at(production@, i, e, encode_utf8(source@))
                        ||| (forall|j: int| 0 <= j < overrides@.len() ==> override_issue(#[trigger] overrides@[j]) is None)
                            && (forall|j: int|
                            0 <= j < production@.len() ==> production_issue(#[trigger] production@[j]) is None)
                            && exists|i: int| exclusion_refused_at(exclusions@, i, e, encode_utf8(source@))
                        ||| (forall|j: int| 0 <= j < overrides@.len() ==> override_issue(#[trigger] overrides@[j]) is None)
                            && (forall|j: int|
                            0 <= j < production@.len() ==> production_issue(#[trigger] production@[j]) is None)
                            && (forall|j: int| 0 <= j < exclusions@.len() ==> exclusion_issue(#[trigger] exclusions@[j]) is None)
                            && exists|i: int| profile_refused_at(feature_profiles@, i, e, encode_utf8(source@))
                    }
                },
            },
    {
        let mut accepted: Vec<LintOverride> = Vec::new();
        let mut i: usize = 0;
        while i < overrides.len()
            invariant
                i <= overrides@.len(),
                encode_utf8(source@).len() < usize::MAX,
                offsets_in(encode_utf8(source@), overrides@, production@),
                accepted@.len() == i,
                forall|j: int| 0 <= j < i ==> override_issue(#[trigger] overrides@[j]) is None,
                forall|j: int|
                    0 <= j < i ==> accepted_override(#[trigger] accepted@[j], overrides@[j], encode_utf8(source@)),
                forall|j: int| 0 <= j < i ==> !invalid_selector((#[trigger] accepted@[j]).target),
            decreases overrides@.len() - i,
        {
            let e = &overrides[i];
            let span = config_span(source.as_str(), e.offset);
            let lint = match FindingKind::from_code(e.lint.as_str()) {
                Some(lint) => lint,
                None => {
                    let err = ConfigError {
                        issue: ConfigIssue::UnknownLint,
                        entry: ConfigEntry::Override,
                        path,
                        span,
                        subject: e.lint.clone(),
                        cause: None,
                    };
                    proof {
                        assert(override_refused_at(overrides@, i as int, err, encode_utf8(source@)));
                    }
                    return Err(err);
                },
            };
            if is_blank(e.reason.as_str()) {
                let err = ConfigError {
                    issue: ConfigIssue::MissingReason,
                    entry: ConfigEntry::Override,
                    path,
                    span,
                    subject: String::new(),
                    cause: None,
                };
                proof {
                    assert(override_refused_at(overrides@, i as int, err, encode_utf8(source@)));
                }
                return Err(err);
            }
            if let Some(target) = &e.target {
                if let Some(cause) = check_target_selector(target.as_str()) {
                    let err = ConfigError {
                        issue: ConfigIssue::InvalidTarget,
                        entry: ConfigEntry::Override,
                        path,
                        span,
                        subject: target.clone(),
                        cause: Some(cause),
                    };
                    proof {
                        assert(override_refused_at(overrides@, i as int, err, encode_utf8(source@)));
                    }
                    return Err(err);
                }
            }
            accepted.push(LintOverride {
                lint,
                crate_name: e.crate_name.clone(),
                item: e.item.clone(),
                definition_kind: e.definition_kind,
                level: e.level,
                reason: e.reason.clone(),
                target: copy_opt_string(&e.target),
                span,
            });
            i = i + 1;
        }
        let mut consumers: Vec<ProductionConsumer> = Vec::new();
        let mut k: usize = 0;
        while k < production.len()
            invariant
                k <= production@.len(),
                encode_utf8(source@).len() < usize::MAX,
                offsets_in(encode_utf8(source@), overrides@, production@),
                consumers@.len() == k,
                forall|j: int| 0 <= j < overrides@.len() ==> override_issue(#[trigger] overrides@[j]) is None,
                accepted@.len() == overrides@.len(),
                forall|j: int|
                    0 <= j < overrides@.len() ==> accepted_override(
                        #[trigger] accepted@[j],
                        overrides@[j],
                        encode_utf8(source@),
                    ),
                forall|j: int| 0 <= j < overrides@.len() ==> !invalid_selector((#[trigger] accepted@[j]).target),
                forall|j: int| 0 <= j < k ==> production_issue(#[trigger] production@[j]) is None,
                forall|j: int|
                    0 <= j < k ==> accepted_consumer(#[trigger] consumers@[j], production@[j], encode_utf8(source@)),
                forall|j: int| 0 <= j < k ==> !invalid_selector((#[trigger] consumers@[j]).target),
            decreases production@.len() - k,
        {
            let e = &production[k];
            let span = config_span(source.as_str(), e.offset);
            if is_blank(e.reason.as_str()) {
                let err = ConfigError {
                    issue: ConfigIssue::MissingReason,
                    entry: ConfigEntry::Production,
                    path,
                    span,
                    subject: String::new(),
                    cause: None,
                };
                proof {
                    assert(consumer_refused_at(production@, k as int, err, encode_utf8(source@)));
                }
                return Err(err);
            }
            if let Some(target) = &e.target {
                if let Some(cause) = check_target_selector(target.as_str()) {
                    let err = ConfigError {
                        issue: ConfigIssue::InvalidTarget,
                        entry: ConfigEntry::Production,
                        path,
                        span,
                        subject: target.clone(),
                        cause: Some(cause),
                    };
                    proof {
                        assert(consumer_refused_at(production@, k as int, err, encode_utf8(source@)));
                    }
                    return Err(err);
                }
            }
            consumers.push(ProductionConsumer {
                package: e.package.clone(),
                binary: e.binary.clone(),
                reason: e.reason.clone(),
                target: copy_opt_string(&e.target),
                span,
            });
            k = k + 1;
        }
        let excluded = match accept_exclusions(path.as_str(), source.as_str(), &exclusions) {
            Ok(xs) => xs,
            Err(e) => {
                return Err(e);
            },
        };
        let profiles = match accept_profiles(path.as_str(), source.as_str(), &feature_profiles) {
            Ok(ps) => ps,
            Err(e) => {
                return Err(e);
            },
        };
        Ok(
            Config {
                path: Some(path),
                source,
                preserve_uniform_field_visibility,
                overrides: accepted,
                production: consumers,
                exclusions: excluded,
                feature_profiles: profiles,
            },
        )
    }

    /// The file the configuration was read from, if any.
    pub fn path(&self) -> (r: Option<&str>)
        ensures
            match r {
                Some(p) => self.spec_path() == Some(p@),
                None => self.spec_path() is None,
            },
    {
        match &self.path {
            Some(p) => Some(p.as_str()),
            None => None,
        }
    }

    /// Line `line` of the configuration file, counted from one.
    pub fn source_line(&self, line: usize) -> (r: Option<&str>)
        ensures
            match text_line(self.spec_source(), line as int) {
                Some(l) => r matches Some(x) && x.spec_bytes() == l,
                None => r is None,
            },
    {
        line_of(self.source.as_str(), line)
    }

    /// The production consumers that apply to the target, in file order.
    pub fn production_consumers(&self, target: &AnalysisTarget) -> (r: Vec<&ProductionConsumer>)
        requires
            self.wf(),
            target.wf(),
        ensures
            forall|m: int| 0 <= m < r@.len() ==> selector_applies((#[trigger] r@[m]).target, *target),
            consumers_of(r@) == self.spec_production().filter(|c: ProductionConsumer| selector_applies(c.target, *target)),
    {
        let mut r: Vec<&ProductionConsumer> = Vec::new();
        let mut i: usize = 0;
        while i < self.production.len()
            invariant
                i <= self.production@.len(),
                self.wf(),
                target.wf(),
                consumers_of(r@) == self.production@.take(i as int).filter(
                    |c: ProductionConsumer| selector_applies(c.target, *target),
                ),
            decreases self.production@.len() - i,
        {
            let c = &self.production[i];
            proof {
                reveal(Seq::filter);
                assert(self.production@.take(i + 1).drop_last() =~= self.production@.take(i as int));
                assert(!invalid_selector(self.spec_production()[i as int].target));
            }
            if applies(&c.target, target) {
                let ghost before = r@;
                r.push(c);
                proof {
                    assert(consumers_of(r@) =~= consumers_of(before).push(*c));
                }
            }
            i = i + 1;
        }
        proof {
            assert(self.production@.take(i as int) =~= self.production@);
            assert forall|m: int| 0 <= m < r@.len() implies selector_applies((#[trigger] r@[m]).target, *target) by {
                assert(consumers_of(r@)[m] == *r@[m]);
                self.production@.lemma_filter_pred(|c: ProductionConsumer| selector_applies(c.target, *target), m);
            }
        }
        r
    }
}

/// A configuration diagnostic and the override it concerns.
#[derive(Clone, Copy, Debug)]
pub struct ConfigDiagnostic<'a> {
    pub kind: ConfigDiagnosticKind,
    pub entry: &'a LintOverride,
}

/// The findings that remain once the overrides apply, and what the overrides
/// report of themselves.
pub struct AppliedFindings<'findings, 'config> {
    pub findings: Vec<Finding<'findings>>,
    pub config_diagnostics: Vec<ConfigDiagnostic<'config>>,
}

/// Whether the override's selectors name the definition: its crate, its
/// item, and its kind where the override gives one.
pub open spec fn identifies(e: LintOverride, d: Definition) -> bool {
    &&& d.crate_name@ == e.crate_name@
    &&& d.name@ == e.item@
    &&& e.definition_kind matches Some(k) ==> k == d.kind
}

/// Among the first `j` definitions of `f`, one is named by the override and
/// has kind `k`.
pub open spec fn fragment_declares(f: Fragment, e: LintOverride, k: DefinitionKind, j: int) -> bool {
    exists|jj: int|
        0 <= jj < j && jj < f.definitions@.len() && identifies(e, #[trigger] f.definitions@[jj])
            && f.definitions@[jj].kind == k
}

/// Among the first `q` fragments, one declares a definition of kind `k`
/// that the override names.
pub open spec fn declares_in(fs: Seq<Fragment>, e: LintOverride, k: DefinitionKind, q: int) -> bool {
    exists|i: int| 0 <= i < q && i < fs.len() && fragment_declares(#[trigger] fs[i], e, k, fs[i].definitions@.len() as int)
}

/// The fragments declare a definition of kind `k` that the override names.
pub open spec fn declares_kind(fs: Seq<Fragment>, e: LintOverride, k: DefinitionKind) -> bool {
    declares_in(fs, e, k, fs.len() as int)
}

/// What a scan of definition kinds has found: `first` is a kind seen, if any
/// was; `many` tells whether two distinct kinds were.
pub open spec fn kinds_summary(
    first: Option<DefinitionKind>,
    many: bool,
    seen: spec_fn(DefinitionKind) -> bool,
) -> bool {
    &&& (first is None <==> forall|k: DefinitionKind| !#[trigger] seen(k))
    &&& (first matches Some(k0) ==> seen(k0))
    &&& (many <==> exists|k1: DefinitionKind, k2: DefinitionKind| k1 != k2 && #[trigger] seen(k1) && #[trigger] seen(k2))
}

/// Taking in one more kind, if `hit`, keeps a summary exact.
proof fn lemma_summary_step(
    first: Option<DefinitionKind>,
    many: bool,
    f: spec_fn(DefinitionKind) -> bool,
    g: spec_fn(DefinitionKind) -> bool,
    kind: DefinitionKind,
    hit: bool,
)
    requires
        kinds_summary(first, many, f),
        forall|k: DefinitionKind| #[trigger] g(k) == (f(k) || (hit && k == kind)),
    ensures
        kinds_summary(
            if hit && first is None {
                Some(kind)
            } else {
                first
            },
            many || (hit && first is Some && first.unwrap() != kind),
            g,
        ),
{
    if hit {
        assert(g(kind));
        match first {
            None => {
                assert forall|k: DefinitionKind| #[trigger] g(k) implies k == kind by {
                    assert(!f(k));
                }
                assert(!many);
            },
            Some(k0) => {
                assert(f(k0));
                assert(g(k0));
                if k0 == kind {
                    assert forall|k: DefinitionKind| #[trigger] g(k) == f(k) by {}
                    assert(g =~= f);
                }
            },
        }
    } else {
        assert forall|k: DefinitionKind| #[trigger] g(k) == f(k) by {}
        assert(g =~= f);
    }
}

/// One more definition of a fragment, in declaration terms.
proof fn lemma_fragment_declares_step(f: Fragment, e: LintOverride, j: int)
    requires
        0 <= j < f.definitions@.len(),
    ensures
        forall|k: DefinitionKind|
            #[trigger] fragment_declares(f, e, k, j + 1) == (fragment_declares(f, e, k, j) || (identifies(
                e,
                f.definitions@[j],
            ) && f.definitions@[j].kind == k)),
{
    assert forall|k: DefinitionKind|
        #[trigger] fragment_declares(f, e, k, j + 1) == (fragment_declares(f, e, k, j) || (identifies(
            e,
            f.definitions@[j],
        ) && f.definitions@[j].kind == k)) by {
        if fragment_declares(f, e, k, j + 1) && !fragment_declares(f, e, k, j) {
            let jj = choose|jj: int|
                0 <= jj < j + 1 && jj < f.definitions@.len() && identifies(e, #[trigger] f.definitions@[jj])
                    && f.definitions@[jj].kind == k;
            assert(jj == j);
        }
    }
}

/// One more fragment, in declaration terms.
proof fn lemma_declares_in_step(fs: Seq<Fragment>, e: LintOverride, q: int)
    requires
        0 <= q < fs.len(),
    ensures
        forall|k: DefinitionKind|
            #[trigger] declares_in(fs, e, k, q + 1) == (declares_in(fs, e, k, q) || fragment_declares(
                fs[q],
                e,
                k,
                fs[q].definitions@.len() as int,
            )),
{
    assert forall|k: DefinitionKind|
        #[trigger] declares_in(fs, e, k, q + 1) == (declares_in(fs, e, k, q) || fragment_declares(
            fs[q],
            e,
            k,
            fs[q].definitions@.len() as int,
        )) by {
        if declares_in(fs, e, k, q + 1) && !declares_in(fs, e, k, q) {
            let i = choose|i: int|
                0 <= i < q + 1 && i < fs.len() && fragment_declares(#[trigger] fs[i], e, k, fs[i].definitions@.len() as int);
            assert(i == q);
        }
    }
}

/// The production fragments followed by the test fragments declare exactly
/// what either declares.
proof fn lemma_declares_concat(p: Seq<Fragment>, t: Seq<Fragment>, e: LintOverride)
    ensures
        forall|k: DefinitionKind|
            #[trigger] declares_kind(p + t, e, k) == (declares_kind(p, e, k) || declares_kind(t, e, k)),
{
    let fs = p + t;
    assert forall|k: DefinitionKind| #[trigger] declares_kind(p + t, e, k) == (declares_kind(p, e, k) || declares_kind(t, e, k)) by {
        if declares_kind(fs, e, k) {
            let i = choose|i: int|
                0 <= i < fs.len() && i < fs.len() && fragment_declares(#[trigger] fs[i], e, k, fs[i].definitions@.len() as int);
            if i < p.len() {
                assert(fs[i] == p[i]);
            } else {
                assert(fs[i] == t[i - p.len()]);
            }
        }
        if declares_kind(p, e, k) {
            let i = choose|i: int|
                0 <= i < p.len() && i < p.len() && fragment_declares(#[trigger] p[i], e, k, p[i].definitions@.len() as int);
            assert(fs[i] == p[i]);
        }
        if declares_kind(t, e, k) {
            let i = choose|i: int|
                0 <= i < t.len() && i < t.len() && fragment_declares(#[trigger] t[i], e, k, t[i].definitions@.len() as int);
            assert(fs[i + p.len()] == t[i]);
        }
    }
}

/// Whether a definition is named by an override, in executable form.
fn identifies_exec(e: &LintOverride, d: &Definition) -> (r: bool)
    ensures
        r == identifies(*e, *d),
{
    str_eq(d.crate_name.as_str(), e.crate_name.as_str()) && str_eq(d.name.as_str(), e.item.as_str()) && match e.definition_kind {
        Some(k) => k == d.kind,
        None => true,
    }
}

/// Continues a scan of the kinds that the override names with the
/// definitions of `fs`.
fn scan_kinds(
    fs: &[Fragment],
    e: &LintOverride,
    first: Option<DefinitionKind>,
    many: bool,
    Ghost(prior): Ghost<spec_fn(DefinitionKind) -> bool>,
) -> (r: (Option<DefinitionKind>, bool))
    requires
        kinds_summary(first, many, prior),
    ensures
        kinds_summary(r.0, r.1, |k: DefinitionKind| prior(k) || declares_kind(fs@, *e, k)),
{
    let mut first = first;
    let mut many = many;
    let mut q: usize = 0;
    proof {
        let g = |k: DefinitionKind| prior(k) || declares_in(fs@, *e, k, 0);
        assert(g =~= prior);
    }
    while q < fs.len()
        invariant
            q <= fs@.len(),
            kinds_summary(first, many, |k: DefinitionKind| prior(k) || declares_in(fs@, *e, k, q as int)),
        decreases fs@.len() - q,
    {
        let f = &fs[q];
        let mut j: usize = 0;
        proof {
            let g = |k: DefinitionKind| prior(k) || declares_in(fs@, *e, k, q as int) || fragment_declares(*f, *e, k, 0);
            let h = |k: DefinitionKind| prior(k) || declares_in(fs@, *e, k, q as int);
            assert(g =~= h);
        }
        while j < f.definitions.len()
            invariant
                q < fs@.len(),
                *f == fs@[q as int],
                j <= f.definitions@.len(),
                kinds_summary(
                    first,
                    many,
                    |k: DefinitionKind| prior(k) || declares_in(fs@, *e, k, q as int) || fragment_declares(*f, *e, k, j as int),
                ),
            decreases f.definitions@.len() - j,
        {
            let d = &f.definitions[j];
            let hit = identifies_exec(e, d);
            proof {
                lemma_fragment_declares_step(*f, *e, j as int);
                lemma_summary_step(
                    first,
                    many,
                    |k: DefinitionKind| prior(k) || declares_in(fs@, *e, k, q as int) || fragment_declares(*f, *e, k, j as int),
                    |k: DefinitionKind| prior(k) || declares_in(fs@, *e, k, q as int) || fragment_declares(*f, *e, k, j + 1),
                    d.kind,
                    hit,
                );
            }
            if hit {
                match first {
                    None => {
                        first = Some(d.kind);
                    },
                    Some(k0) => {
                        if k0 != d.kind {
                            many = true;
                        }
                    },
                }
            }
            j = j + 1;
        }
        proof {
            lemma_declares_in_step(fs@, *e, q as int);
            let g = |k: DefinitionKind| prior(k) || declares_in(fs@, *e, k, q + 1);
            let h = |k: DefinitionKind|
                prior(k) || declares_in(fs@, *e, k, q as int) || fragment_declares(*f, *e, k, f.definitions@.len() as int);
            assert(g =~= h);
        }
        q = q + 1;
    }
    proof {
        let g = |k: DefinitionKind| prior(k) || declares_in(fs@, *e, k, q as int);
        let h = |k: DefinitionKind| prior(k) || declares_kind(fs@, *e, k);
        assert(g =~= h);
    }
    (first, many)
}

/// The override names no compiled definition.
pub open spec fn selects_none(fs: Seq<Fragment>, e: LintOverride) -> bool {
    forall|k: DefinitionKind| !#[trigger] declares_kind(fs, e, k)
}

/// The override names definitions of two distinct kinds.
pub open spec fn selects_many(fs: Seq<Fragment>, e: LintOverride) -> bool {
    exists|k1: DefinitionKind, k2: DefinitionKind|
        k1 != k2 && #[trigger] declares_kind(fs, e, k1) && #[trigger] declares_kind(fs, e, k2)
}

/// The override applies to the target and names exactly one item.
pub open spec fn is_active(e: LintOverride, target: AnalysisTarget, fs: Seq<Fragment>) -> bool {
    selector_applies(e.target, target) && !selects_none(fs, e) && !selects_many(fs, e)
}

/// The override selects the finding: its lint and the finding's definition.
pub open spec fn selects_finding(e: LintOverride, f: Finding) -> bool {
    e.lint == f.kind && identifies(e, *f.definition)
}

/// Some finding is selected by the override.
pub open spec fn fulfilled(e: LintOverride, findings: Seq<Finding>) -> bool {
    exists|i: int| 0 <= i < findings.len() && selects_finding(e, #[trigger] findings[i])
}

/// What an override reports of itself: an unknown or ambiguous item, or an
/// expectation that no finding fulfills; an override that does not apply to
/// the target reports nothing.
pub open spec fn override_report(
    e: LintOverride,
    target: AnalysisTarget,
    fs: Seq<Fragment>,
    findings: Seq<Finding>,
) -> Option<ConfigDiagnosticKind> {
    if !selector_applies(e.target, target) {
        None
    } else if selects_none(fs, e) {
        Some(ConfigDiagnosticKind::UnknownItem)
    } else if selects_many(fs, e) {
        Some(ConfigDiagnosticKind::AmbiguousItem)
    } else if e.level == OverrideLevel::Expect && !fulfilled(e, findings) {
        Some(ConfigDiagnosticKind::UnfulfilledExpectation)
    } else {
        None
    }
}

/// The reports of the first `n` overrides, each with the position of its
/// override.
pub open spec fn reports_upto(
    es: Seq<LintOverride>,
    n: int,
    target: AnalysisTarget,
    fs: Seq<Fragment>,
    findings: Seq<Finding>,
) -> Seq<(ConfigDiagnosticKind, int)>
    decreases n,
{
    if n <= 0 {
        Seq::empty()
    } else {
        let before = reports_upto(es, n - 1, target, fs, findings);
        match override_report(es[n - 1], target, fs, findings) {
            Some(k) => before.push((k, n - 1)),
            None => before,
        }
    }
}

/// An active override selects the finding.
pub open spec fn overridden(es: Seq<LintOverride>, target: AnalysisTarget, fs: Seq<Fragment>, f: Finding) -> bool {
    exists|i: int| 0 <= i < es.len() && is_active(#[trigger] es[i], target, fs) && selects_finding(es[i], f)
}

/// Whether the override selects the finding, in executable form.
fn selects_finding_exec(e: &LintOverride, f: &Finding) -> (r: bool)
    ensures
        r == selects_finding(*e, *f),
{
    e.lint == f.kind && identifies_exec(e, f.definition)
}

impl Config {
    /// Whether an exclusion that applies to the target holds the finding's
    /// declaration.
    fn excludes(&self, target: &AnalysisTarget, f: &Finding) -> (r: bool)
        requires
            self.wf(),
            target.wf(),
        ensures
            r == excluded(self.spec_exclusions(), *target, *f),
    {
        let mut i: usize = 0;
        while i < self.exclusions.len()
            invariant
                self.wf(),
                target.wf(),
                i <= self.exclusions@.len(),
                forall|j: int|
                    0 <= j < i ==> !(selector_applies(self.exclusions@[j].target, *target) && excludes_definition(
                        #[trigger] self.exclusions@[j],
                        *f.definition,
                    )),
            decreases self.exclusions@.len() - i,
        {
            let x = &self.exclusions[i];
            proof {
                assert(!invalid_selector(self.spec_exclusions()[i as int].target));
            }
            if applies(&x.target, target) && excludes_exec(x, f.definition) {
                return true;
            }
            i = i + 1;
        }
        false
    }

    /// Applies the overrides that apply to the target to the findings of an
    /// analysis of `production_fragments` and `test_fragments`: an override
    /// that names no compiled item, or items of several kinds, is reported and
    /// suppresses nothing; one that names exactly one suppresses the findings
    /// it selects, and an expectation that selects none is reported.
    pub fn apply<'findings, 'config>(
        &'config self,
        target: &AnalysisTarget,
        production_fragments: &[Fragment],
        test_fragments: &[Fragment],
        findings: Vec<Finding<'findings>>,
    ) -> (r: AppliedFindings<'findings, 'config>)
        requires
            self.wf(),
            target.wf(),
        ensures
            r.findings@ == findings@.filter(
                |f: Finding|
                    !overridden(self.spec_overrides(), *target, production_fragments@ + test_fragments@, f) && !excluded(
                        self.spec_exclusions(),
                        *target,
                        f,
                    ),
            ),
            r.config_diagnostics@.len() == reports_upto(
                self.spec_overrides(),
                self.spec_overrides().len() as int,
                *target,
                production_fragments@ + test_fragments@,
                findings@,
            ).len(),
            forall|m: int|
                #![trigger r.config_diagnostics@[m]]
                0 <= m < r.config_diagnostics@.len() ==> {
                    let report = reports_upto(
                        self.spec_overrides(),
                        self.spec_overrides().len() as int,
                        *target,
                        production_fragments@ + test_fragments@,
                        findings@,
                    )[m];
                    &&& r.config_diagnostics@[m].kind == report.0
                    &&& 0 <= report.1 < self.spec_overrides().len()
                    &&& *r.config_diagnostics@[m].entry == self.spec_overrides()[report.1]
                },
    {
        let ghost fs = production_fragments@ + test_fragments@;
        let ghost es = self.overrides@;
        let mut diagnostics: Vec<ConfigDiagnostic<'config>> = Vec::new();
        let mut active: Vec<bool> = Vec::new();
        let mut i: usize = 0;
        while i < self.overrides.len()
            invariant
                es == self.overrides@,
                fs == production_fragments@ + test_fragments@,
                self.wf(),
                target.wf(),
                i <= es.len(),
                active@.len() == i,
                forall|j: int| 0 <= j < i ==> active@[j] == is_active(#[trigger] es[j], *target, fs),
                diagnostics@.len() == reports_upto(es, i as int, *target, fs, findings@).len(),
                forall|m: int|
                    #![trigger diagnostics@[m]]
                    0 <= m < diagnostics@.len() ==> {
                        let report = reports_upto(es, i as int, *target, fs, findings@)[m];
                        &&& diagnostics@[m].kind == report.0
                        &&& 0 <= report.1 < i
                        &&& *diagnostics@[m].entry == es[report.1]
                    },
            decreases es.len() - i,
        {
            let e = &self.overrides[i];
            let ghost before = reports_upto(es, i as int, *target, fs, findings@);
            proof {
                assert(!invalid_selector(self.spec_overrides()[i as int].target));
            }
            let mut report: Option<ConfigDiagnosticKind> = None;
            let mut is_on = false;
            if applies(&e.target, target) {
                let ghost nothing = |k: DefinitionKind| false;
                let ghost in_production = |k: DefinitionKind| declares_kind(production_fragments@, *e, k);
                let ghost in_both = |k: DefinitionKind| declares_kind(fs, *e, k);
                let (first, many) = scan_kinds(production_fragments, e, None, false, Ghost(nothing));
                proof {
                    let g = |k: DefinitionKind| nothing(k) || declares_kind(production_fragments@, *e, k);
                    assert(g =~= in_production);
                }
                let (first, many) = scan_kinds(test_fragments, e, first, many, Ghost(in_production));
                proof {
                    lemma_declares_concat(production_fragments@, test_fragments@, *e);
                    let g = |k: DefinitionKind| in_production(k) || declares_kind(test_fragments@, *e, k);
                    assert(g =~= in_both);
                    assert(many <==> selects_many(fs, *e)) by {
                        if selects_many(fs, *e) {
                            let (k1, k2) = choose|k1: DefinitionKind, k2: DefinitionKind|
                                k1 != k2 && #[trigger] declares_kind(fs, *e, k1) && #[trigger] declares_kind(fs, *e, k2);
                            assert(in_both(k1) && in_both(k2));
                        }
                        if many {
                            let (k1, k2) = choose|k1: DefinitionKind, k2: DefinitionKind|
                                k1 != k2 && #[trigger] in_both(k1) && #[trigger] in_both(k2);
                            assert(declares_kind(fs, *e, k1) && declares_kind(fs, *e, k2));
                        }
                    }
                    assert(first is None <==> selects_none(fs, *e)) by {
                        if first is None {
                            assert forall|k: DefinitionKind| !#[trigger] declares_kind(fs, *e, k) by {
                                assert(!in_both(k));
                            }
                        } else {
                            assert(in_both(first.unwrap()));
                        }
                    }
                }
                if first.is_none() {
                    report = Some(ConfigDiagnosticKind::UnknownItem);
                } else if many {
                    report = Some(ConfigDiagnosticKind::AmbiguousItem);
                } else {
                    is_on = true;
                    if e.level == OverrideLevel::Expect {
                        let mut seen = false;
                        let mut n: usize = 0;
                        while n < findings.len()
                            invariant
                                n <= findings@.len(),
                                seen == exists|x: int| 0 <= x < n && selects_finding(*e, #[trigger] findings@[x]),
                            decreases findings@.len() - n,
                        {
                            if selects_finding_exec(e, &findings[n]) {
                                seen = true;
                            }
                            n = n + 1;
                        }
                        if !seen {
                            report = Some(ConfigDiagnosticKind::UnfulfilledExpectation);
                        }
                    }
                }
            }
            proof {
                assert(report == override_report(*e, *target, fs, findings@));
                assert(is_on == is_active(*e, *target, fs));
            }
            active.push(is_on);
            if let Some(kind) = report {
                diagnostics.push(ConfigDiagnostic { kind, entry: e });
            }
            proof {
                assert(reports_upto(es, i + 1, *target, fs, findings@) == match override_report(
                    es[i as int],
                    *target,
                    fs,
                    findings@,
                ) {
                    Some(k) => before.push((k, i as int)),
                    None => before,
                });
            }
            i = i + 1;
        }
        let mut kept: Vec<Finding<'findings>> = Vec::new();
        let mut n: usize = 0;
        while n < findings.len()
            invariant
                es == self.overrides@,
                fs == production_fragments@ + test_fragments@,
                active@.len() == es.len(),
                forall|j: int| 0 <= j < es.len() ==> active@[j] == is_active(#[trigger] es[j], *target, fs),
                n <= findings@.len(),
                self.wf(),
                target.wf(),
                kept@ == findings@.take(n as int).filter(
                    |f: Finding| !overridden(es, *target, fs, f) && !excluded(self.exclusions@, *target, f),
                ),
            decreases findings@.len() - n,
        {
            let f = &findings[n];
            let mut hidden = false;
            let mut j: usize = 0;
            while j < self.overrides.len()
                invariant
                    es == self.overrides@,
                    active@.len() == es.len(),
                    forall|x: int| 0 <= x < es.len() ==> active@[x] == is_active(#[trigger] es[x], *target, fs),
                    j <= es.len(),
                    hidden == exists|x: int|
                        0 <= x < j && is_active(#[trigger] es[x], *target, fs) && selects_finding(es[x], *f),
                decreases es.len() - j,
            {
                if active[j] && selects_finding_exec(&self.overrides[j], f) {
                    hidden = true;
                }
                j = j + 1;
            }
            let out = self.excludes(target, f);
            proof {
                reveal(Seq::filter);
                assert(findings@.take(n + 1).drop_last() =~= findings@.take(n as int));
                assert(hidden == overridden(es, *target, fs, *f));
            }
            let hidden = hidden || out;
            if !hidden {
                let ghost before = kept@;
                kept.push(
                    Finding {
                        kind: f.kind,
                        definition: f.definition,
                        test_only: f.test_only,
                        test_compiled_only: f.test_compiled_only,
                    },
                );
                proof {
                    assert(kept@ =~= before.push(findings@[n as int]));
                }
            }
            n = n + 1;
        }
        proof {
            assert(findings@.take(n as int) =~= findings@);
        }
        AppliedFindings { findings: kept, config_diagnostics: diagnostics }
    }
}

} // verus!
