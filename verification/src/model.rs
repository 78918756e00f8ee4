//! The serialized graph model shared by the compiler wrapper and the frontend.

use vstd::prelude::*;

use crate::text::str_eq;

verus! {

/// Marker for the fragment protocol; the wrapper and frontend must agree on it.
#[derive(Clone, Copy, Debug, PartialEq, Eq, Structural)]
pub struct ProtocolVersion;

/// The protocol version that this library speaks.
pub const PROTOCOL_VERSION: u32 = 2;

/// Options that change how a compiler wrapper collects fragments.
#[derive(Clone, Copy, Debug, PartialEq, Eq, Structural)]
pub struct CollectionOptions {
    preserve_uniform_field_visibility: bool,
}

impl View for CollectionOptions {
    type V = bool;

    /// Whether uniform field-visibility groups are recorded.
    closed spec fn view(&self) -> bool {
        self.preserve_uniform_field_visibility
    }
}

/// The environment value that selects the default collection options.
pub open spec fn default_option_text() -> Seq<char> {
    "default"@
}

/// The environment value that selects uniform field-visibility collection.
pub open spec fn preserve_option_text() -> Seq<char> {
    "preserve-uniform-field-visibility"@
}

/// The environment value of the options whose setting is `preserve`.
pub open spec fn option_text(preserve: bool) -> Seq<char> {
    if preserve {
        preserve_option_text()
    } else {
        default_option_text()
    }
}

/// The setting that an environment value selects, or `None` for an unknown value.
pub open spec fn options_from_text(t: Seq<char>) -> Option<bool> {
    if t == default_option_text() {
        Some(false)
    } else if t == preserve_option_text() {
        Some(true)
    } else {
        None
    }
}

/// The characters of an optional string.
pub open spec fn optional_text(value: Option<&str>) -> Option<Seq<char>> {
    match value {
        Some(v) => Some(v@),
        None => None,
    }
}

/// The setting selected by an optional environment value: the defaults when
/// it is absent.
pub open spec fn env_options(value: Option<Seq<char>>) -> Option<bool> {
    match value {
        None => Some(false),
        Some(t) => options_from_text(t),
    }
}

impl Default for CollectionOptions {
    fn default() -> (r: Self)
        ensures
            r@ == false,
    {
        CollectionOptions { preserve_uniform_field_visibility: false }
    }
}

impl CollectionOptions {
    pub fn new(preserve_uniform_field_visibility: bool) -> (r: Self)
        ensures
            r@ == preserve_uniform_field_visibility,
    {
        CollectionOptions { preserve_uniform_field_visibility }
    }

    pub fn preserve_uniform_field_visibility(self) -> (r: bool)
        ensures
            r == self@,
    {
        self.preserve_uniform_field_visibility
    }

    /// The value that transports these options through the environment.
    pub fn as_env_value(self) -> (r: &'static str)
        ensures
            r@ == option_text(self@),
    {
        if self.preserve_uniform_field_visibility {
            "preserve-uniform-field-visibility"
        } else {
            "default"
        }
    }

    /// Reads options from an environment value; an absent value selects the
    /// defaults and an unknown value is rejected.
    pub fn from_env_value(value: Option<&str>) -> (r: Option<Self>)
        ensures
            match r {
                Some(o) => env_options(optional_text(value)) == Some(o@),
                None => env_options(optional_text(value)) is None,
            },
    {
        match value {
            None => Some(CollectionOptions::new(false)),
            Some(v) => {
                if str_eq(v, "default") {
                    Some(CollectionOptions::new(false))
                } else if str_eq(v, "preserve-uniform-field-visibility") {
                    Some(CollectionOptions::new(true))
                } else {
                    None
                }
            },
        }
    }

    /// Reading back the environment value of some options gives those options.
    pub proof fn lemma_env_value_round_trip(preserve: bool)
        ensures
            options_from_text(option_text(preserve)) == Some(preserve),
    {
        reveal_strlit("default");
        reveal_strlit("preserve-uniform-field-visibility");
        assert(default_option_text().len() != preserve_option_text().len());
    }
}

/// A source location: file, one-based line and one-based column.
#[derive(Clone, Debug, PartialEq, Eq, Hash)]
pub struct Span {
    pub file: String,
    pub line: usize,
    pub column: usize,
}

/// The plain value of a source location.
pub open spec fn span_view(s: Span) -> (Seq<char>, usize, usize) {
    (s.file@, s.line, s.column)
}

/// The plain value of an optional source location.
pub open spec fn opt_span_view(s: Option<Span>) -> Option<(Seq<char>, usize, usize)> {
    match s {
        Some(s) => Some(span_view(s)),
        None => None,
    }
}

/// A copy of a source location with equal fields.
pub fn copy_span(s: &Span) -> (r: Span)
    ensures
        r == *s,
{
    Span { file: s.file.clone(), line: s.line, column: s.column }
}

/// A copy of an optional source location with equal fields.
pub fn copy_opt_span(s: &Option<Span>) -> (r: Option<Span>)
    ensures
        r == *s,
{
    match s {
        Some(s) => Some(copy_span(s)),
        None => None,
    }
}

/// The kind of a declaration recorded in a fragment.
#[derive(Clone, Copy, Debug, PartialEq, Eq, Hash, PartialOrd, Ord, Structural)]
pub enum DefinitionKind {
    Function,
    InherentMethod,
    InherentAssociatedConstant,
    Trait,
    Struct,
    Enum,
    Union,
    TypeAlias,
    Constant,
    Static,
    Field,
    EnumVariant,
    Reexport,
    Module,
    Other,
}

/// The position of a definition kind in declaration order.
pub open spec fn definition_kind_rank(k: DefinitionKind) -> nat {
    match k {
        DefinitionKind::Function => 0,
        DefinitionKind::InherentMethod => 1,
        DefinitionKind::InherentAssociatedConstant => 2,
        DefinitionKind::Trait => 3,
        DefinitionKind::Struct => 4,
        DefinitionKind::Enum => 5,
        DefinitionKind::Union => 6,
        DefinitionKind::TypeAlias => 7,
        DefinitionKind::Constant => 8,
        DefinitionKind::Static => 9,
        DefinitionKind::Field => 10,
        DefinitionKind::EnumVariant => 11,
        DefinitionKind::Reexport => 12,
        DefinitionKind::Module => 13,
        DefinitionKind::Other => 14,
    }
}

impl DefinitionKind {
    /// The position of this kind in declaration order.
    pub fn rank(self) -> (r: u8)
        ensures
            r as nat == definition_kind_rank(self),
    {
        match self {
            DefinitionKind::Function => 0,
            DefinitionKind::InherentMethod => 1,
            DefinitionKind::InherentAssociatedConstant => 2,
            DefinitionKind::Trait => 3,
            DefinitionKind::Struct => 4,
            DefinitionKind::Enum => 5,
            DefinitionKind::Union => 6,
            DefinitionKind::TypeAlias => 7,
            DefinitionKind::Constant => 8,
            DefinitionKind::Static => 9,
            DefinitionKind::Field => 10,
            DefinitionKind::EnumVariant => 11,
            DefinitionKind::Reexport => 12,
            DefinitionKind::Module => 13,
            DefinitionKind::Other => 14,
        }
    }
}

/// The relation that an edge records between two declarations.
#[derive(Clone, Copy, Debug, PartialEq, Eq, Structural)]
pub enum EdgeKind {
    Body,
    Interface,
    Reexport,
    VisibilityParent,
    VisibilityRequirement,
}

/// A declaration recorded by the compiler wrapper.
#[derive(Clone, Debug)]
pub struct Definition {
    pub id: String,
    pub crate_name: String,
    pub name: String,
    pub kind: DefinitionKind,
    pub span: Option<Span>,
    pub public_api: bool,
    pub restricted_visible_api: bool,
    pub crate_visible_api: bool,
    pub visible_reexport_api: bool,
    pub module_scope: Vec<String>,
    pub uniform_field_group: Option<Span>,
    pub dead_code_allowed: bool,
}

/// A typed reference from one declaration to another.
#[derive(Clone, Debug)]
pub struct Edge {
    pub from: String,
    pub to: String,
    pub kind: EdgeKind,
}

/// Everything that one compiled crate contributes to the graph.
#[derive(Clone, Debug)]
pub struct Fragment {
    pub protocol_version: ProtocolVersion,
    pub package_name: String,
    pub crate_name: String,
    pub crate_id: String,
    pub is_product_root: bool,
    pub test_surface: bool,
    pub definitions: Vec<Definition>,
    pub edges: Vec<Edge>,
    pub roots: Vec<String>,
    pub conservative_roots: Vec<String>,
    pub required_public_roots: Vec<String>,
}

/// The declarations whose visibility a fix compilation should change.
#[derive(Clone, Debug)]
pub struct FixPlan {
    pub protocol_version: ProtocolVersion,
    pub targets: Vec<FixTarget>,
}

/// One declaration of a fix plan and the visibility it should receive.
#[derive(Clone, Debug)]
pub struct FixTarget {
    pub id: String,
    pub crate_name: String,
    pub name: String,
    pub definition_kind: DefinitionKind,
    pub span: Option<Span>,
    pub kind: FindingKind,
    pub replacement: VisibilityReduction,
}

/// The diagnostics that the analysis can report.
#[derive(Clone, Copy, Debug, PartialEq, Eq, PartialOrd, Ord, Structural)]
pub enum FindingKind {
    DeadPublic,
    UnnecessaryPublic,
    UnnecessaryRestrictedVisibility,
    UnnecessaryCrateVisibility,
}

/// The position of a finding kind in declaration order.
pub open spec fn finding_kind_rank(k: FindingKind) -> nat {
    match k {
        FindingKind::DeadPublic => 0,
        FindingKind::UnnecessaryPublic => 1,
        FindingKind::UnnecessaryRestrictedVisibility => 2,
        FindingKind::UnnecessaryCrateVisibility => 3,
    }
}

/// The visibility that a reducible finding proposes.
#[derive(Clone, Copy, Debug, PartialEq, Eq, Structural)]
pub enum VisibilityReduction {
    Crate,
    Super,
    Private,
}

/// The source text that replaces a visibility modifier.
pub open spec fn replacement_text(r: VisibilityReduction) -> Seq<char> {
    match r {
        VisibilityReduction::Crate => "pub(crate)"@,
        VisibilityReduction::Super => "pub(super)"@,
        VisibilityReduction::Private => ""@,
    }
}

impl VisibilityReduction {
    pub fn replacement(self) -> (r: &'static str)
        ensures
            r@ == replacement_text(self),
    {
        match self {
            VisibilityReduction::Crate => "pub(crate)",
            VisibilityReduction::Super => "pub(super)",
            VisibilityReduction::Private => "",
        }
    }
}

/// The lint code of a finding kind.
pub open spec fn finding_code(k: FindingKind) -> Seq<char> {
    match k {
        FindingKind::DeadPublic => "hawk::dead_public"@,
        FindingKind::UnnecessaryPublic => "hawk::unnecessary_public"@,
        FindingKind::UnnecessaryRestrictedVisibility => "hawk::unnecessary_restricted_visibility"@,
        FindingKind::UnnecessaryCrateVisibility => "hawk::unnecessary_crate_visibility"@,
    }
}

/// The visibility that a finding kind proposes, if any.
pub open spec fn spec_visibility_reduction(k: FindingKind) -> Option<VisibilityReduction> {
    match k {
        FindingKind::DeadPublic => None,
        FindingKind::UnnecessaryPublic => Some(VisibilityReduction::Crate),
        FindingKind::UnnecessaryRestrictedVisibility => Some(VisibilityReduction::Private),
        FindingKind::UnnecessaryCrateVisibility => Some(VisibilityReduction::Super),
    }
}

/// Distinct finding kinds have distinct lint codes, so reading back the code
/// of a kind gives that kind.
pub proof fn lemma_finding_code_injective(a: FindingKind, b: FindingKind)
    ensures
        finding_code(a) == finding_code(b) ==> a == b,
{
    reveal_strlit("hawk::dead_public");
    reveal_strlit("hawk::unnecessary_public");
    reveal_strlit("hawk::unnecessary_restricted_visibility");
    reveal_strlit("hawk::unnecessary_crate_visibility");
    assert(finding_code(FindingKind::DeadPublic).len() == 17);
    assert(finding_code(FindingKind::UnnecessaryPublic).len() == 24);
    assert(finding_code(FindingKind::UnnecessaryRestrictedVisibility).len() == 39);
    assert(finding_code(FindingKind::UnnecessaryCrateVisibility).len() == 34);
}

/// Every reducible finding kind proposes a visibility, and only a dead public
/// declaration proposes none.
pub proof fn lemma_reduction_presence(k: FindingKind)
    ensures
        spec_visibility_reduction(k) is None <==> k == FindingKind::DeadPublic,
{
}

impl FindingKind {
    pub fn code(self) -> (r: &'static str)
        ensures
            r@ == finding_code(self),
    {
        match self {
            FindingKind::DeadPublic => "hawk::dead_public",
            FindingKind::UnnecessaryPublic => "hawk::unnecessary_public",
            FindingKind::UnnecessaryRestrictedVisibility => "hawk::unnecessary_restricted_visibility",
            FindingKind::UnnecessaryCrateVisibility => "hawk::unnecessary_crate_visibility",
        }
    }

    /// The finding kind whose lint code is `code`.
    pub fn from_code(code: &str) -> (r: Option<Self>)
        ensures
            match r {
                Some(k) => finding_code(k) == code@,
                None => forall|k: FindingKind| finding_code(k) != code@,
            },
    {
        if str_eq(code, "hawk::dead_public") {
            Some(FindingKind::DeadPublic)
        } else if str_eq(code, "hawk::unnecessary_public") {
            Some(FindingKind::UnnecessaryPublic)
        } else if str_eq(code, "hawk::unnecessary_restricted_visibility") {
            Some(FindingKind::UnnecessaryRestrictedVisibility)
        } else if str_eq(code, "hawk::unnecessary_crate_visibility") {
            Some(FindingKind::UnnecessaryCrateVisibility)
        } else {
            proof {
                assert forall|k: FindingKind| finding_code(k) != code@ by {
                    match k {
                        FindingKind::DeadPublic => {},
                        FindingKind::UnnecessaryPublic => {},
                        FindingKind::UnnecessaryRestrictedVisibility => {},
                        FindingKind::UnnecessaryCrateVisibility => {},
                    }
                }
            }
            None
        }
    }

    pub fn visibility_reduction(self) -> (r: Option<VisibilityReduction>)
        ensures
            r == spec_visibility_reduction(self),
    {
        match self {
            FindingKind::DeadPublic => None,
            FindingKind::UnnecessaryPublic => Some(VisibilityReduction::Crate),
            FindingKind::UnnecessaryRestrictedVisibility => Some(VisibilityReduction::Private),
            FindingKind::UnnecessaryCrateVisibility => Some(VisibilityReduction::Super),
        }
    }
}

/// A reported declaration.
#[derive(Clone, Debug)]
pub struct Finding<'a> {
    pub kind: FindingKind,
    pub definition: &'a Definition,
    pub test_only: bool,
    pub test_compiled_only: bool,
}

/// The plain value of a declaration identity: crate, name, kind and location.
pub type IdentityView = (Seq<char>, Seq<char>, DefinitionKind, Option<(Seq<char>, usize, usize)>);

/// The identity of a declaration that survives recompilation.
#[derive(Clone, Copy, Debug, PartialEq, Eq, Hash)]
pub struct DefinitionIdentity<'a> {
    crate_name: &'a str,
    name: &'a str,
    kind: DefinitionKind,
    file: Option<&'a str>,
    line: Option<usize>,
    column: Option<usize>,
}

impl<'a> View for DefinitionIdentity<'a> {
    type V = IdentityView;

    closed spec fn view(&self) -> IdentityView {
        (
            self.crate_name@,
            self.name@,
            self.kind,
            match (self.file, self.line, self.column) {
                (Some(f), Some(l), Some(c)) => Some((f@, l, c)),
                _ => None,
            },
        )
    }
}

/// The identity of a declaration with the given parts.
pub open spec fn identity_view(
    crate_name: Seq<char>,
    name: Seq<char>,
    kind: DefinitionKind,
    span: Option<Span>,
) -> IdentityView {
    (crate_name, name, kind, opt_span_view(span))
}

/// The identity of a fix target.
pub open spec fn fix_target_identity_view(t: FixTarget) -> IdentityView {
    identity_view(t.crate_name@, t.name@, t.definition_kind, t.span)
}

/// The identity of a recorded definition.
pub open spec fn definition_identity_view(d: Definition) -> IdentityView {
    identity_view(d.crate_name@, d.name@, d.kind, d.span)
}

impl<'a> DefinitionIdentity<'a> {
    /// Whether two identities are equal.
    pub fn same(&self, other: &DefinitionIdentity) -> (r: bool)
        ensures
            r == (self@ == other@),
    {
        if !str_eq(self.crate_name, other.crate_name) || !str_eq(self.name, other.name) || self.kind != other.kind {
            return false;
        }
        let r = match (self.file, self.line, self.column, other.file, other.line, other.column) {
            (Some(f), Some(l), Some(c), Some(g), Some(m), Some(d)) => str_eq(f, g) && l == m && c == d,
            (Some(_), Some(_), Some(_), _, _, _) => false,
            (_, _, _, Some(_), Some(_), Some(_)) => false,
            _ => true,
        };
        r
    }

    pub fn new(
        crate_name: &'a str,
        name: &'a str,
        kind: DefinitionKind,
        span: Option<&'a Span>,
    ) -> (r: Self)
        ensures
            r@ == identity_view(
                crate_name@,
                name@,
                kind,
                match span {
                    Some(s) => Some(*s),
                    None => None,
                },
            ),
    {
        match span {
            Some(s) => DefinitionIdentity {
                crate_name,
                name,
                kind,
                file: Some(s.file.as_str()),
                line: Some(s.line),
                column: Some(s.column),
            },
            None => DefinitionIdentity {
                crate_name,
                name,
                kind,
                file: None,
                line: None,
                column: None,
            },
        }
    }
}

} // verus!
