//! The compilations that an analysis runs: which Cargo subcommand, with
//! which targets and options, in which consumer mode; and what the compiler
//! reports of itself.

use std::hash::{Hash, Hasher};

use vstd::prelude::*;
use vstd::string::{StrSliceExecFns, StringExecFns, StringSliceAdditionalSpecFns};

use crate::model::{option_text, CollectionOptions};
use crate::protocol::{
    decimal, push_decimal, COLLECTION_OPTIONS_ENV, CONSUMER_MODE_ENV, FIX_PLAN_ENV, OUTPUT_DIR_ENV, ROOT_CRATE_ENV,
    RUN_ID_ENV, VERSION, VERSION_ENV,
};
use crate::text::{byte_lines, is_white_space, line_of, push_char, strip_prefix, views};
use vstd::utf8::{encode_utf8, is_char_boundary};

verus! {

/// When output is coloured.
#[derive(Clone, Copy, Debug, PartialEq, Eq, Structural)]
pub enum TerminalColor {
    /// Colour output that goes to an interactive terminal.
    Auto,
    /// Always colour output.
    Always,
    /// Never colour output.
    Never,
}

impl Default for TerminalColor {
    fn default() -> (r: Self)
        ensures
            r == TerminalColor::Auto,
    {
        TerminalColor::Auto
    }
}

/// The value of Cargo's `--color` option for a colour choice.
pub open spec fn cargo_color(c: TerminalColor) -> Seq<char> {
    match c {
        TerminalColor::Auto => "auto"@,
        TerminalColor::Always => "always"@,
        TerminalColor::Never => "never"@,
    }
}

impl TerminalColor {
    /// The value of Cargo's `--color` option for this choice.
    pub fn cargo_value(self) -> (r: &'static str)
        ensures
            r@ == cargo_color(self),
    {
        match self {
            TerminalColor::Auto => "auto",
            TerminalColor::Always => "always",
            TerminalColor::Never => "never",
        }
    }
}

/// Which consumers a compilation builds: the production binaries, or the
/// workspace's tests, examples, benchmarks and doctests.
#[derive(Clone, Copy, Debug, PartialEq, Eq, Structural)]
pub enum ConsumerMode {
    Production,
    NonProduction,
}

/// The name of a consumer mode, as the compiler wrapper receives it.
pub open spec fn consumer_mode_text(m: ConsumerMode) -> Seq<char> {
    match m {
        ConsumerMode::Production => "production"@,
        ConsumerMode::NonProduction => "non-production"@,
    }
}

impl ConsumerMode {
    /// The name of this mode.
    pub fn as_str(self) -> (r: &'static str)
        ensures
            r@ == consumer_mode_text(self),
    {
        match self {
            ConsumerMode::Production => "production",
            ConsumerMode::NonProduction => "non-production",
        }
    }
}

/// A production binary: its package and binary target.
#[derive(Clone, Copy, Debug)]
pub struct ProductionSelection<'a> {
    pub package: &'a str,
    pub binary: &'a str,
}

/// A Cargo invocation of the analysis.
#[derive(Clone, Copy, Debug)]
pub enum CargoInvocation<'a> {
    /// Check one production binary.
    CheckProduction(ProductionSelection<'a>),
    /// Check every target of the workspace.
    CheckNonProduction,
    /// Build the workspace's doctests.
    CheckDoctests,
    /// Apply a fix plan to the libraries of the given packages.
    FixProduction { plan: &'a str, packages: &'a [String], allow_dirty: bool },
    /// Apply a fix plan to every target of the given packages.
    FixNonProduction { plan: &'a str, packages: &'a [String], allow_dirty: bool },
}

/// The fix plan that a fix invocation applies, and whether it may change a
/// dirty working tree.
#[derive(Clone, Copy, Debug)]
pub struct FixOptions<'a> {
    pub plan: &'a str,
    pub allow_dirty: bool,
}

/// What a Cargo invocation runs.
#[derive(Debug)]
pub struct CargoInvocationSpec<'a> {
    pub subcommand: &'static str,
    pub selection_arguments: Vec<String>,
    pub consumer_mode: ConsumerMode,
    pub root_crate: String,
    pub fix: Option<FixOptions<'a>>,
    pub doctests: bool,
}

/// The crate name of a Cargo target name: `-` becomes `_`.
pub open spec fn crate_name_text(name: Seq<char>) -> Seq<char> {
    Seq::new(
        name.len(),
        |i: int|
            if name[i] == '-' {
                '_'
            } else {
                name[i]
            },
    )
}

/// The crate name of a Cargo target name.
pub fn crate_name_of(name: &str) -> (r: String)
    ensures
        r@ == crate_name_text(name@),
{
    let n = name.unicode_len();
    let mut r = String::new();
    let mut i: usize = 0;
    while i < n
        invariant
            n == name@.len(),
            i <= n,
            r@ == crate_name_text(name@).take(i as int),
        decreases n - i,
    {
        let c = name.get_char(i);
        if c == '-' {
            push_char(&mut r, '_');
        } else {
            push_char(&mut r, c);
        }
        proof {
            assert(r@ =~= crate_name_text(name@).take(i + 1));
        }
        i = i + 1;
    }
    proof {
        assert(r@ =~= crate_name_text(name@));
    }
    r
}

/// `--package` and the name of each package, then the target option.
pub open spec fn spec_package_arguments(packages: Seq<Seq<char>>, target: Seq<char>) -> Seq<Seq<char>>
    decreases packages.len(),
{
    if packages.len() == 0 {
        seq![target]
    } else {
        seq!["--package"@, packages[0]] + spec_package_arguments(packages.drop_first(), target)
    }
}

/// The arguments that select the packages and then the targets.
pub fn package_arguments(packages: &[String], target: &str) -> (r: Vec<String>)
    ensures
        views(r@) == spec_package_arguments(views(packages@), target@),
{
    let mut r: Vec<String> = Vec::new();
    let mut i: usize = 0;
    let ghost all = views(packages@);
    proof {
        assert(all.skip(0) =~= all);
        assert(views(r@) + spec_package_arguments(all.skip(0), target@) =~= spec_package_arguments(all, target@));
    }
    while i < packages.len()
        invariant
            all == views(packages@),
            i <= packages@.len(),
            views(r@) + spec_package_arguments(all.skip(i as int), target@) == spec_package_arguments(all, target@),
        decreases packages@.len() - i,
    {
        let ghost before = views(r@);
        r.push(String::from_str("--package"));
        r.push(packages[i].clone());
        proof {
            let rest = all.skip(i as int);
            assert(rest[0] == packages@[i as int]@);
            assert(rest.drop_first() =~= all.skip(i + 1));
            assert(views(r@) =~= before + seq!["--package"@, packages@[i as int]@]);
            assert(before + spec_package_arguments(rest, target@) =~= views(r@) + spec_package_arguments(
                all.skip(i + 1),
                target@,
            ));
        }
        i = i + 1;
    }
    let ghost before = views(r@);
    r.push(String::from_str(target));
    proof {
        assert(all.skip(i as int).len() == 0);
        assert(views(r@) =~= before + seq![target@]);
    }
    r
}

/// What each invocation runs: `check` of one binary in production mode,
/// `check` of every target or `test --doc` in non-production mode, or `fix`
/// of the named packages' libraries (production) or of all their targets.
pub open spec fn invocation_spec(i: CargoInvocation) -> (
    Seq<char>,
    Seq<Seq<char>>,
    ConsumerMode,
    Seq<char>,
    Option<(Seq<char>, bool)>,
    bool,
) {
    match i {
        CargoInvocation::CheckProduction(p) => (
            "check"@,
            seq!["--package"@, p.package@, "--bin"@, p.binary@],
            ConsumerMode::Production,
            crate_name_text(p.binary@),
            None,
            false,
        ),
        CargoInvocation::CheckNonProduction => (
            "check"@,
            seq!["--workspace"@, "--all-targets"@],
            ConsumerMode::NonProduction,
            Seq::empty(),
            None,
            false,
        ),
        CargoInvocation::CheckDoctests => (
            "test"@,
            seq!["--workspace"@, "--doc"@],
            ConsumerMode::NonProduction,
            Seq::empty(),
            None,
            true,
        ),
        CargoInvocation::FixProduction { plan, packages, allow_dirty } => (
            "fix"@,
            spec_package_arguments(views(packages@), "--lib"@),
            ConsumerMode::Production,
            Seq::empty(),
            Some((plan@, allow_dirty)),
            false,
        ),
        CargoInvocation::FixNonProduction { plan, packages, allow_dirty } => (
            "fix"@,
            spec_package_arguments(views(packages@), "--all-targets"@),
            ConsumerMode::NonProduction,
            Seq::empty(),
            Some((plan@, allow_dirty)),
            false,
        ),
    }
}

/// The plain value of what an invocation runs.
pub open spec fn spec_view(s: CargoInvocationSpec) -> (
    Seq<char>,
    Seq<Seq<char>>,
    ConsumerMode,
    Seq<char>,
    Option<(Seq<char>, bool)>,
    bool,
) {
    (
        s.subcommand@,
        views(s.selection_arguments@),
        s.consumer_mode,
        s.root_crate@,
        match s.fix {
            Some(f) => Some((f.plan@, f.allow_dirty)),
            None => None,
        },
        s.doctests,
    )
}

/// Strings of the given texts.
fn strings2(a: &str, b: &str) -> (r: Vec<String>)
    ensures
        views(r@) == seq![a@, b@],
{
    let mut r: Vec<String> = Vec::new();
    r.push(String::from_str(a));
    r.push(String::from_str(b));
    proof {
        assert(views(r@) =~= seq![a@, b@]);
    }
    r
}

impl<'a> CargoInvocation<'a> {
    /// What this invocation runs.
    pub fn specification(self) -> (r: CargoInvocationSpec<'a>)
        ensures
            spec_view(r) == invocation_spec(self),
    {
        proof {
            reveal_strlit("check");
            reveal_strlit("test");
            reveal_strlit("fix");
        }
        match self {
            CargoInvocation::CheckProduction(product) => {
                let mut selection = strings2("--package", product.package);
                let ghost first = views(selection@);
                selection.push(String::from_str("--bin"));
                selection.push(String::from_str(product.binary));
                proof {
                    assert(views(selection@) =~= first.push("--bin"@).push(product.binary@));
                }
                let r = CargoInvocationSpec {
                    subcommand: "check",
                    selection_arguments: selection,
                    consumer_mode: ConsumerMode::Production,
                    root_crate: crate_name_of(product.binary),
                    fix: None,
                    doctests: false,
                };
                proof {
                    assert(views(r.selection_arguments@) =~= seq!["--package"@, product.package@, "--bin"@, product.binary@]);
                }
                r
            },
            CargoInvocation::CheckNonProduction => CargoInvocationSpec {
                subcommand: "check",
                selection_arguments: strings2("--workspace", "--all-targets"),
                consumer_mode: ConsumerMode::NonProduction,
                root_crate: String::new(),
                fix: None,
                doctests: false,
            },
            CargoInvocation::CheckDoctests => CargoInvocationSpec {
                subcommand: "test",
                selection_arguments: strings2("--workspace", "--doc"),
                consumer_mode: ConsumerMode::NonProduction,
                root_crate: String::new(),
                fix: None,
                doctests: true,
            },
            CargoInvocation::FixProduction { plan, packages, allow_dirty } => CargoInvocationSpec {
                subcommand: "fix",
                selection_arguments: package_arguments(packages, "--lib"),
                consumer_mode: ConsumerMode::Production,
                root_crate: String::new(),
                fix: Some(FixOptions { plan, allow_dirty }),
                doctests: false,
            },
            CargoInvocation::FixNonProduction { plan, packages, allow_dirty } => CargoInvocationSpec {
                subcommand: "fix",
                selection_arguments: package_arguments(packages, "--all-targets"),
                consumer_mode: ConsumerMode::NonProduction,
                root_crate: String::new(),
                fix: Some(FixOptions { plan, allow_dirty }),
                doctests: false,
            },
        }
    }
}

/// How the summary names the production binaries and feature profiles: the
/// package and binary with the profile's Cargo arguments when there is one
/// binary and one profile, the number of profiles when there are several,
/// and the number of binaries when there are several.
pub open spec fn spec_production_summary(products: Seq<ProductionSelection>, profiles: Seq<Seq<char>>) -> Seq<char> {
    if products.len() == 1 {
        let p = products[0];
        if profiles.len() == 1 {
            "`"@ + p.package@ + " --bin "@ + p.binary@ + (if profiles[0].len() == 0 {
                Seq::empty()
            } else {
                " "@
            }) + profiles[0] + "`"@
        } else {
            "`"@ + p.package@ + " --bin "@ + p.binary@ + "` across "@ + decimal(profiles.len()) + " feature profiles"@
        }
    } else {
        let summary = decimal(products.len()) + " configured production binaries"@;
        if profiles.len() == 1 {
            summary
        } else {
            summary + " across "@ + decimal(profiles.len()) + " feature profiles"@
        }
    }
}

/// The summary's description of the production binaries, given the Cargo
/// arguments of each feature profile.
pub fn production_summary(products: &[ProductionSelection], profile_arguments: &[String]) -> (r: String)
    ensures
        r@ == spec_production_summary(products@, views(profile_arguments@)),
{
    let mut r = String::new();
    if products.len() == 1 {
        let p = products[0];
        r.append("`");
        r.append(p.package);
        r.append(" --bin ");
        r.append(p.binary);
        if profile_arguments.len() == 1 {
            let arguments = profile_arguments[0].as_str();
            if arguments.unicode_len() > 0 {
                r.append(" ");
            }
            r.append(arguments);
            r.append("`");
        } else {
            r.append("` across ");
            push_decimal(&mut r, profile_arguments.len() as u64);
            r.append(" feature profiles");
        }
    } else {
        push_decimal(&mut r, products.len() as u64);
        r.append(" configured production binaries");
        if profile_arguments.len() != 1 {
            r.append(" across ");
            push_decimal(&mut r, profile_arguments.len() as u64);
            r.append(" feature profiles");
        }
    }
    proof {
        assert(r@ =~= spec_production_summary(products@, views(profile_arguments@)));
    }
    r
}

/// The value of the first line of a compiler's version report that starts
/// with `field: `.
pub open spec fn version_field(lines: Seq<Seq<u8>>, field: Seq<u8>) -> Option<Seq<u8>>
    decreases lines.len(),
{
    if lines.len() == 0 {
        None
    } else if crate::text::starts_with(lines[0], field) {
        Some(lines[0].skip(field.len() as int))
    } else {
        version_field(lines.drop_first(), field)
    }
}

/// The message when a compiler's version report lacks a field.
pub open spec fn missing_field_message(field: Seq<char>) -> Seq<char> {
    "selected compiler did not report "@ + field
}

/// The value of field `field` of a compiler's `-vV` report: the rest of the
/// first line that starts with `field: `.
pub fn rustc_version_field<'a>(version: &'a str, field: &str) -> (r: Result<&'a str, String>)
    requires
        version.spec_bytes().len() < usize::MAX,
    ensures
        match version_field(byte_lines(version.spec_bytes()), encode_utf8(field@ + ": "@)) {
            Some(v) => r matches Ok(x) && x.spec_bytes() == v,
            None => r matches Err(m) && m@ == missing_field_message(field@),
        },
{
    let mut prefix = String::from_str(field);
    prefix.append(": ");
    let ghost lines = byte_lines(version.spec_bytes());
    let ghost p = encode_utf8(field@ + ": "@);
    proof {
        assert(prefix@ == field@ + ": "@);
        assert(lines.skip(0) =~= lines);
        crate::text::lemma_lines_len(version.spec_bytes(), 0, 0);
    }
    let mut n: usize = 1;
    loop
        invariant
            lines == byte_lines(version.spec_bytes()),
            p == encode_utf8(field@ + ": "@),
            prefix@ == field@ + ": "@,
            1 <= n <= lines.len() + 1,
            lines.len() < usize::MAX,
            version_field(lines, p) == version_field(lines.skip(n - 1), p),
        decreases lines.len() + 1 - n,
    {
        match line_of(version, n) {
            None => {
                proof {
                    assert(lines.skip(n - 1).len() == 0);
                }
                let mut m = String::from_str("selected compiler did not report ");
                m.append(field);
                return Err(m);
            },
            Some(line) => {
                proof {
                    assert(lines.skip(n - 1)[0] == lines[n - 1]);
                    assert(lines.skip(n - 1).drop_first() =~= lines.skip(n as int));
                }
                match strip_prefix(line, prefix.as_str()) {
                    Some(rest) => {
                        return Ok(rest);
                    },
                    None => {},
                }
                n = n + 1;
            },
        }
    }
}

/// The compiler that a probe invocation names: the argument after the
/// program's own, when it is not empty and not an option.
pub open spec fn probe_candidate(args: Seq<Seq<char>>) -> bool {
    args.len() > 1 && args[1].len() > 0 && args[1][0] != '-'
}

/// The arguments after the compiler ask for its version or compile a crate:
/// exactly `-vV`, or `--crate-name` followed by something that is not an
/// option.
pub open spec fn probe_invocation(args: Seq<Seq<char>>) -> bool {
    ||| args.skip(2) == seq!["-vV"@]
    ||| exists|i: int|
        2 <= i < args.len() - 1 && #[trigger] args[i] == "--crate-name"@ && !(args[i + 1].len() > 0 && args[i + 1][0]
            == '-')
}

/// Whether a text starts with `-`.
fn starts_with_dash(s: &str) -> (r: bool)
    ensures
        r == (s@.len() > 0 && s@[0] == '-'),
{
    s.unicode_len() > 0 && s.get_char(0) == '-'
}

/// The compiler that Cargo runs through this program when it probes which
/// compiler it selected: the named compiler, when `command_exists` finds it
/// and the arguments ask for its version or compile a crate.
pub fn rustc_probe_compiler<'a, F: FnOnce(&str) -> bool>(args: &'a Vec<String>, command_exists: F) -> (r: Option<&'a str>)
    requires
        forall|s: &str| call_requires(command_exists, (s,)),
    ensures
        !probe_candidate(views(args@)) ==> r is None,
        probe_candidate(views(args@)) ==> match r {
            Some(c) => c@ == args@[1]@ && probe_invocation(views(args@)) && call_ensures(command_exists, (c,), true),
            None => !probe_invocation(views(args@)) || exists|s: &str|
                s@ == args@[1]@ && #[trigger] call_ensures(command_exists, (s,), false),
        },
{
    if args.len() < 2 {
        return None;
    }
    let rustc = args[1].as_str();
    if rustc.unicode_len() == 0 || starts_with_dash(rustc) {
        return None;
    }
    if !command_exists(rustc) {
        return None;
    }
    let ghost a = views(args@);
    let n = args.len();
    let version_query = n == 3 && crate::text::str_eq(args[2].as_str(), "-vV");
    proof {
        if n == 3 {
            assert(a.skip(2) =~= seq![a[2]]);
        }
        if a.skip(2) == seq!["-vV"@] {
            assert(a.skip(2).len() == 1);
            assert(a.skip(2)[0] == a[2]);
        }
    }
    let mut crate_compilation = false;
    let mut i: usize = 2;
    while i < n - 1
        invariant
            n == args@.len(),
            a == views(args@),
            2 <= i,
            i <= n,
            crate_compilation == exists|j: int|
                2 <= j < i && j < n - 1 && #[trigger] a[j] == "--crate-name"@ && !(a[j + 1].len() > 0 && a[j + 1][0]
                    == '-'),
        decreases n - i,
    {
        if crate::text::str_eq(args[i].as_str(), "--crate-name") && !starts_with_dash(args[i + 1].as_str()) {
            proof {
                assert(a[i as int] == "--crate-name"@);
            }
            crate_compilation = true;
        }
        i = i + 1;
    }
    if version_query || crate_compilation {
        Some(rustc)
    } else {
        None
    }
}

/// The options of an analysis run that shape each Cargo command.
#[derive(Clone, Copy, Debug)]
pub struct CargoSettings<'a> {
    pub manifest_path: &'a str,
    pub target_dir: &'a str,
    pub color: TerminalColor,
    /// The Cargo feature arguments of the feature profile that is built.
    pub feature_arguments: &'a [String],
    /// The compilation target, when one is selected.
    pub target: Option<&'a str>,
    pub allow_dirty: bool,
    pub allow_staged: bool,
    pub allow_no_vcs: bool,
    /// The compiler wrapper.
    pub driver: &'a str,
    pub collection_options: CollectionOptions,
}

/// A Cargo command: its arguments after `cargo`, the environment it sets and
/// removes, and whether its output is captured.
#[derive(Debug)]
pub struct CargoCommand {
    pub subcommand: &'static str,
    pub arguments: Vec<String>,
    pub environment: Vec<(String, String)>,
    pub removed_environment: Vec<String>,
    pub capture_output: bool,
}

/// The plain value of an environment assignment list.
pub open spec fn env_views(v: Seq<(String, String)>) -> Seq<(Seq<char>, Seq<char>)> {
    v.map_values(|e: (String, String)| (e.0@, e.1@))
}

/// The plain value of an optional text.
pub open spec fn opt_str_view(s: Option<&str>) -> Option<Seq<char>> {
    match s {
        Some(s) => Some(s@),
        None => None,
    }
}

/// The arguments of a Cargo command: the subcommand, the manifest, a locked
/// build in the target directory, the selection, the colour choice, the
/// feature arguments, the target, the options that let a fix change the
/// working tree, and `--quiet` for doctests.
pub open spec fn command_arguments(
    s: CargoSettings,
    spec: (Seq<char>, Seq<Seq<char>>, ConsumerMode, Seq<char>, Option<(Seq<char>, bool)>, bool),
) -> Seq<Seq<char>> {
    seq![spec.0, "--manifest-path"@, s.manifest_path@, "--locked"@, "--target-dir"@, s.target_dir@] + spec.1
        + seq!["--color"@, cargo_color(s.color)] + views(s.feature_arguments@) + target_arguments(s) + fix_arguments_of(
        s,
        spec.4,
    ) + quiet_arguments(spec.5)
}

/// The arguments that select the compilation target, if one is selected.
pub open spec fn target_arguments(s: CargoSettings) -> Seq<Seq<char>> {
    match s.target {
        Some(t) => seq!["--target"@, t@],
        None => Seq::empty(),
    }
}

/// The options that let a fix change the working tree.
pub open spec fn fix_arguments_of(s: CargoSettings, fix: Option<(Seq<char>, bool)>) -> Seq<Seq<char>> {
    match fix {
        Some((_, dirty)) => (if s.allow_dirty || dirty {
            seq!["--allow-dirty"@]
        } else {
            Seq::empty()
        }) + (if s.allow_staged {
            seq!["--allow-staged"@]
        } else {
            Seq::empty()
        }) + (if s.allow_no_vcs {
            seq!["--allow-no-vcs"@]
        } else {
            Seq::empty()
        }),
        None => Seq::empty(),
    }
}

/// `--quiet` for doctests.
pub open spec fn quiet_arguments(doctests: bool) -> Seq<Seq<char>> {
    if doctests {
        seq!["--quiet"@]
    } else {
        Seq::empty()
    }
}

/// Settings that agree in everything but whether a fix may run without
/// version control.
pub open spec fn differ_only_in_allow_no_vcs(a: CargoSettings, b: CargoSettings) -> bool {
    &&& a.manifest_path@ == b.manifest_path@
    &&& a.target_dir@ == b.target_dir@
    &&& a.color == b.color
    &&& a.feature_arguments@ == b.feature_arguments@
    &&& opt_str_view(a.target) == opt_str_view(b.target)
    &&& a.allow_dirty == b.allow_dirty
    &&& a.allow_staged == b.allow_staged
    &&& a.driver@ == b.driver@
    &&& a.collection_options == b.collection_options
}

/// `--allow-no-vcs` reaches exactly the fix commands: allowing a working
/// tree without version control appends `--allow-no-vcs` to the arguments of
/// a fix of either mode and leaves every other command as it was.
pub proof fn lemma_allow_no_vcs_appends_to_fixes(refusing: CargoSettings, allowing: CargoSettings, inv: CargoInvocation)
    requires
        differ_only_in_allow_no_vcs(refusing, allowing),
        !refusing.allow_no_vcs,
        allowing.allow_no_vcs,
    ensures
        (inv is FixProduction || inv is FixNonProduction) ==> command_arguments(allowing, invocation_spec(inv))
            == command_arguments(refusing, invocation_spec(inv)).push("--allow-no-vcs"@),
        !(inv is FixProduction || inv is FixNonProduction) ==> command_arguments(allowing, invocation_spec(inv))
            == command_arguments(refusing, invocation_spec(inv)),
{
    let spec = invocation_spec(inv);
    assert(target_arguments(allowing) == target_arguments(refusing));
    if inv is FixProduction || inv is FixNonProduction {
        assert(spec.4 is Some);
        assert(!spec.5);
        assert(fix_arguments_of(allowing, spec.4) =~= fix_arguments_of(refusing, spec.4).push("--allow-no-vcs"@));
        assert(command_arguments(allowing, spec) =~= command_arguments(refusing, spec).push("--allow-no-vcs"@));
    } else {
        assert(spec.4 is None);
        assert(command_arguments(allowing, spec) =~= command_arguments(refusing, spec));
    }
}

/// Each source-control override reaches every fix command: `--allow-dirty`
/// when the settings or the invocation allow a dirty working tree, and
/// `--allow-staged` and `--allow-no-vcs` when the settings allow them.
pub proof fn lemma_fix_overrides_reach_fixes(s: CargoSettings, inv: CargoInvocation)
    requires
        inv is FixProduction || inv is FixNonProduction,
    ensures
        (s.allow_dirty || (inv matches CargoInvocation::FixProduction { allow_dirty: true, .. }) || (
        inv matches CargoInvocation::FixNonProduction { allow_dirty: true, .. })) ==> command_arguments(
            s,
            invocation_spec(inv),
        ).contains("--allow-dirty"@),
        s.allow_staged ==> command_arguments(s, invocation_spec(inv)).contains("--allow-staged"@),
        s.allow_no_vcs ==> command_arguments(s, invocation_spec(inv)).contains("--allow-no-vcs"@),
{
    let spec = invocation_spec(inv);
    let fix = fix_arguments_of(s, spec.4);
    let before = seq![spec.0, "--manifest-path"@, s.manifest_path@, "--locked"@, "--target-dir"@, s.target_dir@]
        + spec.1 + seq!["--color"@, cargo_color(s.color)] + views(s.feature_arguments@) + target_arguments(s);
    let args = command_arguments(s, spec);
    assert(!spec.5);
    assert(args =~= before + fix);
    let dirty = if s.allow_dirty || spec.4.unwrap().1 {
        seq!["--allow-dirty"@]
    } else {
        Seq::<Seq<char>>::empty()
    };
    let staged = if s.allow_staged {
        seq!["--allow-staged"@]
    } else {
        Seq::<Seq<char>>::empty()
    };
    assert(fix == dirty + staged + (if s.allow_no_vcs {
        seq!["--allow-no-vcs"@]
    } else {
        Seq::<Seq<char>>::empty()
    }));
    if s.allow_dirty || spec.4.unwrap().1 {
        assert(args[before.len() as int] == "--allow-dirty"@);
    }
    if s.allow_staged {
        assert(args[(before.len() + dirty.len()) as int] == "--allow-staged"@);
    }
    if s.allow_no_vcs {
        assert(args[(before.len() + dirty.len() + staged.len()) as int] == "--allow-no-vcs"@);
    }
}

/// Settings that agree in everything but the source-control overrides.
pub open spec fn differ_only_in_overrides(a: CargoSettings, b: CargoSettings) -> bool {
    &&& a.manifest_path@ == b.manifest_path@
    &&& a.target_dir@ == b.target_dir@
    &&& a.color == b.color
    &&& a.feature_arguments@ == b.feature_arguments@
    &&& opt_str_view(a.target) == opt_str_view(b.target)
    &&& a.driver@ == b.driver@
    &&& a.collection_options == b.collection_options
}

/// The source-control overrides change only fix commands: a check or doctest
/// build has the same arguments whatever overrides the settings give.
pub proof fn lemma_overrides_leave_checks_alone(a: CargoSettings, b: CargoSettings, inv: CargoInvocation)
    requires
        differ_only_in_overrides(a, b),
        !(inv is FixProduction || inv is FixNonProduction),
    ensures
        command_arguments(a, invocation_spec(inv)) == command_arguments(b, invocation_spec(inv)),
{
    let spec = invocation_spec(inv);
    assert(spec.4 is None);
    assert(target_arguments(a) == target_arguments(b));
    assert(command_arguments(a, spec) =~= command_arguments(b, spec));
}

/// No element of either part is `x`, so none of the whole is.
proof fn lemma_absent_from_concat(a: Seq<Seq<char>>, b: Seq<Seq<char>>, x: Seq<char>)
    requires
        !a.contains(x),
        !b.contains(x),
    ensures
        !(a + b).contains(x),
{
    assert forall|i: int| 0 <= i < (a + b).len() implies (a + b)[i] != x by {
        if i < a.len() {
            assert((a + b)[i] == a[i]);
        } else {
            assert((a + b)[i] == b[i - a.len()]);
        }
    }
}

/// A fix command carries `--allow-no-vcs` exactly when the settings allow a
/// working tree without version control, as long as none of the texts that
/// the caller supplies (manifest path, target directory, selection, feature
/// arguments, target) is that option itself: then it is the last argument.
pub proof fn lemma_fix_allows_no_vcs_exactly_when_asked(s: CargoSettings, inv: CargoInvocation)
    requires
        inv is FixProduction || inv is FixNonProduction,
        s.manifest_path@ != "--allow-no-vcs"@,
        s.target_dir@ != "--allow-no-vcs"@,
        !invocation_spec(inv).1.contains("--allow-no-vcs"@),
        !views(s.feature_arguments@).contains("--allow-no-vcs"@),
        opt_str_view(s.target) != Some("--allow-no-vcs"@),
    ensures
        command_arguments(s, invocation_spec(inv)).contains("--allow-no-vcs"@) == s.allow_no_vcs,
        s.allow_no_vcs ==> command_arguments(s, invocation_spec(inv)).last() == "--allow-no-vcs"@,
{
    let x = "--allow-no-vcs"@;
    let spec = invocation_spec(inv);
    let args = command_arguments(s, spec);
    reveal_strlit("--allow-no-vcs");
    assert(spec.4 is Some);
    assert(!spec.5);
    let fix = fix_arguments_of(s, spec.4);
    assert(args == seq![spec.0, "--manifest-path"@, s.manifest_path@, "--locked"@, "--target-dir"@, s.target_dir@]
        + spec.1 + seq!["--color"@, cargo_color(s.color)] + views(s.feature_arguments@) + target_arguments(s) + fix
        + Seq::<Seq<char>>::empty());
    if s.allow_no_vcs {
        assert(args.last() == x);
        assert(args[args.len() - 1] == x);
    } else {
        reveal_strlit("fix");
        reveal_strlit("--manifest-path");
        reveal_strlit("--locked");
        reveal_strlit("--target-dir");
        reveal_strlit("--color");
        reveal_strlit("auto");
        reveal_strlit("always");
        reveal_strlit("never");
        reveal_strlit("--target");
        reveal_strlit("--allow-dirty");
        reveal_strlit("--allow-staged");
        assert(spec.0 == "fix"@);
        assert("--allow-staged"@[8] != x[8]);
        let head = seq![spec.0, "--manifest-path"@, s.manifest_path@, "--locked"@, "--target-dir"@, s.target_dir@];
        assert forall|i: int| 0 <= i < head.len() implies head[i] != x by {
            if i == 0 {
                assert(head[i].len() != x.len());
            } else if i == 1 {
                assert(head[i].len() != x.len());
            } else if i == 3 {
                assert(head[i].len() != x.len());
            } else if i == 4 {
                assert(head[i].len() != x.len());
            }
        }
        let color = seq!["--color"@, cargo_color(s.color)];
        assert forall|i: int| 0 <= i < color.len() implies color[i] != x by {
            assert(color[i].len() != x.len());
        }
        let target = target_arguments(s);
        assert forall|i: int| 0 <= i < target.len() implies target[i] != x by {
            if i == 0 {
                assert(target[i].len() != x.len());
            }
        }
        assert forall|i: int| 0 <= i < fix.len() implies fix[i] != x by {
            if fix[i].len() == x.len() {
                assert(fix[i][8] != x[8]);
            }
        }
        lemma_absent_from_concat(head, spec.1, x);
        lemma_absent_from_concat(head + spec.1, color, x);
        lemma_absent_from_concat(head + spec.1 + color, views(s.feature_arguments@), x);
        lemma_absent_from_concat(head + spec.1 + color + views(s.feature_arguments@), target, x);
        lemma_absent_from_concat(head + spec.1 + color + views(s.feature_arguments@) + target, fix, x);
        lemma_absent_from_concat(
            head + spec.1 + color + views(s.feature_arguments@) + target + fix,
            Seq::<Seq<char>>::empty(),
            x,
        );
    }
}

/// The environment of a Cargo command: the fix plan of a fix, the compiler
/// wrapper and its protocol settings, and for doctests the settings that let
/// rustdoc run the wrapper.
pub open spec fn command_environment(
    s: CargoSettings,
    spec: (Seq<char>, Seq<Seq<char>>, ConsumerMode, Seq<char>, Option<(Seq<char>, bool)>, bool),
    graph_dir: Seq<char>,
    run_id: Seq<char>,
    rustdoc_flags: Seq<char>,
) -> Seq<(Seq<char>, Seq<char>)> {
    (match spec.4 {
        Some((plan, _)) => seq![(FIX_PLAN_ENV@, plan)],
        None => Seq::empty(),
    }) + seq![
        ("RUSTC_WORKSPACE_WRAPPER"@, s.driver@),
        (VERSION_ENV@, decimal(VERSION as nat)),
        (OUTPUT_DIR_ENV@, graph_dir),
        (ROOT_CRATE_ENV@, spec.3),
        (CONSUMER_MODE_ENV@, consumer_mode_text(spec.2)),
        (RUN_ID_ENV@, run_id),
        (COLLECTION_OPTIONS_ENV@, option_text(s.collection_options@)),
    ] + (if spec.5 {
        seq![("RUSTC_BOOTSTRAP"@, "1"@), ("CARGO_ENCODED_RUSTDOCFLAGS"@, rustdoc_flags)]
    } else {
        Seq::empty()
    })
}

/// Appends a text.
fn push_text(v: &mut Vec<String>, t: &str)
    ensures
        views(final(v)@) == views(old(v)@).push(t@),
{
    let ghost before = views(v@);
    v.push(String::from_str(t));
    proof {
        assert(views(v@) =~= before.push(t@));
    }
}

/// Appends an environment assignment.
fn push_env(v: &mut Vec<(String, String)>, name: &str, value: &str)
    ensures
        env_views(final(v)@) == env_views(old(v)@).push((name@, value@)),
{
    let ghost before = env_views(v@);
    v.push((String::from_str(name), String::from_str(value)));
    proof {
        assert(env_views(v@) =~= before.push((name@, value@)));
    }
}

/// The arguments of a Cargo command, computed.
fn build_arguments(settings: &CargoSettings, spec: &CargoInvocationSpec) -> (r: Vec<String>)
    ensures
        views(r@) == command_arguments(*settings, spec_view(*spec)),
{
    let mut arguments: Vec<String> = Vec::new();
    push_text(&mut arguments, spec.subcommand);
    push_text(&mut arguments, "--manifest-path");
    push_text(&mut arguments, settings.manifest_path);
    push_text(&mut arguments, "--locked");
    push_text(&mut arguments, "--target-dir");
    push_text(&mut arguments, settings.target_dir);
    let ghost head = views(arguments@);
    let mut k: usize = 0;
    while k < spec.selection_arguments.len()
        invariant
            k <= spec.selection_arguments@.len(),
            views(arguments@) == head + views(spec.selection_arguments@).take(k as int),
        decreases spec.selection_arguments@.len() - k,
    {
        push_text(&mut arguments, spec.selection_arguments[k].as_str());
        proof {
            assert(views(spec.selection_arguments@).take(k + 1) =~= views(spec.selection_arguments@).take(
                k as int,
            ).push(spec.selection_arguments@[k as int]@));
        }
        k = k + 1;
    }
    push_text(&mut arguments, "--color");
    push_text(&mut arguments, settings.color.cargo_value());
    let ghost before_features = views(arguments@);
    let mut k: usize = 0;
    while k < settings.feature_arguments.len()
        invariant
            k <= settings.feature_arguments@.len(),
            views(arguments@) == before_features + views(settings.feature_arguments@).take(k as int),
        decreases settings.feature_arguments@.len() - k,
    {
        push_text(&mut arguments, settings.feature_arguments[k].as_str());
        proof {
            assert(views(settings.feature_arguments@).take(k + 1) =~= views(settings.feature_arguments@).take(
                k as int,
            ).push(settings.feature_arguments@[k as int]@));
        }
        k = k + 1;
    }
    proof {
        assert(views(settings.feature_arguments@).take(settings.feature_arguments@.len() as int) =~= views(
            settings.feature_arguments@,
        ));
        assert(views(spec.selection_arguments@).take(spec.selection_arguments@.len() as int) =~= views(
            spec.selection_arguments@,
        ));
    }
    let ghost base = views(arguments@);
    if let Some(target) = settings.target {
        push_text(&mut arguments, "--target");
        push_text(&mut arguments, target);
    }
    proof {
        assert(views(arguments@) =~= base + target_arguments(*settings));
    }
    let ghost with_target = views(arguments@);
    if let Some(fix) = spec.fix {
        let ghost x = views(arguments@);
        if settings.allow_dirty || fix.allow_dirty {
            push_text(&mut arguments, "--allow-dirty");
        }
        let ghost y = views(arguments@);
        if settings.allow_staged {
            push_text(&mut arguments, "--allow-staged");
        }
        let ghost z = views(arguments@);
        if settings.allow_no_vcs {
            push_text(&mut arguments, "--allow-no-vcs");
        }
        proof {
            assert(views(arguments@) =~= with_target + fix_arguments_of(*settings, spec_view(*spec).4));
        }
    } else {
        proof {
            assert(views(arguments@) =~= with_target + fix_arguments_of(*settings, spec_view(*spec).4));
        }
    }
    let ghost with_fix = views(arguments@);
    if spec.doctests {
        push_text(&mut arguments, "--quiet");
    }
    proof {
        assert(views(arguments@) =~= with_fix + quiet_arguments(spec.doctests));
        let sv = spec_view(*spec);
        let h = seq![sv.0, "--manifest-path"@, settings.manifest_path@, "--locked"@, "--target-dir"@, settings.target_dir@];
        assert(base =~= h + sv.1 + seq!["--color"@, cargo_color(settings.color)] + views(settings.feature_arguments@));
    }
    arguments
}

/// The environment of a Cargo command, computed.
fn build_environment(
    settings: &CargoSettings,
    spec: &CargoInvocationSpec,
    graph_dir: &str,
    run_id: &str,
    rustdoc_flags: &str,
) -> (r: Vec<(String, String)>)
    ensures
        env_views(r@) == command_environment(*settings, spec_view(*spec), graph_dir@, run_id@, rustdoc_flags@),
{
    let mut environment: Vec<(String, String)> = Vec::new();
    if let Some(fix) = spec.fix {
        push_env(&mut environment, FIX_PLAN_ENV, fix.plan);
    }
    push_env(&mut environment, "RUSTC_WORKSPACE_WRAPPER", settings.driver);
    let mut version = String::new();
    push_decimal(&mut version, VERSION as u64);
    push_env(&mut environment, VERSION_ENV, version.as_str());
    push_env(&mut environment, OUTPUT_DIR_ENV, graph_dir);
    push_env(&mut environment, ROOT_CRATE_ENV, spec.root_crate.as_str());
    push_env(&mut environment, CONSUMER_MODE_ENV, spec.consumer_mode.as_str());
    push_env(&mut environment, RUN_ID_ENV, run_id);
    push_env(&mut environment, COLLECTION_OPTIONS_ENV, settings.collection_options.as_env_value());
    if spec.doctests {
        push_env(&mut environment, "RUSTC_BOOTSTRAP", "1");
        push_env(&mut environment, "CARGO_ENCODED_RUSTDOCFLAGS", rustdoc_flags);
    }
    proof {
        assert(env_views(environment@) =~= command_environment(
            *settings,
            spec_view(*spec),
            graph_dir@,
            run_id@,
            rustdoc_flags@,
        ));
    }
    environment
}

/// The Cargo command of one invocation of the analysis run, whose fragments
/// go to `graph_dir`; `rustdoc_flags` are the encoded rustdoc flags that
/// doctests build with.
pub fn cargo_command(
    settings: &CargoSettings,
    invocation: CargoInvocation,
    graph_dir: &str,
    run_id: &str,
    rustdoc_flags: &str,
) -> (r: CargoCommand)
    ensures
        r.subcommand@ == invocation_spec(invocation).0,
        views(r.arguments@) == command_arguments(*settings, invocation_spec(invocation)),
        env_views(r.environment@) == command_environment(
            *settings,
            invocation_spec(invocation),
            graph_dir@,
            run_id@,
            rustdoc_flags@,
        ),
        views(r.removed_environment@) == (if invocation_spec(invocation).5 {
            seq!["RUSTDOCFLAGS"@]
        } else {
            Seq::empty()
        }),
        r.capture_output == invocation_spec(invocation).5,
{
    let spec = invocation.specification();
    let arguments = build_arguments(settings, &spec);
    let environment = build_environment(settings, &spec, graph_dir, run_id, rustdoc_flags);
    let mut removed: Vec<String> = Vec::new();
    if spec.doctests {
        push_text(&mut removed, "RUSTDOCFLAGS");
    }
    proof {
        assert(views(removed@) =~= (if spec.doctests {
            seq!["RUSTDOCFLAGS"@]
        } else {
            Seq::<Seq<char>>::empty()
        }));
    }
    CargoCommand {
        subcommand: spec.subcommand,
        arguments,
        environment,
        removed_environment: removed,
        capture_output: spec.doctests,
    }
}

/// The words of `s` from position `i` on, where the current word began at
/// `start`: maximal runs of characters that are not white space.
pub open spec fn words_from(s: Seq<char>, i: int, start: int) -> Seq<Seq<char>>
    decreases s.len() - i,
{
    if i < 0 || i >= s.len() {
        if start < s.len() {
            seq![s.subrange(start, s.len() as int)]
        } else {
            Seq::empty()
        }
    } else if is_white_space(s[i]) {
        (if start < i {
            seq![s.subrange(start, i)]
        } else {
            Seq::empty()
        }) + words_from(s, i + 1, i + 1)
    } else {
        words_from(s, i + 1, start)
    }
}

/// The words of a text, split at white space.
pub open spec fn words(s: Seq<char>) -> Seq<Seq<char>> {
    words_from(s, 0, 0)
}

/// Cargo's encoding of rustdoc flags with one more flag: flags are separated
/// by the unit separator character.
pub open spec fn with_flag(flags: Seq<char>, flag: Seq<char>) -> Seq<char> {
    if flags.len() == 0 {
        flag
    } else {
        flags + seq!['\u{1f}'] + flag
    }
}

/// The encoding of a list of flags, added one by one.
pub open spec fn with_flags(flags: Seq<char>, more: Seq<Seq<char>>) -> Seq<char>
    decreases more.len(),
{
    if more.len() == 0 {
        flags
    } else {
        with_flags(with_flag(flags, more[0]), more.drop_first())
    }
}

/// Adds a flag to an encoded flag list.
fn push_flag(flags: &mut String, flag: &str)
    ensures
        final(flags)@ == with_flag(old(flags)@, flag@),
{
    if flags.unicode_len() > 0 {
        push_char(flags, '\u{1f}');
    }
    flags.append(flag);
}

/// The flags after the words of `s` from `i` on.
fn push_words(flags: &mut String, s: &str)
    ensures
        final(flags)@ == with_flags(old(flags)@, words(s@)),
{
    let n = s.unicode_len();
    let mut start: usize = 0;
    let mut i: usize = 0;
    let ghost goal = with_flags(flags@, words(s@));
    while i < n
        invariant
            n == s@.len(),
            start <= i <= n,
            goal == with_flags(flags@, words_from(s@, i as int, start as int)),
        decreases n - i,
    {
        if crate::text::white_space(s.get_char(i)) {
            if start < i {
                let word = s.substring_char(start, i);
                proof {
                    let rest = words_from(s@, i + 1, i + 1);
                    assert((seq![word@] + rest).drop_first() =~= rest);
                    assert((seq![word@] + rest)[0] == word@);
                }
                push_flag(flags, word);
            } else {
                proof {
                    assert(Seq::<Seq<char>>::empty() + words_from(s@, i + 1, i + 1) =~= words_from(s@, i + 1, i + 1));
                }
            }
            start = i + 1;
        }
        i = i + 1;
    }
    if start < n {
        let word = s.substring_char(start, n);
        let ghost before = flags@;
        proof {
            assert(words_from(s@, n as int, start as int) == seq![word@]);
            assert(seq![word@].drop_first() =~= Seq::<Seq<char>>::empty());
            assert(goal == with_flags(with_flag(before, word@), Seq::empty()));
        }
        push_flag(flags, word);
    } else {
        proof {
            assert(words_from(s@, n as int, start as int) =~= Seq::<Seq<char>>::empty());
        }
    }
}

/// The encoded rustdoc flags for doctests: Cargo's encoded flags when set,
/// else the words of `RUSTDOCFLAGS`, then the flags that make rustdoc build
/// the doctests through this program's compiler wrapper.
pub open spec fn spec_rustdoc_flags(encoded: Option<Seq<char>>, plain_flags: Option<Seq<char>>, executable: Seq<char>) -> Seq<
    char,
> {
    let base = match encoded {
        Some(e) => e,
        None => match plain_flags {
            Some(f) => with_flags(Seq::empty(), words(f)),
            None => Seq::empty(),
        },
    };
    with_flags(base, seq!["-Zunstable-options"@, "--no-run"@, "--test-builder-wrapper"@, executable])
}

/// The encoded rustdoc flags for doctests, given `CARGO_ENCODED_RUSTDOCFLAGS`
/// and `RUSTDOCFLAGS` when they are set.
pub fn doctest_rustdoc_flags(encoded: Option<&str>, plain_flags: Option<&str>, executable: &str) -> (r: String)
    ensures
        r@ == spec_rustdoc_flags(opt_str_view(encoded), opt_str_view(plain_flags), executable@),
{
    let mut flags = match encoded {
        Some(e) => String::from_str(e),
        None => {
            let mut flags = String::new();
            if let Some(f) = plain_flags {
                push_words(&mut flags, f);
            }
            flags
        },
    };
    let ghost base = flags@;
    push_flag(&mut flags, "-Zunstable-options");
    push_flag(&mut flags, "--no-run");
    push_flag(&mut flags, "--test-builder-wrapper");
    push_flag(&mut flags, executable);
    proof {
        reveal_with_fuel(with_flags, 5);
        let more = seq!["-Zunstable-options"@, "--no-run"@, "--test-builder-wrapper"@, executable@];
        assert(more.drop_first() =~= seq!["--no-run"@, "--test-builder-wrapper"@, executable@]);
        assert(more.drop_first().drop_first() =~= seq!["--test-builder-wrapper"@, executable@]);
        assert(more.drop_first().drop_first().drop_first() =~= seq![executable@]);
        assert(more.drop_first().drop_first().drop_first().drop_first() =~= Seq::<Seq<char>>::empty());
    }
    flags
}

/// Feeds a path to a hasher with `<Path as Hash>::hash`. What it writes
/// differs between platforms, so nothing is promised of the hasher's state.
#[verifier::external_body]
fn hash_path(path: &str, hasher: &mut std::collections::hash_map::DefaultHasher) {
    std::path::Path::new(path).hash(hasher)
}

/// A digest of a workspace path: a new `DefaultHasher` fed the path and
/// finished. The hasher's algorithm may change between Rust releases and the
/// path's bytes differ between platforms, so nothing is promised of the
/// digest.
fn workspace_digest(path: &str) -> u64 {
    let mut hasher = std::collections::hash_map::DefaultHasher::new();
    hash_path(path, &mut hasher);
    hasher.finish()
}

/// A lowercase hexadecimal digit.
pub open spec fn hex_char(d: nat) -> char {
    if d < 10 {
        crate::protocol::digit_char(d)
    } else if d == 10 {
        'a'
    } else if d == 11 {
        'b'
    } else if d == 12 {
        'c'
    } else if d == 13 {
        'd'
    } else if d == 14 {
        'e'
    } else {
        'f'
    }
}

/// The last `n` hexadecimal digits of `v`, zero padded.
pub open spec fn hex_digits(v: nat, n: nat) -> Seq<char>
    decreases n,
{
    if n == 0 {
        Seq::empty()
    } else {
        hex_digits(v / 16, (n - 1) as nat).push(hex_char(v % 16))
    }
}

/// Appends the last `n` hexadecimal digits of `v`.
fn push_hex(out: &mut String, v: u64, n: u32)
    ensures
        final(out)@ == old(out)@ + hex_digits(v as nat, n as nat),
    decreases n,
{
    if n == 0 {
        proof {
            assert(old(out)@ + Seq::<char>::empty() =~= old(out)@);
        }
        return;
    }
    push_hex(out, v / 16, n - 1);
    let d = v % 16;
    let c = if d < 10 {
        if d == 0 { '0' } else if d == 1 { '1' } else if d == 2 { '2' } else if d == 3 { '3' } else if d == 4 { '4' } else if d == 5 { '5' } else if d == 6 { '6' } else if d == 7 { '7' } else if d == 8 { '8' } else { '9' }
    } else if d == 10 {
        'a'
    } else if d == 11 {
        'b'
    } else if d == 12 {
        'c'
    } else if d == 13 {
        'd'
    } else if d == 14 {
        'e'
    } else {
        'f'
    };
    push_char(out, c);
}

/// The largest character boundary of `b` at or before `e`.
pub open spec fn boundary_before(b: Seq<u8>, e: int) -> int
    decreases e,
{
    if e <= 0 || is_char_boundary(b, e) {
        if e <= 0 { 0 } else { e }
    } else {
        boundary_before(b, e - 1)
    }
}

/// The longest a directory name may be: below the 255-byte component limits
/// of the supported file systems.
pub const TARGET_DIR_COMPONENT_MAX_BYTES: usize = 240;

/// The directory name of a workspace's default target directory: the
/// workspace directory's name, cut at a character boundary to fit, then `-`
/// and the sixteen hexadecimal digits of the workspace path's digest.
pub open spec fn spec_target_dir_component(name: Seq<u8>, digest: u64) -> Seq<u8> {
    let limit = TARGET_DIR_COMPONENT_MAX_BYTES - 17;
    let end = boundary_before(name, if name.len() < limit { name.len() as int } else { limit });
    name.take(end) + encode_utf8("-"@ + hex_digits(digest as nat, 16))
}

/// The largest character boundary at or before `e` lies between zero and `e`.
proof fn lemma_boundary_before_bounds(b: Seq<u8>, e: int)
    ensures
        0 <= boundary_before(b, e),
        e >= 0 ==> boundary_before(b, e) <= e,
    decreases e,
{
    if e > 0 && !is_char_boundary(b, e) {
        lemma_boundary_before_bounds(b, e - 1);
    }
}

/// A hexadecimal digit is an ASCII character.
proof fn lemma_hex_char_ascii(d: nat)
    ensures
        '\0' <= hex_char(d) <= '\u{7f}',
{
}

/// The last `n` hexadecimal digits are `n` ASCII characters.
proof fn lemma_hex_digits_ascii(v: nat, n: nat)
    ensures
        hex_digits(v, n).len() == n,
        vstd::utf8::is_ascii_chars(hex_digits(v, n)),
    decreases n,
{
    if n > 0 {
        lemma_hex_digits_ascii(v / 16, (n - 1) as nat);
        lemma_hex_char_ascii(v % 16);
        let before = hex_digits(v / 16, (n - 1) as nat);
        assert forall|i: int| 0 <= i < hex_digits(v, n).len() implies '\0' <= #[trigger] hex_digits(v, n)[i]
            <= '\u{7f}' by {
            if i < before.len() {
                assert(hex_digits(v, n)[i] == before[i]);
            }
        }
    }
}

/// The directory name of a default target directory never exceeds
/// `TARGET_DIR_COMPONENT_MAX_BYTES` bytes, the workspace name being cut to
/// leave room for the digest; when the name is long enough and a character
/// starts where the cut falls, the name fills the limit exactly.
pub proof fn lemma_target_dir_component_fits(name: Seq<u8>, digest: u64)
    ensures
        spec_target_dir_component(name, digest).len() <= TARGET_DIR_COMPONENT_MAX_BYTES,
        name.len() >= TARGET_DIR_COMPONENT_MAX_BYTES - 17 && is_char_boundary(
            name,
            TARGET_DIR_COMPONENT_MAX_BYTES - 17,
        ) ==> spec_target_dir_component(name, digest).len() == TARGET_DIR_COMPONENT_MAX_BYTES,
{
    let limit = TARGET_DIR_COMPONENT_MAX_BYTES - 17;
    let e: int = if name.len() < limit { name.len() as int } else { limit as int };
    lemma_boundary_before_bounds(name, e);
    let digits = "-"@ + hex_digits(digest as nat, 16);
    lemma_hex_digits_ascii(digest as nat, 16);
    reveal_strlit("-");
    assert(vstd::utf8::is_ascii_chars(digits)) by {
        assert forall|i: int| 0 <= i < digits.len() implies '\0' <= #[trigger] digits[i] <= '\u{7f}' by {
            if i > 0 {
                assert(digits[i] == hex_digits(digest as nat, 16)[i - 1]);
            }
        }
    }
    vstd::utf8::is_ascii_chars_encode_utf8(digits);
}

/// The directory name of a workspace's default target directory, given the
/// workspace directory's name (when it has a UTF-8 one) and the digest of its
/// path.
pub fn target_dir_component(workspace_name: Option<&str>, digest: u64) -> (r: String)
    ensures
        encode_utf8(r@) == spec_target_dir_component(
            match workspace_name {
                Some(n) => n.spec_bytes(),
                None => encode_utf8("workspace"@),
            },
            digest,
        ),
{
    let name = match workspace_name {
        Some(n) => n,
        None => "workspace",
    };
    let bytes = name.as_bytes();
    let limit: usize = TARGET_DIR_COMPONENT_MAX_BYTES - 17;
    let mut end = if bytes.len() < limit {
        bytes.len()
    } else {
        limit
    };
    let ghost start = end;
    while end > 0 && !name.is_char_boundary(end)
        invariant
            end <= bytes@.len(),
            bytes@ == name.spec_bytes(),
            boundary_before(bytes@, start as int) == boundary_before(bytes@, end as int),
        decreases end,
    {
        end = end - 1;
    }
    proof {
        crate::text::lemma_ascii_boundary(name, 0);
    }
    let head = crate::text::slice_str(name, 0, end);
    let mut r = String::from_str(head);
    let mut suffix = String::from_str("-");
    push_hex(&mut suffix, digest, 16);
    r.append(suffix.as_str());
    proof {
        crate::text::lemma_encode_concat(head@, suffix@);
        assert(head.spec_bytes() =~= bytes@.take(end as int));
        assert(boundary_before(bytes@, end as int) == end as int);
    }
    r
}

/// The bytes of a workspace directory's name; `workspace` when it has no
/// UTF-8 name.
pub open spec fn workspace_name_bytes(workspace_name: Option<&str>) -> Seq<u8> {
    match workspace_name {
        Some(n) => n.spec_bytes(),
        None => encode_utf8("workspace"@),
    }
}

/// The directory name of the default target directory of the workspace at
/// `workspace_root`, whose directory name is `workspace_name` when it has a
/// UTF-8 one: the name cut to fit, then `-` and the sixteen hexadecimal digits
/// of a digest of the workspace path, whatever digest the hasher gave.
pub fn target_dir_name(workspace_root: &str, workspace_name: Option<&str>) -> (r: String)
    ensures
        exists|digest: u64| encode_utf8(r@) == #[trigger] spec_target_dir_component(workspace_name_bytes(workspace_name), digest),
{
    let digest = workspace_digest(workspace_root);
    let r = target_dir_component(workspace_name, digest);
    assert(encode_utf8(r@) == spec_target_dir_component(workspace_name_bytes(workspace_name), digest));
    r
}

} // verus!
