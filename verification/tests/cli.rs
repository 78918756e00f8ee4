//! Lint levels, cargo invocations and diagnostic text.

use cargo_hawk::config::{ConfigDiagnosticKind, ConfigSpan, LintOverride, OverrideLevel};
use cargo_hawk::invocation::{
    cargo_command, crate_name_of, doctest_rustdoc_flags, production_summary, rustc_probe_compiler,
    rustc_version_field, target_dir_component, target_dir_name, CargoInvocation, CargoSettings, ConsumerMode, ProductionSelection,
    TerminalColor, TARGET_DIR_COMPONENT_MAX_BYTES,
};
use cargo_hawk::lint::{DiagnosticKind, LintLevel, LintLevels, LintSelector};
use cargo_hawk::model::{CollectionOptions, Definition, DefinitionKind, Finding, FindingKind, Span};
use cargo_hawk::render::{
    error_report, marker_indent, to_plain_text, write_config_diagnostic, write_diagnostic, write_summary, StyledText,
    Tone,
};

fn levels(arguments: &[(usize, &str, LintLevel)]) -> LintLevels {
    let arguments: Vec<(usize, String, LintLevel)> = arguments
        .iter()
        .map(|(index, selector, level)| (*index, selector.to_string(), *level))
        .collect();
    LintLevels::from_indexed(&arguments).expect("valid lint selectors")
}

#[test]
fn later_lint_levels_override_the_warnings_group() {
    // cargo-hawk -Dwarnings --warn hawk::unnecessary_public -A hawk::unknown_item
    let levels = levels(&[
        (5, "hawk::unknown_item", LintLevel::Allow),
        (3, "hawk::unnecessary_public", LintLevel::Warn),
        (1, "warnings", LintLevel::Deny),
    ]);

    assert_eq!(levels.level(FindingKind::DeadPublic.into()), LintLevel::Deny);
    assert_eq!(levels.level(FindingKind::UnnecessaryPublic.into()), LintLevel::Warn);
    assert_eq!(
        levels.level(FindingKind::UnnecessaryRestrictedVisibility.into()),
        LintLevel::Deny
    );
    assert_eq!(
        levels.level(FindingKind::UnnecessaryCrateVisibility.into()),
        LintLevel::Allow
    );
    assert_eq!(levels.level(ConfigDiagnosticKind::UnknownItem.into()), LintLevel::Allow);
    assert_eq!(
        levels.level(ConfigDiagnosticKind::UnfulfilledExpectation.into()),
        LintLevel::Deny
    );
}

#[test]
fn enabled_opt_in_lint_is_affected_by_later_warnings_group() {
    // cargo-hawk -W hawk::unnecessary_crate_visibility -Dwarnings
    let levels = levels(&[
        (2, "hawk::unnecessary_crate_visibility", LintLevel::Warn),
        (3, "warnings", LintLevel::Deny),
    ]);

    assert_eq!(
        levels.level(FindingKind::UnnecessaryCrateVisibility.into()),
        LintLevel::Deny
    );
}

#[test]
fn warnings_group_does_not_enable_an_opt_in_lint() {
    let levels = levels(&[(1, "warnings", LintLevel::Deny)]);
    assert_eq!(
        levels.level(DiagnosticKind::Finding(FindingKind::UnnecessaryCrateVisibility)),
        LintLevel::Allow
    );
    assert_eq!(levels.level(DiagnosticKind::Finding(FindingKind::DeadPublic)), LintLevel::Deny);
    assert_eq!(
        LintLevels::default().level(DiagnosticKind::Finding(FindingKind::DeadPublic)),
        LintLevel::Warn
    );
}

#[test]
fn unknown_lint_selectors_are_refused() {
    let arguments = vec![
        (1, "warnings".to_owned(), LintLevel::Deny),
        (2, "hawk::nonexistent".to_owned(), LintLevel::Warn),
    ];
    assert_eq!(
        LintLevels::from_indexed(&arguments).expect_err("unknown selector"),
        "unknown lint selector `hawk::nonexistent`; expected `warnings` or a `hawk::...` diagnostic name"
    );
    assert_eq!(LintSelector::parse("warnings"), Ok(LintSelector::Warnings));
    assert_eq!(
        LintSelector::parse("hawk::ambiguous_item"),
        Ok(LintSelector::Diagnostic(DiagnosticKind::Config(
            ConfigDiagnosticKind::AmbiguousItem
        )))
    );
}

#[test]
fn severities_name_emitted_levels() {
    assert_eq!(LintLevel::Warn.severity(), "warning");
    assert_eq!(LintLevel::Deny.severity(), "error");
    assert!(!LintLevel::Allow.is_emitted());
    assert!(LintLevel::default().is_emitted());
}

#[test]
fn cargo_invocations_encode_valid_subcommands_and_modes() {
    let packages = vec!["library".to_owned(), "support".to_owned()];
    let fix_plan = "fix-plan.json";

    let check = CargoInvocation::CheckProduction(ProductionSelection {
        package: "app-package",
        binary: "app-cli",
    })
    .specification();
    assert_eq!(check.subcommand, "check");
    assert_eq!(check.selection_arguments, vec!["--package", "app-package", "--bin", "app-cli"]);
    assert_eq!(check.consumer_mode, ConsumerMode::Production);
    assert_eq!(check.root_crate, "app_cli");
    assert!(check.fix.is_none());
    assert!(!check.doctests);

    let all = CargoInvocation::CheckNonProduction.specification();
    assert_eq!(all.subcommand, "check");
    assert_eq!(all.selection_arguments, vec!["--workspace", "--all-targets"]);
    assert_eq!(all.consumer_mode, ConsumerMode::NonProduction);
    assert_eq!(all.root_crate, "");
    assert!(all.fix.is_none());
    assert!(!all.doctests);

    let doctests = CargoInvocation::CheckDoctests.specification();
    assert_eq!(doctests.subcommand, "test");
    assert_eq!(doctests.selection_arguments, vec!["--workspace", "--doc"]);
    assert_eq!(doctests.consumer_mode, ConsumerMode::NonProduction);
    assert_eq!(doctests.root_crate, "");
    assert!(doctests.fix.is_none());
    assert!(doctests.doctests);

    let fix = CargoInvocation::FixProduction {
        plan: fix_plan,
        packages: &packages,
        allow_dirty: false,
    }
    .specification();
    assert_eq!(fix.subcommand, "fix");
    assert_eq!(
        fix.selection_arguments,
        vec!["--package", "library", "--package", "support", "--lib"]
    );
    assert_eq!(fix.consumer_mode, ConsumerMode::Production);
    assert_eq!(fix.root_crate, "");
    assert_eq!(fix.fix.map(|fix| (fix.plan, fix.allow_dirty)), Some((fix_plan, false)));
    assert!(!fix.doctests);

    let fix_tests = CargoInvocation::FixNonProduction {
        plan: fix_plan,
        packages: &packages,
        allow_dirty: true,
    }
    .specification();
    assert_eq!(fix_tests.subcommand, "fix");
    assert_eq!(
        fix_tests.selection_arguments,
        vec!["--package", "library", "--package", "support", "--all-targets"]
    );
    assert_eq!(fix_tests.consumer_mode, ConsumerMode::NonProduction);
    assert_eq!(fix_tests.root_crate, "");
    assert_eq!(
        fix_tests.fix.map(|fix| (fix.plan, fix.allow_dirty)),
        Some((fix_plan, true))
    );
    assert!(!fix_tests.doctests);
}

#[test]
fn cargo_commands_carry_the_protocol_environment() {
    let features = vec!["--all-features".to_owned()];
    let settings = CargoSettings {
        manifest_path: "/w/Cargo.toml",
        target_dir: "/t",
        color: TerminalColor::Never,
        feature_arguments: &features,
        target: Some("x86_64-unknown-linux-gnu"),
        allow_dirty: false,
        allow_staged: true,
        allow_no_vcs: false,
        driver: "/bin/cargo-hawk-driver",
        collection_options: CollectionOptions::new(true),
    };
    let packages = vec!["library".to_owned()];
    let command = cargo_command(
        &settings,
        CargoInvocation::FixProduction {
            plan: "/g/plan",
            packages: &packages,
            allow_dirty: true,
        },
        "/g/production",
        "run-1",
        "",
    );
    assert_eq!(command.subcommand, "fix");
    assert_eq!(
        command.arguments,
        vec![
            "fix",
            "--manifest-path",
            "/w/Cargo.toml",
            "--locked",
            "--target-dir",
            "/t",
            "--package",
            "library",
            "--lib",
            "--color",
            "never",
            "--all-features",
            "--target",
            "x86_64-unknown-linux-gnu",
            "--allow-dirty",
            "--allow-staged",
        ]
    );
    let environment: Vec<(&str, &str)> = command
        .environment
        .iter()
        .map(|(name, value)| (name.as_str(), value.as_str()))
        .collect();
    assert_eq!(
        environment,
        vec![
            ("HAWK_FIX_PLAN", "/g/plan"),
            ("RUSTC_WORKSPACE_WRAPPER", "/bin/cargo-hawk-driver"),
            ("HAWK_PROTOCOL_VERSION", "2"),
            ("HAWK_OUTPUT_DIR", "/g/production"),
            ("HAWK_ROOT_CRATE", ""),
            ("HAWK_CONSUMER_MODE", "production"),
            ("HAWK_RUN_ID", "run-1"),
            ("HAWK_COLLECTION_OPTIONS", "preserve-uniform-field-visibility"),
        ]
    );
    assert!(command.removed_environment.is_empty());
    assert!(!command.capture_output);

    let doctests = cargo_command(&settings, CargoInvocation::CheckDoctests, "/g/tests", "run-2", "a\u{1f}b");
    assert_eq!(doctests.arguments.last().map(String::as_str), Some("--quiet"));
    assert_eq!(doctests.removed_environment, vec!["RUSTDOCFLAGS"]);
    assert!(doctests.capture_output);
    assert_eq!(
        doctests.environment.last(),
        Some(&("CARGO_ENCODED_RUSTDOCFLAGS".to_owned(), "a\u{1f}b".to_owned()))
    );
}

#[test]
fn doctest_flags_append_the_builder_wrapper() {
    assert_eq!(
        doctest_rustdoc_flags(None, Some(" --cfg  docs\t-Zx "), "/bin/hawk"),
        "--cfg\u{1f}docs\u{1f}-Zx\u{1f}-Zunstable-options\u{1f}--no-run\u{1f}--test-builder-wrapper\u{1f}/bin/hawk"
    );
    assert_eq!(
        doctest_rustdoc_flags(Some(""), Some("--ignored"), "/bin/hawk"),
        "-Zunstable-options\u{1f}--no-run\u{1f}--test-builder-wrapper\u{1f}/bin/hawk"
    );
    assert_eq!(
        doctest_rustdoc_flags(Some("-Dx"), None, "h"),
        "-Dx\u{1f}-Zunstable-options\u{1f}--no-run\u{1f}--test-builder-wrapper\u{1f}h"
    );
}

#[test]
fn production_summaries_name_binaries_and_profiles() {
    let app = ProductionSelection {
        package: "app",
        binary: "app",
    };
    let tool = ProductionSelection {
        package: "tools",
        binary: "tool",
    };
    let all = vec!["--all-features".to_owned()];
    let default = vec![String::new()];
    let two = vec!["--all-features".to_owned(), "--no-default-features".to_owned()];
    assert_eq!(production_summary(&[app], &all), "`app --bin app --all-features`");
    assert_eq!(production_summary(&[app], &default), "`app --bin app`");
    assert_eq!(production_summary(&[app], &two), "`app --bin app` across 2 feature profiles");
    assert_eq!(production_summary(&[app, tool], &all), "2 configured production binaries");
    assert_eq!(
        production_summary(&[app, tool], &two),
        "2 configured production binaries across 2 feature profiles"
    );
}

#[test]
fn compiler_version_fields_are_read_from_their_lines() {
    let report = "rustc 1.95.0\nbinary: rustc\ncommit-hash: abc\r\nhost: x86_64-unknown-linux-gnu\nrelease: 1.95.0\n";
    assert_eq!(rustc_version_field(report, "host"), Ok("x86_64-unknown-linux-gnu"));
    assert_eq!(rustc_version_field(report, "commit-hash"), Ok("abc"));
    assert_eq!(rustc_version_field(report, "release"), Ok("1.95.0"));
    assert_eq!(
        rustc_version_field(report, "LLVM version"),
        Err("selected compiler did not report LLVM version".to_owned())
    );
}

#[test]
fn compiler_probes_need_an_existing_compiler_and_a_compilation() {
    let args = |values: &[&str]| values.iter().map(|value| value.to_string()).collect::<Vec<_>>();
    let version = args(&["hawk", "/bin/rustc", "-vV"]);
    assert_eq!(rustc_probe_compiler(&version, |_| true), Some("/bin/rustc"));
    assert_eq!(rustc_probe_compiler(&version, |_| false), None);
    let compile = args(&["hawk", "rustc", "--edition", "2021", "--crate-name", "lib", "src/lib.rs"]);
    assert_eq!(rustc_probe_compiler(&compile, |_| true), Some("rustc"));
    let option_name = args(&["hawk", "rustc", "--crate-name", "-x"]);
    assert_eq!(rustc_probe_compiler(&option_name, |_| true), None);
    let option = args(&["hawk", "-vV"]);
    assert_eq!(rustc_probe_compiler(&option, |_| true), None);
    let other = args(&["hawk", "rustc", "-vV", "--verbose"]);
    assert_eq!(rustc_probe_compiler(&other, |_| true), None);
}

#[test]
fn crate_names_replace_hyphens() {
    assert_eq!(crate_name_of("app-cli-x"), "app_cli_x");
    assert_eq!(crate_name_of("plain"), "plain");
}

#[test]
fn target_directory_names_fit_their_limit() {
    let short = target_dir_component(Some("example-workspace"), 0x0123_4567_89ab_cdef);
    assert_eq!(short, "example-workspace-0123456789abcdef");
    let missing = target_dir_component(None, 15);
    assert_eq!(missing, "workspace-000000000000000f");
    let long = "a".repeat(245);
    let component = target_dir_component(Some(&long), 1);
    assert_eq!(component.len(), 240);
    assert_eq!(component, format!("{}-{:016x}", "a".repeat(223), 1));
    let accented = "é".repeat(123);
    let component = target_dir_component(Some(&accented), 2);
    assert!(component.len() <= 240);
    let (workspace, suffix) = component.rsplit_once('-').expect("hash suffix");
    assert_eq!(workspace, "é".repeat(111));
    assert_eq!(suffix.len(), 16);
}

fn definition(name: &str, kind: DefinitionKind, span: Option<Span>) -> Definition {
    Definition {
        id: name.into(),
        crate_name: "library".into(),
        name: name.into(),
        kind,
        span,
        public_api: true,
        restricted_visible_api: false,
        crate_visible_api: false,
        visible_reexport_api: false,
        module_scope: vec![],
        uniform_field_group: None,
        dead_code_allowed: false,
    }
}

fn render(finding: &Finding<'_>, source_line: Option<&str>) -> Vec<StyledText> {
    let mut output = Vec::new();
    write_diagnostic(&mut output, finding, "binary `app`", source_line, LintLevel::Warn);
    output
}

#[test]
fn diagnostic_rendering_includes_terminal_styles() {
    let definition = definition(
        "internal_helper",
        DefinitionKind::Function,
        Some(Span {
            file: "tests/fixtures/basic/library/src/lib.rs".into(),
            line: 5,
            column: 1,
        }),
    );
    let finding = Finding {
        kind: FindingKind::UnnecessaryPublic,
        definition: &definition,
        test_only: false,
        test_compiled_only: false,
    };
    let output = render(&finding, Some("pub fn internal_helper() {}"));
    assert!(output.iter().any(|piece| piece.tone == Some(Tone::Warning)));
    assert_eq!(
        to_plain_text(&output),
        "warning[hawk::unnecessary_public]: `internal_helper` is public but all reachable uses are within `library`; it can be `pub(crate)`\n  --> tests/fixtures/basic/library/src/lib.rs:5:1\n  |\n5 | pub fn internal_helper() {}\n  | ^^^ public declaration\n  = help: change this declaration to `pub(crate)`\n\n"
    );
}

#[test]
fn crate_visibility_diagnostic_names_the_required_scope() {
    let mut definition = definition(
        "scoped::run",
        DefinitionKind::Function,
        Some(Span {
            file: "tests/fixtures/crate_visibility_fixes/library/src/lib.rs".into(),
            line: 7,
            column: 5,
        }),
    );
    definition.public_api = false;
    definition.restricted_visible_api = true;
    definition.crate_visible_api = true;
    definition.module_scope = vec!["scoped".into()];
    let finding = Finding {
        kind: FindingKind::UnnecessaryCrateVisibility,
        definition: &definition,
        test_only: false,
        test_compiled_only: false,
    };
    let output = render(&finding, Some("    pub(crate) fn run() {"));
    assert_eq!(
        to_plain_text(&output),
        "warning[hawk::unnecessary_crate_visibility]: `scoped::run` is visible throughout the crate but all compiled uses fit within the parent module; it can be `pub(super)`\n  --> tests/fixtures/crate_visibility_fixes/library/src/lib.rs:7:5\n  |\n7 |     pub(crate) fn run() {\n  |     ^^^ crate-visible declaration\n  = help: change this declaration to `pub(super)`\n\n"
    );
}

#[test]
fn restricted_visibility_diagnostic_removes_the_modifier() {
    let mut definition = definition(
        "scoped::private_parent_visible_helper",
        DefinitionKind::Function,
        Some(Span {
            file: "tests/fixtures/crate_visibility_fixes/library/src/lib.rs".into(),
            line: 16,
            column: 5,
        }),
    );
    definition.public_api = false;
    definition.restricted_visible_api = true;
    definition.module_scope = vec!["scoped".into()];
    let finding = Finding {
        kind: FindingKind::UnnecessaryRestrictedVisibility,
        definition: &definition,
        test_only: false,
        test_compiled_only: false,
    };
    let output = render(&finding, Some("    pub(super) fn private_parent_visible_helper() {}"));
    assert_eq!(
        to_plain_text(&output),
        "warning[hawk::unnecessary_restricted_visibility]: `scoped::private_parent_visible_helper` has explicit restricted visibility but all compiled uses fit within the defining module; it can be private\n  --> tests/fixtures/crate_visibility_fixes/library/src/lib.rs:16:5\n   |\n16 |     pub(super) fn private_parent_visible_helper() {}\n   |     ^^^ restricted-visibility declaration\n   = help: remove this declaration's visibility modifier\n\n"
    );
}

#[test]
fn dead_enum_variant_diagnostic_accounts_for_unreachable_uses() {
    let definition = definition("InternalState::Active", DefinitionKind::EnumVariant, None);
    let finding = Finding {
        kind: FindingKind::DeadPublic,
        definition: &definition,
        test_only: false,
        test_compiled_only: false,
    };
    let output = to_plain_text(&render(&finding, None));
    assert_eq!(
        output,
        "warning[hawk::dead_public]: `InternalState::Active` is a public enum variant but is not reachable from binary `app`\n  = note: declaration in crate `library`\n  = help: consider removing this variant and its remaining uses\n\n"
    );
    assert!(!output.contains("pub(crate)"));
}

#[test]
fn test_only_declarations_are_described_as_such() {
    let module = definition("api", DefinitionKind::Module, None);
    let finding = Finding {
        kind: FindingKind::UnnecessaryPublic,
        definition: &module,
        test_only: true,
        test_compiled_only: false,
    };
    let mut output = Vec::new();
    write_diagnostic(&mut output, &finding, "binary `app`", None, LintLevel::Deny);
    assert_eq!(
        to_plain_text(&output),
        "error[hawk::unnecessary_public]: public module `api` is needed only by tests; it can be `pub(crate)`\n  = note: declaration in crate `library`\n  = help: change this module to `pub(crate) mod`\n\n"
    );
    assert_eq!(output[0].tone, Some(Tone::Error));
    let helper = definition("helper", DefinitionKind::Function, None);
    let dead = Finding {
        kind: FindingKind::DeadPublic,
        definition: &helper,
        test_only: false,
        test_compiled_only: true,
    };
    assert!(to_plain_text(&render(&dead, None)).starts_with(
        "warning[hawk::dead_public]: `helper` is public but is not reachable from any workspace test\n"
    ));
}

#[test]
fn markers_follow_tabs_in_the_source_line() {
    assert_eq!(marker_indent("\tlet x", 3), "\t ");
    assert_eq!(marker_indent("ab", 10), "  ");
    assert_eq!(marker_indent("ab", 0), "");
}

#[test]
fn configuration_diagnostics_point_at_the_override() {
    let entry = LintOverride {
        lint: FindingKind::DeadPublic,
        crate_name: "library".into(),
        item: "removed".into(),
        definition_kind: None,
        level: OverrideLevel::Expect,
        reason: "detect stale selectors".into(),
        target: None,
        span: ConfigSpan { line: 2, column: 1 },
    };
    let mut output = Vec::new();
    write_config_diagnostic(
        &mut output,
        ConfigDiagnosticKind::UnknownItem,
        &entry,
        "hawk.toml",
        Some("[[override]]"),
        LintLevel::Warn,
    );
    assert_eq!(
        to_plain_text(&output),
        "warning[hawk::unknown_item]: override for `hawk::dead_public` references unknown item `library::removed`\n  --> hawk.toml:2:1\n  |\n2 | [[override]]\n  | ^^^ no matching item was found\n  = note: reason: detect stale selectors\n  = help: remove this override or update its `crate` and `item` selectors\n\n"
    );
}

#[test]
fn summaries_and_errors_are_single_lines() {
    let mut output = Vec::new();
    write_summary(&mut output, 41, "`app --bin app --all-features`", "the host target");
    assert_eq!(
        to_plain_text(&output),
        "hawk: 41 finding(s) for `app --bin app --all-features` and workspace non-production targets on the host target\n"
    );
    let error = error_report("no applicable production binaries configured");
    assert_eq!(to_plain_text(&error), "error: no applicable production binaries configured\n");
    assert_eq!(error[0].tone, Some(Tone::Error));
}

#[test]
fn default_target_dir_uses_platform_temp_directory() {
    let component = target_dir_name("/path/to/example-workspace", Some("example-workspace"));
    let other_component = target_dir_name("/another/path/to/example-workspace", Some("example-workspace"));

    assert!(component.starts_with("example-workspace-"));
    assert_ne!(component, other_component);
}

#[test]
fn default_target_dir_truncates_long_workspace_names() {
    let workspace = "a".repeat(245);
    let root = format!("/path/to/{workspace}");
    let other_root = format!("/another/path/to/{workspace}");
    let component = target_dir_name(&root, Some(&workspace));
    let other_component = target_dir_name(&other_root, Some(&workspace));

    assert_eq!(component.len(), TARGET_DIR_COMPONENT_MAX_BYTES);
    let (workspace, suffix) = component.rsplit_once('-').expect("target directory has a hash suffix");
    assert_eq!(workspace, "a".repeat(TARGET_DIR_COMPONENT_MAX_BYTES - suffix.len() - 1));
    assert_eq!(suffix.len(), 16);
    assert!(suffix.bytes().all(|byte| byte.is_ascii_hexdigit()));
    assert_ne!(component, other_component);
}

#[test]
fn default_target_dir_truncates_at_a_utf8_boundary() {
    let workspace = "é".repeat(123);
    let root = format!("/path/to/{workspace}");
    let component = target_dir_name(&root, Some(&workspace));
    let (workspace, suffix) = component.rsplit_once('-').expect("target directory has a hash suffix");

    assert!(component.len() <= TARGET_DIR_COMPONENT_MAX_BYTES);
    assert!(!workspace.is_empty());
    assert!(workspace.chars().all(|character| character == 'é'));
    assert_eq!(suffix.len(), 16);
}

#[test]
fn diagnostic_renderer_loads_each_source_once() {
    let load_count = std::cell::Cell::new(0);
    let mut sources = cargo_hawk::render::SourceCache::new();
    let load = |path: &str| {
        assert_eq!(path, "/workspace/src/lib.rs");
        load_count.set(load_count.get() + 1);
        Some("first\r\nsecond\n".to_owned())
    };

    assert_eq!(sources.source_line("/workspace/src/lib.rs", 1, load), Some("first".to_owned()));
    assert_eq!(sources.source_line("/workspace/src/lib.rs", 2, load), Some("second".to_owned()));
    assert_eq!(sources.source_line("/workspace/src/lib.rs", 3, load), None);
    assert_eq!(load_count.get(), 1);
}

#[test]
fn unreadable_sources_are_remembered() {
    let load_count = std::cell::Cell::new(0);
    let mut sources = cargo_hawk::render::SourceCache::new();
    let load = |_: &str| {
        load_count.set(load_count.get() + 1);
        None
    };

    assert_eq!(sources.source_line("/workspace/missing.rs", 1, load), None);
    assert_eq!(sources.source_line("/workspace/missing.rs", 1, load), None);
    assert_eq!(load_count.get(), 1);
}

#[test]
fn cached_sources_quote_lines_without_endings() {
    let source = cargo_hawk::render::CachedSource::new("first\r\nsecond\n".to_owned());
    assert_eq!(source.line(1), Some("first"));
    assert_eq!(source.line(2), Some("second"));
    assert_eq!(source.line(3), None);
    assert_eq!(source.line(0), None);
}

#[test]
fn ordered_lint_levels_decide_the_report_outcome() {
    let dead = definition("dead_api", DefinitionKind::Function, None);
    let narrow = definition("narrow_api", DefinitionKind::Function, None);
    let findings = vec![
        Finding { kind: FindingKind::DeadPublic, definition: &dead, test_only: false, test_compiled_only: false },
        Finding {
            kind: FindingKind::UnnecessaryCrateVisibility,
            definition: &narrow,
            test_only: false,
            test_compiled_only: false,
        },
    ];
    let entry = LintOverride {
        lint: FindingKind::DeadPublic,
        crate_name: "library".into(),
        item: "removed".into(),
        definition_kind: None,
        level: OverrideLevel::Expect,
        reason: "detect stale selectors".into(),
        target: None,
        span: ConfigSpan { line: 2, column: 1 },
    };
    let diagnostics = vec![cargo_hawk::config::ConfigDiagnostic {
        kind: ConfigDiagnosticKind::UnfulfilledExpectation,
        entry: &entry,
    }];

    let defaults = LintLevels::default();
    assert_eq!(cargo_hawk::outcome::report_outcome(&findings, &diagnostics, &defaults), (2, false));

    let denied = levels(&[(1, "warnings", LintLevel::Deny), (3, "hawk::unfulfilled_expectation", LintLevel::Warn)]);
    assert_eq!(cargo_hawk::outcome::report_outcome(&findings, &diagnostics, &denied), (2, true));

    let quiet = levels(&[(1, "warnings", LintLevel::Allow)]);
    assert_eq!(cargo_hawk::outcome::report_outcome(&findings, &diagnostics, &quiet), (0, false));

    let enabled = levels(&[(1, "hawk::unnecessary_crate_visibility", LintLevel::Deny)]);
    assert_eq!(cargo_hawk::outcome::report_outcome(&findings, &diagnostics, &enabled), (3, true));
}

#[test]
fn default_analysis_summarises_all_features() {
    let config = cargo_hawk::config::Config::default();
    let profiles: Vec<String> =
        config.feature_profiles().iter().map(|profile| profile.cargo_arguments_description()).collect();
    let products = [ProductionSelection { package: "app", binary: "app" }];
    assert_eq!(production_summary(&products, &profiles), "`app --bin app --all-features`");
}
