//! Validation of the configuration and how its overrides apply.

use cargo_hawk::config::{
    config_span, AnalysisTarget, Config, ConfigDiagnosticKind, ConfigIssue, OverrideLevel, RawExclusion,
    RawFeatureProfile, RawLintOverride, RawProductionConsumer,
};
use cargo_hawk::graph::analyze;
use cargo_hawk::model::{Definition, DefinitionKind, FindingKind, Fragment, ProtocolVersion};

fn fragment() -> Fragment {
    Fragment {
        protocol_version: ProtocolVersion,
        package_name: "library".into(),
        crate_name: "library".into(),
        crate_id: "library".into(),
        is_product_root: false,
        test_surface: false,
        definitions: vec![definition("unused", "unused", DefinitionKind::Function)],
        edges: vec![],
        roots: vec![],
        conservative_roots: vec![],
        required_public_roots: vec![],
    }
}

fn definition(id: &str, name: &str, kind: DefinitionKind) -> Definition {
    Definition {
        id: id.into(),
        crate_name: "library".into(),
        name: name.into(),
        kind,
        span: None,
        public_api: true,
        restricted_visible_api: false,
        crate_visible_api: false,
        visible_reexport_api: false,
        module_scope: vec![],
        uniform_field_group: None,
        dead_code_allowed: false,
    }
}

fn same_named_fragment() -> Fragment {
    let mut fragment = fragment();
    fragment.definitions = vec![
        definition("alias", "SameName", DefinitionKind::TypeAlias),
        definition("constant", "SameName", DefinitionKind::Constant),
    ];
    fragment
}

fn target(name: &str, cfgs: &[&str]) -> AnalysisTarget {
    AnalysisTarget::new(name.into(), cfgs.iter().map(|cfg| cfg.to_string()).collect()).expect("valid target cfg")
}

fn candidate_crates() -> Vec<String> {
    vec!["library".to_owned()]
}

fn override_entry(item: &str, kind: Option<DefinitionKind>, target: Option<&str>) -> RawLintOverride {
    RawLintOverride {
        lint: "hawk::dead_public".into(),
        crate_name: "library".into(),
        item: item.into(),
        definition_kind: kind,
        level: OverrideLevel::Expect,
        reason: "known retained public surface".into(),
        target: target.map(str::to_owned),
        offset: 1,
    }
}

fn config(overrides: Vec<RawLintOverride>, production: Vec<RawProductionConsumer>) -> Config {
    Config::from_entries("hawk.toml".into(), "\n[[override]]\n".into(), false, overrides, production, vec![], vec![])
        .expect("load configuration")
}

#[test]
fn expect_suppresses_a_matching_finding() {
    let config = config(vec![override_entry("unused", None, None)], vec![]);
    let fragments = vec![fragment()];
    let findings = analyze(&fragments, &[], &candidate_crates(), &Vec::new());

    let applied = config.apply(&target("aarch64-apple-darwin", &["unix"]), &fragments, &[], findings);

    assert!(applied.findings.is_empty());
    assert!(applied.config_diagnostics.is_empty());
}

#[test]
fn missing_item_is_reported_instead_of_unfulfilled_expectation() {
    let config = config(vec![override_entry("removed", None, None)], vec![]);
    let fragments = vec![fragment()];
    let findings = analyze(&fragments, &[], &candidate_crates(), &Vec::new());

    let applied = config.apply(&target("aarch64-apple-darwin", &["unix"]), &fragments, &[], findings);

    assert_eq!(applied.findings.len(), 1);
    assert_eq!(applied.findings[0].kind, FindingKind::DeadPublic);
    assert_eq!(applied.config_diagnostics.len(), 1);
    assert_eq!(applied.config_diagnostics[0].kind, ConfigDiagnosticKind::UnknownItem);
}

#[test]
fn ambiguous_item_selector_suppresses_no_findings() {
    let config = config(vec![override_entry("SameName", None, None)], vec![]);
    let fragments = vec![same_named_fragment()];
    let findings = analyze(&fragments, &[], &candidate_crates(), &Vec::new());

    let applied = config.apply(&target("aarch64-apple-darwin", &["unix"]), &fragments, &[], findings);

    assert_eq!(applied.findings.len(), 2);
    assert_eq!(applied.config_diagnostics.len(), 1);
    assert_eq!(applied.config_diagnostics[0].kind, ConfigDiagnosticKind::AmbiguousItem);
}

#[test]
fn definition_kind_disambiguates_an_override() {
    let config = config(
        vec![override_entry("SameName", Some(DefinitionKind::TypeAlias), None)],
        vec![],
    );
    let fragments = vec![same_named_fragment()];
    let findings = analyze(&fragments, &[], &candidate_crates(), &Vec::new());

    let applied = config.apply(&target("aarch64-apple-darwin", &["unix"]), &fragments, &[], findings);

    assert_eq!(applied.findings.len(), 1);
    assert_eq!(applied.findings[0].definition.kind, DefinitionKind::Constant);
    assert!(applied.config_diagnostics.is_empty());
}

#[test]
fn target_scoped_override_only_applies_on_matching_target() {
    let config = config(vec![override_entry("unused", None, Some("cfg(windows)"))], vec![]);
    let fragments = vec![fragment()];

    let windows = config.apply(
        &target("x86_64-pc-windows-msvc", &["windows"]),
        &fragments,
        &[],
        analyze(&fragments, &[], &candidate_crates(), &Vec::new()),
    );
    assert!(windows.findings.is_empty());
    assert!(windows.config_diagnostics.is_empty());

    let unix = config.apply(
        &target("aarch64-apple-darwin", &["unix"]),
        &fragments,
        &[],
        analyze(&fragments, &[], &candidate_crates(), &Vec::new()),
    );
    assert_eq!(unix.findings.len(), 1);
    assert!(unix.config_diagnostics.is_empty());
}

#[test]
fn inapplicable_override_does_not_report_an_unknown_item() {
    let config = config(
        vec![override_entry("windows_only_item", None, Some("cfg(windows)"))],
        vec![],
    );
    let fragments = vec![fragment()];
    let findings = analyze(&fragments, &[], &candidate_crates(), &Vec::new());

    let applied = config.apply(&target("aarch64-apple-darwin", &["unix"]), &fragments, &[], findings);

    assert_eq!(applied.findings.len(), 1);
    assert!(applied.config_diagnostics.is_empty());
}

#[test]
fn target_scoped_production_consumer_only_applies_on_matching_target() {
    let config = config(
        vec![],
        vec![RawProductionConsumer {
            package: "windows-runner".into(),
            binary: "windows-runner".into(),
            reason: "shipped on Windows".into(),
            target: Some("cfg(windows)".into()),
            offset: 0,
        }],
    );

    let windows = config.production_consumers(&target("x86_64-pc-windows-msvc", &["windows"]));
    assert_eq!(windows.len(), 1);
    assert_eq!(windows[0].package, "windows-runner");
    assert_eq!(windows[0].binary, "windows-runner");

    assert_eq!(
        config
            .production_consumers(&target("aarch64-apple-darwin", &["unix"]))
            .len(),
        0
    );
}

#[test]
fn allowed_findings_are_suppressed_without_expectation_reports() {
    let mut entry = override_entry("removed_helper", None, None);
    entry.level = OverrideLevel::Allow;
    entry.item = "unused".into();
    let config = config(vec![entry], vec![]);
    let fragments = vec![fragment()];
    let applied = config.apply(
        &target("x86_64-unknown-linux-gnu", &["unix"]),
        &fragments,
        &[],
        Vec::new(),
    );
    assert!(applied.findings.is_empty());
    assert!(applied.config_diagnostics.is_empty());

    let expectation = self::config(vec![override_entry("unused", None, None)], vec![]);
    let unfulfilled = expectation.apply(
        &target("x86_64-unknown-linux-gnu", &["unix"]),
        &fragments,
        &[],
        Vec::new(),
    );
    assert_eq!(unfulfilled.config_diagnostics.len(), 1);
    assert_eq!(
        unfulfilled.config_diagnostics[0].kind,
        ConfigDiagnosticKind::UnfulfilledExpectation
    );
    assert_eq!(unfulfilled.config_diagnostics[0].entry.item, "unused");
}

#[test]
fn configuration_errors_name_the_entry() {
    let source = "# header\n[[override]]\nlint = \"x\"\n";
    let mut unknown = override_entry("unused", None, None);
    unknown.lint = "hawk::nonexistent".into();
    unknown.offset = 9;
    let error = Config::from_entries("hawk.toml".into(), source.into(), false, vec![unknown], vec![], vec![], vec![])
        .expect_err("unknown lint");
    assert_eq!(error.issue, ConfigIssue::UnknownLint);
    assert_eq!(error.message(), "unknown Hawk lint `hawk::nonexistent` in hawk.toml:2:1");

    let mut blank = override_entry("unused", None, None);
    blank.reason = " \t\u{3000}".into();
    let error = Config::from_entries("hawk.toml".into(), source.into(), false, vec![blank], vec![], vec![], vec![])
        .expect_err("blank reason");
    assert_eq!(error.message(), "override in hawk.toml:1:2 must provide a non-empty reason");

    let consumer = RawProductionConsumer {
        package: "app".into(),
        binary: "app".into(),
        reason: "".into(),
        target: None,
        offset: 0,
    };
    let error = Config::from_entries("hawk.toml".into(), source.into(), false, vec![], vec![consumer], vec![], vec![])
        .expect_err("missing reason");
    assert_eq!(
        error.message(),
        "production consumer in hawk.toml:1:1 must provide a non-empty reason"
    );

    let invalid = override_entry("unused", None, Some("cfg(windows"));
    let error = Config::from_entries("hawk.toml".into(), source.into(), false, vec![invalid], vec![], vec![], vec![])
        .expect_err("invalid selector");
    assert_eq!(error.issue, ConfigIssue::InvalidTarget);
    assert_eq!(error.message(), "parse target selector `cfg(windows` in hawk.toml:1:2");
    assert!(error.cause.is_some());
}

#[test]
fn configuration_spans_count_lines_and_characters() {
    let source = "a = \"é\"\n\n  [[production]]";
    let span = config_span(source, 0);
    assert_eq!((span.line, span.column), (1, 1));
    let span = config_span(source, 9);
    assert_eq!((span.line, span.column), (2, 1));
    let span = config_span(source, 8);
    assert_eq!((span.line, span.column), (1, 8));
    let span = config_span(source, 12);
    assert_eq!((span.line, span.column), (3, 3));
}

#[test]
fn source_lines_are_counted_from_one() {
    let config = Config::from_entries("hawk.toml".into(), "first\r\nsecond\n".into(), true, vec![], vec![], vec![], vec![])
        .expect("empty configuration");
    assert_eq!(config.source_line(0), None);
    assert_eq!(config.source_line(1), Some("first"));
    assert_eq!(config.source_line(2), Some("second"));
    assert_eq!(config.source_line(3), None);
    assert_eq!(config.path(), Some("hawk.toml"));
    assert!(config.preserve_uniform_field_visibility());
    assert_eq!(Config::default().path(), None);
}

#[test]
fn analysis_targets_refuse_unparsable_configuration() {
    let error = AnalysisTarget::new("x".into(), vec!["unix".into(), "target_os = ".into()])
        .expect_err("invalid configuration line");
    assert_eq!(error.0, "target_os = ");
    assert_eq!(target("aarch64-apple-darwin", &["unix"]).name(), "aarch64-apple-darwin");
}

fn exclusion(module: Option<&str>, file: Option<&str>) -> RawExclusion {
    RawExclusion {
        crate_name: "library".into(),
        module: module.map(str::to_owned),
        file: file.map(str::to_owned),
        reason: "generated from the protocol schema".into(),
        target: None,
        offset: 1,
    }
}

fn excluding(exclusions: Vec<RawExclusion>) -> Result<Config, cargo_hawk::config::ConfigError> {
    Config::from_entries("hawk.toml".into(), "\n[[exclude]]\n".into(), false, vec![], vec![], exclusions, vec![])
}

#[test]
fn module_exclusions_suppress_the_module_and_its_descendants() {
    let mut fragment = fragment();
    fragment.definitions = vec![
        definition("module", "generated_bindings", DefinitionKind::Module),
        definition("message", "generated_bindings::Message", DefinitionKind::Struct),
        definition("sibling", "generated_bindings_extra", DefinitionKind::Function),
        definition("unused", "unused", DefinitionKind::Function),
    ];
    let fragments = vec![fragment];
    let config = excluding(vec![exclusion(Some("generated_bindings"), None)]).expect("valid exclusion");
    let findings = analyze(&fragments, &[], &candidate_crates(), &Vec::new());
    assert_eq!(findings.len(), 4);

    let applied = config.apply(&target("aarch64-apple-darwin", &["unix"]), &fragments, &[], findings);

    let names: Vec<&str> = applied.findings.iter().map(|finding| finding.definition.name.as_str()).collect();
    assert_eq!(names, vec!["generated_bindings_extra", "unused"]);
    assert!(applied.config_diagnostics.is_empty());
}

#[test]
fn file_exclusions_suppress_declarations_of_that_file() {
    let mut fragment = fragment();
    let mut generated = definition("generated", "generated", DefinitionKind::Function);
    generated.span = Some(cargo_hawk::model::Span { file: "platform/src/generated.rs".into(), line: 1, column: 1 });
    fragment.definitions = vec![generated, definition("unused", "unused", DefinitionKind::Function)];
    let fragments = vec![fragment];
    let config = excluding(vec![exclusion(None, Some("platform/src/generated.rs"))]).expect("valid exclusion");
    let findings = analyze(&fragments, &[], &candidate_crates(), &Vec::new());

    let applied = config.apply(&target("aarch64-apple-darwin", &["unix"]), &fragments, &[], findings);

    assert_eq!(applied.findings.len(), 1);
    assert_eq!(applied.findings[0].definition.name, "unused");
}

#[test]
fn exclusions_need_exactly_one_scope() {
    for entry in [exclusion(None, None), exclusion(Some("generated"), Some("src/generated.rs"))] {
        let error = excluding(vec![entry]).expect_err("ambiguous scope");
        assert_eq!(error.issue, ConfigIssue::ExclusionScope);
        assert_eq!(error.message(), "exclusion in hawk.toml:2:1 must provide exactly one of `module` or `file`");
    }
}

fn profile(name: &str, all_features: bool, no_default_features: bool, features: Option<&[&str]>) -> RawFeatureProfile {
    RawFeatureProfile {
        name: name.into(),
        all_features,
        no_default_features,
        features: features.map(|features| features.iter().map(|feature| feature.to_string()).collect()),
        offset: 1,
    }
}

fn with_profiles(profiles: Vec<RawFeatureProfile>) -> Result<Config, cargo_hawk::config::ConfigError> {
    Config::from_entries("hawk.toml".into(), "\n[[feature-profile]]\n".into(), false, vec![], vec![], vec![], profiles)
}

#[test]
fn default_feature_profile_enables_all_features() {
    let config = Config::default();
    assert_eq!(config.feature_profiles().len(), 1);
    assert_eq!(config.feature_profiles()[0].name(), "all-features");
    assert_eq!(config.feature_profiles()[0].cargo_arguments(), vec!["--all-features".to_owned()]);
    assert_eq!(config.feature_profiles()[0].cargo_arguments_description(), "--all-features");
    assert!(config.supports_fixes());
}

#[test]
fn feature_profiles_pass_their_cargo_arguments() {
    let config = with_profiles(vec![
        profile("all", true, false, None),
        profile("minimal", false, true, None),
        profile("serde-only", false, true, Some(&["serde", "json"])),
        profile("defaults", false, false, None),
    ])
    .expect("valid profiles");
    let descriptions: Vec<String> =
        config.feature_profiles().iter().map(|profile| profile.cargo_arguments_description()).collect();
    assert_eq!(
        descriptions,
        vec!["--all-features", "--no-default-features", "--no-default-features --features serde --features json", ""]
    );
    assert!(!config.supports_fixes());
}

#[test]
fn feature_profiles_are_validated() {
    let invalid = with_profiles(vec![profile("no spaces", false, false, None)]).expect_err("invalid name");
    assert_eq!(invalid.issue, ConfigIssue::InvalidProfileName);
    let duplicate =
        with_profiles(vec![profile("all", true, false, None), profile("all", false, true, None)]).expect_err("duplicate");
    assert_eq!(duplicate.issue, ConfigIssue::DuplicateProfile);
    assert_eq!(duplicate.message(), "duplicate feature profile `all` in hawk.toml:2:1");
    let conflicting = with_profiles(vec![profile("all", true, true, None)]).expect_err("conflicting");
    assert_eq!(conflicting.issue, ConfigIssue::ConflictingFeatures);
    let listed = with_profiles(vec![profile("all", true, false, Some(&[]))]).expect_err("conflicting list");
    assert_eq!(listed.issue, ConfigIssue::ConflictingFeatures);
}
