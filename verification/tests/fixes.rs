//! Fix plans and the workspace packages they change.

use cargo_hawk::fixing::{fix_plan_for, plan_fixes, FixRound};
use cargo_hawk::outcome::{fix_step, FixStep};
use cargo_hawk::lint::{LintLevel, LintLevels};
use cargo_hawk::model::{
    Definition, DefinitionKind, Finding, FindingKind, FixPlan, FixTarget, Fragment, ProtocolVersion, Span,
    VisibilityReduction,
};
use cargo_hawk::workspace::{
    fix_packages, validate_product, workspace_library_crates, CargoPackage, CargoTarget,
};

fn definition(id: &str, name: &str, line: usize) -> Definition {
    Definition {
        id: id.into(),
        crate_name: "library".into(),
        name: name.into(),
        kind: DefinitionKind::Function,
        span: Some(Span {
            file: "src/lib.rs".into(),
            line,
            column: 1,
        }),
        public_api: true,
        restricted_visible_api: false,
        crate_visible_api: false,
        visible_reexport_api: false,
        module_scope: vec![],
        uniform_field_group: None,
        dead_code_allowed: false,
    }
}

fn fragment(definitions: Vec<Definition>) -> Fragment {
    Fragment {
        protocol_version: ProtocolVersion,
        package_name: "library".into(),
        crate_name: "library".into(),
        crate_id: "library".into(),
        is_product_root: false,
        test_surface: false,
        definitions,
        edges: vec![],
        roots: vec![],
        conservative_roots: vec![],
        required_public_roots: vec![],
    }
}

fn finding(definition: &Definition, kind: FindingKind, test_only: bool) -> Finding<'_> {
    Finding {
        kind,
        definition,
        test_only,
        test_compiled_only: false,
    }
}

#[test]
fn fix_plans_target_every_compilation_of_a_declaration() {
    let fragments = vec![
        fragment(vec![definition("a1", "helper", 3), definition("b", "other", 9)]),
        fragment(vec![definition("a2", "helper", 3), definition("c", "helper", 4)]),
    ];
    let declared = definition("x", "helper", 3);
    let dead = definition("y", "other", 9);
    let findings = vec![
        finding(&declared, FindingKind::UnnecessaryPublic, false),
        finding(&dead, FindingKind::DeadPublic, false),
    ];
    let plan = fix_plan_for(&findings, &fragments);
    let ids: Vec<&str> = plan.targets.iter().map(|target| target.id.as_str()).collect();
    assert_eq!(ids, vec!["a1", "a2"]);
    assert!(plan.targets.iter().all(|target| target.replacement == VisibilityReduction::Crate));
    assert!(plan.targets.iter().all(|target| target.kind == FindingKind::UnnecessaryPublic));
}

#[test]
fn fix_rounds_split_production_and_test_fixes() {
    let production = vec![fragment(vec![
        definition("p", "public_helper", 1),
        definition("r", "restricted_helper", 2),
        definition("t", "test_helper", 3),
    ])];
    let tests = vec![fragment(vec![definition("t2", "test_helper", 3)])];
    let public_helper = definition("p", "public_helper", 1);
    let restricted_helper = definition("r", "restricted_helper", 2);
    let test_helper = definition("t", "test_helper", 3);
    let findings = vec![
        finding(&public_helper, FindingKind::UnnecessaryPublic, false),
        finding(&restricted_helper, FindingKind::UnnecessaryRestrictedVisibility, false),
        finding(&test_helper, FindingKind::UnnecessaryPublic, true),
    ];
    let levels = LintLevels::default();

    let first = plan_fixes(&findings, &levels, 0, &production, &tests);
    let ids = |plan: &FixPlan| plan.targets.iter().map(|target| target.id.clone()).collect::<Vec<_>>();
    assert_eq!(ids(&first.production_fix), vec!["p", "r"]);
    assert_eq!(ids(&first.test_fix), vec!["t2"]);
    assert_eq!(ids(&first.production_emission), vec!["p", "r", "t"]);
    assert_eq!(ids(&first.test_emission), vec!["t2"]);

    let later = plan_fixes(&findings, &levels, 1, &production, &tests);
    assert_eq!(ids(&later.production_fix), vec!["r"]);
    assert!(later.test_fix.targets.is_empty());

    let arguments = vec![(1, "hawk::unnecessary_restricted_visibility".to_owned(), LintLevel::Allow)];
    let quiet = LintLevels::from_indexed(&arguments).expect("valid selector");
    let silenced = plan_fixes(&findings, &quiet, 0, &production, &tests);
    assert_eq!(ids(&silenced.production_fix), vec!["p"]);
}

#[test]
fn dead_public_findings_stay_report_only() {
    let production = vec![fragment(vec![definition("d", "dead_api", 1)])];
    let dead_api = definition("d", "dead_api", 1);
    let findings = vec![finding(&dead_api, FindingKind::DeadPublic, false)];
    let round = plan_fixes(&findings, &LintLevels::default(), 0, &production, &[]);
    assert!(round.production_fix.targets.is_empty());
    assert!(round.production_emission.targets.is_empty());
    assert!(round.test_fix.targets.is_empty());
}

fn package(name: &str, targets: &[(&str, bool, bool)]) -> CargoPackage {
    CargoPackage {
        name: name.into(),
        targets: targets
            .iter()
            .map(|(target, is_lib, is_bin)| CargoTarget {
                name: target.to_string(),
                is_lib: *is_lib,
                is_bin: *is_bin,
            })
            .collect(),
    }
}

#[test]
fn production_binaries_must_belong_to_the_workspace() {
    let packages = vec![package("app", &[("app", false, true), ("app-lib", true, false)])];
    assert_eq!(validate_product(&packages, "app", "app"), Ok(()));
    assert_eq!(
        validate_product(&packages, "app", "other"),
        Err("package `app` has no binary target `other`".to_owned())
    );
    assert_eq!(
        validate_product(&packages, "missing", "app"),
        Err("package `missing` is not in the selected workspace".to_owned())
    );
    assert_eq!(
        validate_product(&packages, "app", "app-lib"),
        Err("package `app` has no binary target `app-lib`".to_owned())
    );
}

fn plan(crates: &[&str]) -> FixPlan {
    FixPlan {
        protocol_version: ProtocolVersion,
        targets: crates
            .iter()
            .map(|crate_name| FixTarget {
                id: crate_name.to_string(),
                crate_name: crate_name.to_string(),
                name: "item".into(),
                definition_kind: DefinitionKind::Function,
                span: None,
                kind: FindingKind::UnnecessaryPublic,
                replacement: VisibilityReduction::Crate,
            })
            .collect(),
    }
}

#[test]
fn fix_packages_are_found_by_library_crate() {
    let packages = vec![
        package("app", &[("app", false, true)]),
        package("core-lib", &[("core-lib", true, false)]),
        package("support", &[("support_lib", true, false)]),
    ];
    assert_eq!(
        fix_packages(&packages, &plan(&["support_lib", "core_lib", "core_lib"])),
        Ok(vec!["core-lib".to_owned(), "support".to_owned()])
    );
    assert_eq!(
        fix_packages(&packages, &plan(&["zeta", "core_lib", "alpha"])),
        Err("could not identify Cargo library package(s) for fixes in crate(s): alpha, zeta".to_owned())
    );
}

#[test]
fn workspace_library_crate_names_must_be_unique() {
    let unique = vec![
        package("b-pkg", &[("b-lib", true, false)]),
        package("a-pkg", &[("a", true, false), ("a", false, true)]),
    ];
    assert_eq!(
        workspace_library_crates(&unique),
        Ok(vec!["a".to_owned(), "b_lib".to_owned()])
    );
    let duplicates = vec![
        package("library-b", &[("shared", true, false)]),
        package("library-a", &[("shared", true, false)]),
        package("solo", &[("solo", true, false)]),
    ];
    assert_eq!(
        workspace_library_crates(&duplicates),
        Err("workspace library crate names must be unique; conflicting names: `shared` (`library-a`, `library-b`). Hawk identifies graph definitions and fix targets by crate name; give each `[lib]` target a unique `name`".to_owned())
    );
}

#[test]
fn rejects_duplicate_workspace_library_crate_names() {
    let packages = vec![
        package("library-a", &[("shared", true, false)]),
        package("library-b", &[("shared", true, false)]),
    ];
    let error = workspace_library_crates(&packages).expect_err("duplicate crate names");
    assert!(error.contains(
        "conflicting names: `shared` (`library-a`, `library-b`). Hawk identifies graph definitions and fix targets by crate name"
    ));
    assert!(error.contains("give each `[lib]` target a unique `name`"));
}

fn target(id: &str, name: &str) -> FixTarget {
    FixTarget {
        id: id.into(),
        crate_name: "library".into(),
        name: name.into(),
        definition_kind: DefinitionKind::Function,
        span: None,
        kind: FindingKind::UnnecessaryPublic,
        replacement: VisibilityReduction::Crate,
    }
}

fn fix_plan(targets: Vec<FixTarget>) -> FixPlan {
    FixPlan { protocol_version: ProtocolVersion, targets }
}

fn round(production: Vec<FixTarget>, test: Vec<FixTarget>) -> FixRound {
    FixRound {
        production_fix: fix_plan(production),
        test_fix: fix_plan(test),
        production_emission: fix_plan(vec![]),
        test_emission: fix_plan(vec![]),
    }
}

#[test]
fn fix_plan_signatures_are_independent_of_target_order() {
    let forward = round(vec![target("before-first", "first"), target("before-second", "second")], vec![]);
    let reverse = round(vec![target("after-second", "second"), target("after-first", "first")], vec![]);
    let swapped = round(vec![], vec![target("before-first", "first"), target("before-second", "second")]);

    let mut seen = Vec::new();
    assert_eq!(fix_step(&mut seen, &forward), FixStep::Apply);
    assert_eq!(fix_step(&mut seen, &reverse), FixStep::NoProgress);
    assert_eq!(fix_step(&mut seen, &swapped), FixStep::Apply);
    assert_eq!(seen.len(), 2);
}

#[test]
fn fix_rounds_end_when_nothing_is_left_to_fix() {
    let mut seen = Vec::new();
    assert_eq!(fix_step(&mut seen, &round(vec![], vec![])), FixStep::Done);
    assert!(seen.is_empty());
}
