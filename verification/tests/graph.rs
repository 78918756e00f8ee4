//! Behaviour of the analysis on small graphs.

use cargo_hawk::graph::{analyze as analyze_with_tests, analyze_with_options};
use cargo_hawk::model::{
    Definition, DefinitionKind, Edge, EdgeKind, Finding, FindingKind, Fragment, ProtocolVersion, Span,
    VisibilityReduction,
};
use cargo_hawk::scope::RequiredScope;

fn analyze<'a>(
    fragments: &'a [Fragment],
    excluded_crates: &Vec<String>,
) -> Vec<Finding<'a>> {
    analyze_with_tests(fragments, &[], &candidate_crates(), excluded_crates)
}

fn analyze_preserving_uniform_fields<'a>(fragments: &'a [Fragment]) -> Vec<Finding<'a>> {
    analyze_with_options(fragments, &[], &candidate_crates(), &Vec::new(), true)
}

fn candidate_crates() -> Vec<String> {
    vec!["lib".to_owned(), "test_support".to_owned()]
}

fn finding_summaries(findings: Vec<Finding<'_>>) -> Vec<(FindingKind, String, bool, bool)> {
    findings
        .into_iter()
        .map(|finding| {
            (
                finding.kind,
                finding.definition.name.clone(),
                finding.test_only,
                finding.test_compiled_only,
            )
        })
        .collect()
}

#[test]
fn finding_kind_determines_visibility_reduction() {
    assert_eq!(FindingKind::DeadPublic.visibility_reduction(), None);
    assert_eq!(
        FindingKind::UnnecessaryPublic.visibility_reduction(),
        Some(VisibilityReduction::Crate)
    );
    assert_eq!(
        FindingKind::UnnecessaryRestrictedVisibility.visibility_reduction(),
        Some(VisibilityReduction::Private)
    );
    assert_eq!(
        FindingKind::UnnecessaryCrateVisibility.visibility_reduction(),
        Some(VisibilityReduction::Super)
    );
}

#[test]
fn required_scope_merge_follows_its_lattice() {
    let mut scope = RequiredScope::Bottom;
    assert!(scope.merge(&RequiredScope::Known {
        crate_name: "lib".into(),
        module_scope: vec!["api".into(), "nested".into()],
    }));
    assert!(scope.merge(&RequiredScope::Known {
        crate_name: "lib".into(),
        module_scope: vec!["api".into(), "sibling".into()],
    }));
    assert_eq!(
        scope,
        RequiredScope::Known {
            crate_name: "lib".into(),
            module_scope: vec!["api".into()],
        }
    );
    assert!(scope.merge(&RequiredScope::Known {
        crate_name: "other".into(),
        module_scope: vec![],
    }));
    assert_eq!(scope, RequiredScope::Unknown);
    assert!(!scope.merge(&RequiredScope::Bottom));
    assert!(!scope.merge(&RequiredScope::Known {
        crate_name: "lib".into(),
        module_scope: vec![],
    }));
}

fn node(id: &str, crate_name: &str, public_api: bool) -> Definition {
    Definition {
        id: id.into(),
        crate_name: crate_name.into(),
        name: id.into(),
        kind: DefinitionKind::Function,
        span: None,
        public_api,
        restricted_visible_api: false,
        crate_visible_api: false,
        visible_reexport_api: false,
        module_scope: vec![],
        uniform_field_group: None,
        dead_code_allowed: false,
    }
}

fn typed_node(
    id: &str,
    crate_name: &str,
    public_api: bool,
    kind: DefinitionKind,
) -> Definition {
    let mut definition = node(id, crate_name, public_api);
    definition.kind = kind;
    definition
}

fn crate_visible_node(id: &str, module_scope: &[&str]) -> Definition {
    let mut definition = restricted_visible_node(id, module_scope);
    definition.crate_visible_api = true;
    definition
}

fn restricted_visible_node(id: &str, module_scope: &[&str]) -> Definition {
    let mut definition = node(id, "lib", false);
    definition.restricted_visible_api = true;
    definition.module_scope = module_scope.iter().map(|module| (*module).into()).collect();
    definition
}

fn scoped_node(id: &str, module_scope: &[&str]) -> Definition {
    let mut definition = node(id, "lib", false);
    definition.module_scope = module_scope.iter().map(|module| (*module).into()).collect();
    definition
}

fn field(mut definition: Definition) -> Definition {
    definition.kind = DefinitionKind::Field;
    definition
}

fn uniform_field(definition: Definition) -> Definition {
    uniform_field_at(definition, 1)
}

fn uniform_field_at(mut definition: Definition, line: usize) -> Definition {
    definition = field(definition);
    definition.uniform_field_group = Some(Span {
        file: "lib.rs".into(),
        line,
        column: 1,
    });
    definition
}

fn fragments(definitions: Vec<Definition>, edges: Vec<Edge>) -> Vec<Fragment> {
    vec![
        Fragment {
            protocol_version: ProtocolVersion,
            package_name: "app".into(),
            crate_name: "app".into(),
            crate_id: "app".into(),
            is_product_root: true,
            test_surface: false,
            definitions: vec![node("main", "app", false)],
            edges: vec![],
            roots: vec!["main".into()],
            conservative_roots: vec![],
            required_public_roots: vec![],
        },
        Fragment {
            protocol_version: ProtocolVersion,
            package_name: "lib".into(),
            crate_name: "lib".into(),
            crate_id: "lib".into(),
            is_product_root: false,
            test_surface: false,
            definitions,
            edges,
            roots: vec![],
            conservative_roots: vec![],
            required_public_roots: vec![],
        },
    ]
}

fn test_fragments(definitions: Vec<Definition>, edges: Vec<Edge>) -> Vec<Fragment> {
    vec![
        Fragment {
            protocol_version: ProtocolVersion,
            package_name: "integration_test".into(),
            crate_name: "integration_test".into(),
            crate_id: "integration_test".into(),
            is_product_root: true,
            test_surface: true,
            definitions: vec![node("test_main", "integration_test", false)],
            edges: vec![Edge {
                from: "test_main".into(),
                to: "test_entry".into(),
                kind: EdgeKind::Body,
            }],
            roots: vec!["test_main".into()],
            conservative_roots: vec![],
            required_public_roots: vec![],
        },
        Fragment {
            protocol_version: ProtocolVersion,
            package_name: "lib".into(),
            crate_name: "lib".into(),
            crate_id: "lib".into(),
            is_product_root: false,
            test_surface: false,
            definitions,
            edges,
            roots: vec![],
            conservative_roots: vec![],
            required_public_roots: vec![],
        },
    ]
}

#[test]
fn fragment_order_does_not_change_findings() {
    let mut production = fragments(
        vec![
            node("production_entry", "lib", true),
            node("production_helper", "lib", true),
            node("unused", "lib", true),
        ],
        vec![Edge {
            from: "production_entry".into(),
            to: "production_helper".into(),
            kind: EdgeKind::Body,
        }],
    );
    production[0].edges.push(Edge {
        from: "main".into(),
        to: "production_entry".into(),
        kind: EdgeKind::Body,
    });
    let mut test_entry = node("test_entry", "lib", true);
    test_entry.name = "production_entry".into();
    let mut test_helper = node("test_helper", "lib", true);
    test_helper.name = "production_helper".into();
    let mut tests = test_fragments(
        vec![test_entry, test_helper],
        vec![Edge {
            from: "test_entry".into(),
            to: "test_helper".into(),
            kind: EdgeKind::Body,
        }],
    );
    let expected = finding_summaries(analyze_with_tests(
        &production,
        &tests,
        &candidate_crates(),
        &Vec::new(),
    ));

    production.reverse();
    tests.reverse();
    let actual = finding_summaries(analyze_with_tests(
        &production,
        &tests,
        &candidate_crates(),
        &Vec::new(),
    ));

    assert_eq!(actual, expected);
}

#[test]
fn dead_public_chain_is_not_kept_alive_by_internal_references() {
    let input = fragments(
        vec![node("unused", "lib", true), node("helper", "lib", true)],
        vec![Edge {
            from: "unused".into(),
            to: "helper".into(),
            kind: EdgeKind::Body,
        }],
    );
    let findings = analyze(&input, &Vec::new());

    assert_eq!(findings.len(), 2);
    assert!(
        findings
            .iter()
            .all(|finding| finding.kind == FindingKind::DeadPublic)
    );
}

#[test]
fn excluding_a_crate_only_removes_its_own_findings() {
    let input = fragments(
        vec![
            node("unused", "lib", true),
            node("support_unused", "test_support", true),
            node("support_helper", "test_support", true),
        ],
        vec![Edge {
            from: "support_helper".into(),
            to: "unused".into(),
            kind: EdgeKind::Body,
        }],
    );
    let all = finding_summaries(analyze(&input, &Vec::new()));
    let without_support = finding_summaries(analyze(&input, &vec!["test_support".to_owned()]));

    assert_eq!(all.len(), 3);
    let kept: Vec<_> = all
        .iter()
        .filter(|(_, name, _, _)| !name.starts_with("support_"))
        .cloned()
        .collect();
    assert_eq!(without_support, kept);
    assert_eq!(without_support, vec![(FindingKind::DeadPublic, "unused".to_owned(), false, false)]);
}

#[test]
fn product_root_named_like_a_library_only_excludes_its_own_declarations() {
    let mut input = fragments(
        vec![node("entry", "lib", true), node("unused", "lib", true)],
        vec![],
    );
    input[0].crate_name = "lib".into();
    input[0].definitions[0].crate_name = "lib".into();
    input[0].edges.push(Edge {
        from: "main".into(),
        to: "entry".into(),
        kind: EdgeKind::Body,
    });

    let findings = analyze(&input, &Vec::new());

    assert_eq!(findings.len(), 1);
    assert_eq!(findings[0].kind, FindingKind::DeadPublic);
    assert_eq!(findings[0].definition.id, "unused");
}

#[test]
fn live_internal_public_helper_can_be_narrowed() {
    let mut input = fragments(
        vec![node("entry", "lib", true), node("helper", "lib", true)],
        vec![Edge {
            from: "entry".into(),
            to: "helper".into(),
            kind: EdgeKind::Body,
        }],
    );
    input[0].edges.push(Edge {
        from: "main".into(),
        to: "entry".into(),
        kind: EdgeKind::Body,
    });

    let findings = analyze(&input, &Vec::new());

    assert_eq!(findings.len(), 1);
    assert_eq!(findings[0].kind, FindingKind::UnnecessaryPublic);
    assert_eq!(findings[0].definition.id, "helper");
    assert!(!findings[0].test_only);
    assert!(!findings[0].test_compiled_only);
}

#[test]
fn uniform_public_field_visibility_is_preserved_when_enabled() {
    let mut input = fragments(
        vec![
            uniform_field(node("required", "lib", true)),
            uniform_field(node("internal", "lib", true)),
            node("entry", "lib", false),
        ],
        vec![Edge {
            from: "entry".into(),
            to: "internal".into(),
            kind: EdgeKind::Body,
        }],
    );
    input[0].edges.extend([
        Edge {
            from: "main".into(),
            to: "required".into(),
            kind: EdgeKind::Body,
        },
        Edge {
            from: "main".into(),
            to: "entry".into(),
            kind: EdgeKind::Body,
        },
    ]);

    let findings = analyze(&input, &Vec::new());
    assert_eq!(findings.len(), 1);
    assert_eq!(findings[0].definition.id, "internal");

    assert!(analyze_preserving_uniform_fields(&input).is_empty());
}

#[test]
fn uniform_field_visibility_does_not_suppress_dead_public() {
    let mut input = fragments(
        vec![
            uniform_field(node("required", "lib", true)),
            uniform_field(node("dead", "lib", true)),
        ],
        vec![],
    );
    input[0].edges.push(Edge {
        from: "main".into(),
        to: "required".into(),
        kind: EdgeKind::Body,
    });

    let findings = analyze_preserving_uniform_fields(&input);

    assert_eq!(findings.len(), 1);
    assert_eq!(findings[0].kind, FindingKind::DeadPublic);
    assert_eq!(findings[0].definition.id, "dead");
}

#[test]
fn fields_without_a_uniform_group_do_not_preserve_visibility() {
    let mut input = fragments(
        vec![
            field(node("required", "lib", true)),
            field(node("internal", "lib", true)),
            node("entry", "lib", false),
        ],
        vec![Edge {
            from: "entry".into(),
            to: "internal".into(),
            kind: EdgeKind::Body,
        }],
    );
    input[0].edges.extend([
        Edge {
            from: "main".into(),
            to: "required".into(),
            kind: EdgeKind::Body,
        },
        Edge {
            from: "main".into(),
            to: "entry".into(),
            kind: EdgeKind::Body,
        },
    ]);

    let findings = analyze_preserving_uniform_fields(&input);

    assert_eq!(findings.len(), 1);
    assert_eq!(findings[0].definition.id, "internal");
}

#[test]
fn test_requirement_preserves_uniform_production_field_visibility() {
    let mut production_input = fragments(
        vec![
            uniform_field(node("production_required", "lib", true)),
            uniform_field(node("internal", "lib", true)),
            node("entry", "lib", false),
        ],
        vec![Edge {
            from: "entry".into(),
            to: "internal".into(),
            kind: EdgeKind::Body,
        }],
    );
    production_input[0].edges.push(Edge {
        from: "main".into(),
        to: "entry".into(),
        kind: EdgeKind::Body,
    });
    let mut test_required = uniform_field(node("test_required", "lib", true));
    test_required.name = "production_required".into();
    let mut test_input = test_fragments(vec![test_required], vec![]);
    test_input[0].edges[0].to = "test_required".into();

    let findings = analyze_with_options(
        &production_input,
        &test_input,
        &candidate_crates(),
        &Vec::new(),
        true,
    );

    assert!(findings.is_empty());
}

#[test]
fn cfg_alternative_declarations_do_not_share_field_visibility_requirements() {
    let mut production_input = fragments(
        vec![uniform_field_at(
            node("production_required", "lib", true),
            1,
        )],
        vec![],
    );
    production_input[0].edges.push(Edge {
        from: "main".into(),
        to: "production_required".into(),
        kind: EdgeKind::Body,
    });
    let test_input = test_fragments(
        vec![
            node("test_entry", "lib", true),
            uniform_field_at(node("test_internal", "lib", true), 10),
        ],
        vec![Edge {
            from: "test_entry".into(),
            to: "test_internal".into(),
            kind: EdgeKind::Body,
        }],
    );

    let findings = analyze_with_options(
        &production_input,
        &test_input,
        &candidate_crates(),
        &Vec::new(),
        true,
    );

    assert_eq!(findings.len(), 1);
    assert_eq!(findings[0].definition.id, "test_internal");
}

#[test]
fn crate_visible_helper_used_within_its_module_can_be_private() {
    let input = fragments(
        vec![
            scoped_node("scoped::entry", &["scoped"]),
            crate_visible_node("scoped::helper", &["scoped"]),
        ],
        vec![Edge {
            from: "scoped::entry".into(),
            to: "scoped::helper".into(),
            kind: EdgeKind::Body,
        }],
    );

    let findings = analyze(&input, &Vec::new());

    assert_eq!(findings.len(), 1);
    assert_eq!(
        findings[0].kind,
        FindingKind::UnnecessaryRestrictedVisibility
    );
    assert_eq!(findings[0].definition.id, "scoped::helper");
}

#[test]
fn unused_restricted_item_can_be_private() {
    let input = fragments(
        vec![restricted_visible_node("scoped::unused", &["scoped"])],
        vec![],
    );

    let findings = analyze(&input, &Vec::new());

    assert_eq!(findings.len(), 1);
    assert_eq!(
        findings[0].kind,
        FindingKind::UnnecessaryRestrictedVisibility
    );
    assert_eq!(findings[0].definition.id, "scoped::unused");
}

#[test]
fn uniform_crate_visible_field_visibility_is_preserved_when_required() {
    let required = uniform_field(crate_visible_node(
        "scoped::nested::required",
        &["scoped", "nested"],
    ));
    let internal = uniform_field(crate_visible_node(
        "scoped::nested::internal",
        &["scoped", "nested"],
    ));
    let input = fragments(
        vec![
            required,
            internal,
            scoped_node("outside::entry", &["outside"]),
            scoped_node("scoped::nested::entry", &["scoped", "nested"]),
        ],
        vec![
            Edge {
                from: "outside::entry".into(),
                to: "scoped::nested::required".into(),
                kind: EdgeKind::Body,
            },
            Edge {
                from: "scoped::nested::entry".into(),
                to: "scoped::nested::internal".into(),
                kind: EdgeKind::Body,
            },
        ],
    );

    let findings = analyze(&input, &Vec::new());
    assert_eq!(findings.len(), 1);
    assert_eq!(findings[0].definition.id, "scoped::nested::internal");

    assert!(analyze_preserving_uniform_fields(&input).is_empty());
}

#[test]
fn uniform_restricted_field_visibility_is_preserved_when_required() {
    let required = uniform_field(restricted_visible_node(
        "scoped::nested::required",
        &["scoped", "nested"],
    ));
    let internal = uniform_field(restricted_visible_node(
        "scoped::nested::internal",
        &["scoped", "nested"],
    ));
    let input = fragments(
        vec![
            required,
            internal,
            scoped_node("scoped::sibling::entry", &["scoped", "sibling"]),
            scoped_node("scoped::nested::entry", &["scoped", "nested"]),
        ],
        vec![
            Edge {
                from: "scoped::sibling::entry".into(),
                to: "scoped::nested::required".into(),
                kind: EdgeKind::Body,
            },
            Edge {
                from: "scoped::nested::entry".into(),
                to: "scoped::nested::internal".into(),
                kind: EdgeKind::Body,
            },
        ],
    );

    assert!(analyze_preserving_uniform_fields(&input).is_empty());
}

#[test]
fn reducible_sibling_does_not_preserve_uniform_field_visibility() {
    let parent_visible = uniform_field(crate_visible_node(
        "scoped::nested::parent_visible",
        &["scoped", "nested"],
    ));
    let private = uniform_field(crate_visible_node(
        "scoped::nested::private",
        &["scoped", "nested"],
    ));
    let input = fragments(
        vec![
            parent_visible,
            private,
            scoped_node("scoped::sibling::entry", &["scoped", "sibling"]),
            scoped_node("scoped::nested::entry", &["scoped", "nested"]),
        ],
        vec![
            Edge {
                from: "scoped::sibling::entry".into(),
                to: "scoped::nested::parent_visible".into(),
                kind: EdgeKind::Body,
            },
            Edge {
                from: "scoped::nested::entry".into(),
                to: "scoped::nested::private".into(),
                kind: EdgeKind::Body,
            },
        ],
    );

    let findings = analyze_preserving_uniform_fields(&input);

    assert_eq!(findings.len(), 2);
    assert!(
        findings
            .iter()
            .any(|finding| finding.kind == FindingKind::UnnecessaryCrateVisibility)
    );
    assert!(
        findings
            .iter()
            .any(|finding| finding.kind == FindingKind::UnnecessaryRestrictedVisibility)
    );
}

#[test]
fn parent_visible_helper_used_within_its_module_can_be_private() {
    let input = fragments(
        vec![
            scoped_node("scoped::entry", &["scoped"]),
            restricted_visible_node("scoped::helper", &["scoped"]),
        ],
        vec![Edge {
            from: "scoped::entry".into(),
            to: "scoped::helper".into(),
            kind: EdgeKind::Body,
        }],
    );

    let findings = analyze(&input, &Vec::new());

    assert_eq!(findings.len(), 1);
    assert_eq!(
        findings[0].kind,
        FindingKind::UnnecessaryRestrictedVisibility
    );
    assert_eq!(findings[0].definition.id, "scoped::helper");
}

#[test]
fn crate_visible_helper_used_by_a_sibling_can_be_visible_to_its_parent() {
    let input = fragments(
        vec![
            scoped_node("scoped::sibling::entry", &["scoped", "sibling"]),
            crate_visible_node("scoped::nested::helper", &["scoped", "nested"]),
        ],
        vec![Edge {
            from: "scoped::sibling::entry".into(),
            to: "scoped::nested::helper".into(),
            kind: EdgeKind::Body,
        }],
    );

    let findings = analyze(&input, &Vec::new());

    assert_eq!(findings.len(), 1);
    assert_eq!(findings[0].kind, FindingKind::UnnecessaryCrateVisibility);
    assert_eq!(findings[0].definition.id, "scoped::nested::helper");
}

#[test]
fn crate_visible_helper_used_outside_its_parent_is_not_reported() {
    let input = fragments(
        vec![
            scoped_node("outside::entry", &["outside"]),
            crate_visible_node("scoped::nested::helper", &["scoped", "nested"]),
        ],
        vec![Edge {
            from: "outside::entry".into(),
            to: "scoped::nested::helper".into(),
            kind: EdgeKind::Body,
        }],
    );

    assert!(analyze(&input, &Vec::new()).is_empty());
}

#[test]
fn crate_visible_module_accounts_for_uses_of_its_descendants() {
    let mut module = crate_visible_node("scoped::nested", &["scoped"]);
    module.kind = DefinitionKind::Module;
    let mut descendant = node("scoped::nested::helper", "lib", false);
    descendant.module_scope = vec!["scoped".into(), "nested".into()];
    let input = fragments(
        vec![node("entry", "lib", false), module, descendant],
        vec![
            Edge {
                from: "entry".into(),
                to: "scoped::nested::helper".into(),
                kind: EdgeKind::Body,
            },
            Edge {
                from: "scoped::nested::helper".into(),
                to: "scoped::nested".into(),
                kind: EdgeKind::VisibilityParent,
            },
        ],
    );

    let findings = analyze(&input, &Vec::new());

    assert_eq!(findings.len(), 1);
    assert_eq!(findings[0].kind, FindingKind::UnnecessaryCrateVisibility);
    assert_eq!(findings[0].definition.id, "scoped::nested");
}

#[test]
fn crate_visible_enum_accounts_for_uses_of_its_variants() {
    let mut enumeration =
        crate_visible_node("scoped::nested::ErrorKind", &["scoped", "nested"]);
    enumeration.kind = DefinitionKind::Enum;
    let mut variant = typed_node(
        "scoped::nested::ErrorKind::UnexpectedEnd",
        "lib",
        false,
        DefinitionKind::EnumVariant,
    );
    variant.module_scope = vec!["scoped".into(), "nested".into()];
    let input = fragments(
        vec![
            scoped_node("scoped::sibling::entry", &["scoped", "sibling"]),
            enumeration,
            variant,
        ],
        vec![
            Edge {
                from: "scoped::sibling::entry".into(),
                to: "scoped::nested::ErrorKind::UnexpectedEnd".into(),
                kind: EdgeKind::Body,
            },
            Edge {
                from: "scoped::nested::ErrorKind::UnexpectedEnd".into(),
                to: "scoped::nested::ErrorKind".into(),
                kind: EdgeKind::Interface,
            },
        ],
    );

    let findings = analyze(&input, &Vec::new());

    assert_eq!(findings.len(), 1);
    assert_eq!(findings[0].kind, FindingKind::UnnecessaryCrateVisibility);
    assert_eq!(findings[0].definition.id, "scoped::nested::ErrorKind");
}

#[test]
fn crate_visible_type_accounts_for_consumers_of_its_interface() {
    let function = crate_visible_node("scoped::nested::read", &["scoped", "nested"]);
    let mut error = crate_visible_node("scoped::nested::Error", &["scoped", "nested"]);
    error.kind = DefinitionKind::Enum;
    let input = fragments(
        vec![
            scoped_node("scoped::sibling::entry", &["scoped", "sibling"]),
            function,
            error,
        ],
        vec![
            Edge {
                from: "scoped::sibling::entry".into(),
                to: "scoped::nested::read".into(),
                kind: EdgeKind::Body,
            },
            Edge {
                from: "scoped::nested::read".into(),
                to: "scoped::nested::Error".into(),
                kind: EdgeKind::Interface,
            },
        ],
    );

    let findings = analyze(&input, &Vec::new());

    assert_eq!(findings.len(), 2);
    assert!(
        findings
            .iter()
            .all(|finding| finding.kind == FindingKind::UnnecessaryCrateVisibility)
    );
}

#[test]
fn crate_visible_reexport_target_is_not_narrowed() {
    let mut reexport = crate_visible_node("scoped::TargetExport", &["scoped"]);
    reexport.kind = DefinitionKind::Reexport;
    let input = fragments(
        vec![reexport, crate_visible_node("scoped::Target", &["scoped"])],
        vec![Edge {
            from: "scoped::TargetExport".into(),
            to: "scoped::Target".into(),
            kind: EdgeKind::Reexport,
        }],
    );

    assert!(analyze(&input, &Vec::new()).is_empty());
}

#[test]
fn namespace_containing_visible_reexport_is_not_narrowed() {
    let mut namespace = restricted_visible_node("wrapper::api", &["wrapper"]);
    namespace.kind = DefinitionKind::Module;
    let mut reexport = node("wrapper::api::f", "lib", false);
    reexport.kind = DefinitionKind::Reexport;
    reexport.visible_reexport_api = true;
    reexport.module_scope = vec!["wrapper".into(), "api".into()];
    let input = fragments(
        vec![
            namespace,
            reexport,
            node("sibling::call", "lib", false),
            node("target::f", "lib", false),
        ],
        vec![
            Edge {
                from: "wrapper::api::f".into(),
                to: "target::f".into(),
                kind: EdgeKind::Reexport,
            },
            Edge {
                from: "wrapper::api::f".into(),
                to: "wrapper::api".into(),
                kind: EdgeKind::VisibilityParent,
            },
            Edge {
                from: "sibling::call".into(),
                to: "target::f".into(),
                kind: EdgeKind::Body,
            },
        ],
    );

    assert!(analyze(&input, &Vec::new()).is_empty());
}

#[test]
fn integration_test_api_is_public_while_its_helper_can_be_narrowed() {
    let input = fragments(
        vec![node("entry", "lib", true), node("helper", "lib", true)],
        vec![Edge {
            from: "entry".into(),
            to: "helper".into(),
            kind: EdgeKind::Body,
        }],
    );
    let mut test_entry = node("test_entry", "lib", true);
    test_entry.name = "entry".into();
    let mut test_helper = node("test_helper", "lib", true);
    test_helper.name = "helper".into();
    let test_input = test_fragments(
        vec![test_entry, test_helper],
        vec![Edge {
            from: "test_entry".into(),
            to: "test_helper".into(),
            kind: EdgeKind::Body,
        }],
    );

    let findings =
        analyze_with_tests(&input, &test_input, &candidate_crates(), &Vec::new());

    assert_eq!(findings.len(), 1);
    assert_eq!(findings[0].kind, FindingKind::UnnecessaryPublic);
    assert_eq!(findings[0].definition.id, "helper");
    assert!(findings[0].test_only);
    assert!(!findings[0].test_compiled_only);
}

#[test]
fn production_reachability_does_not_follow_test_only_edges() {
    let mut production_input = fragments(
        vec![
            node("production_entry", "lib", true),
            node("production_helper", "lib", true),
        ],
        vec![],
    );
    production_input[0].edges.push(Edge {
        from: "main".into(),
        to: "production_entry".into(),
        kind: EdgeKind::Body,
    });

    let mut test_entry = node("test_entry", "lib", true);
    test_entry.name = "production_entry".into();
    let mut test_helper = node("test_helper", "lib", true);
    test_helper.name = "production_helper".into();
    let test_input = test_fragments(
        vec![test_entry, test_helper],
        vec![Edge {
            from: "test_entry".into(),
            to: "test_helper".into(),
            kind: EdgeKind::Body,
        }],
    );

    let findings = analyze_with_tests(
        &production_input,
        &test_input,
        &candidate_crates(),
        &Vec::new(),
    );

    assert_eq!(findings.len(), 1);
    assert_eq!(findings[0].kind, FindingKind::UnnecessaryPublic);
    assert_eq!(findings[0].definition.id, "production_helper");
    assert!(findings[0].test_only);
    assert!(!findings[0].test_compiled_only);
}

#[test]
fn public_surface_compiled_only_for_tests_is_analyzed() {
    let production_input = fragments(vec![], vec![]);
    let mut test_input = test_fragments(
        vec![
            node("test_entry", "test_support", true),
            node("test_helper", "test_support", true),
        ],
        vec![Edge {
            from: "test_entry".into(),
            to: "test_helper".into(),
            kind: EdgeKind::Body,
        }],
    );
    test_input[1].crate_name = "test_support".into();

    let findings = analyze_with_tests(
        &production_input,
        &test_input,
        &candidate_crates(),
        &Vec::new(),
    );

    assert_eq!(findings.len(), 1);
    assert_eq!(findings[0].kind, FindingKind::UnnecessaryPublic);
    assert_eq!(findings[0].definition.id, "test_helper");
    assert!(findings[0].test_only);
    assert!(findings[0].test_compiled_only);
}

#[test]
fn dead_public_surface_compiled_only_for_tests_is_reported() {
    let production_input = fragments(vec![], vec![]);
    let mut test_input = test_fragments(vec![node("unused", "test_support", true)], vec![]);
    test_input[1].crate_name = "test_support".into();

    let findings = analyze_with_tests(
        &production_input,
        &test_input,
        &candidate_crates(),
        &Vec::new(),
    );

    assert_eq!(findings.len(), 1);
    assert_eq!(findings[0].kind, FindingKind::DeadPublic);
    assert_eq!(findings[0].definition.id, "unused");
    assert!(!findings[0].test_only);
    assert!(findings[0].test_compiled_only);
}

#[test]
fn public_declarations_in_test_binary_targets_are_not_candidates() {
    let production_input = fragments(vec![], vec![]);
    let mut test_input = test_fragments(vec![], vec![]);
    test_input[0]
        .definitions
        .push(node("public_test_helper", "integration_test", true));

    assert!(
        analyze_with_tests(
            &production_input,
            &test_input,
            &candidate_crates(),
            &Vec::new(),
        )
        .is_empty()
    );
}

#[test]
fn crate_visible_declarations_in_test_binary_targets_named_like_library_are_not_candidates() {
    let production_input = fragments(vec![], vec![]);
    let mut test_input = test_fragments(vec![], vec![]);
    test_input[0].crate_name = "lib".into();
    test_input[0].test_surface = false;
    test_input[0].definitions[0].crate_name = "lib".into();
    test_input[0]
        .definitions
        .push(crate_visible_node("resolver::resolve", &["resolver"]));
    test_input[0].edges.push(Edge {
        from: "test_main".into(),
        to: "resolver::resolve".into(),
        kind: EdgeKind::Body,
    });

    assert!(
        analyze_with_tests(
            &production_input,
            &test_input,
            &candidate_crates(),
            &Vec::new(),
        )
        .is_empty()
    );
}

#[test]
fn test_harness_does_not_expand_existing_production_candidate_surface() {
    let production_input = fragments(vec![node("production_hidden", "lib", false)], vec![]);
    let mut test_hidden = node("test_hidden", "lib", true);
    test_hidden.name = "production_hidden".into();
    let test_input = test_fragments(vec![test_hidden], vec![]);

    assert!(
        analyze_with_tests(
            &production_input,
            &test_input,
            &candidate_crates(),
            &Vec::new(),
        )
        .is_empty()
    );
}

#[test]
fn public_entry_needed_across_crates_is_clean() {
    let mut input = fragments(vec![node("entry", "lib", true)], vec![]);
    input[0].edges.push(Edge {
        from: "main".into(),
        to: "entry".into(),
        kind: EdgeKind::Body,
    });

    assert!(analyze(&input, &Vec::new()).is_empty());
}

#[test]
fn cross_crate_variant_use_requires_its_parent_enum_to_remain_public() {
    let mut input = fragments(
        vec![
            typed_node("api_enum", "lib", true, DefinitionKind::Enum),
            typed_node("api_enum::used", "lib", true, DefinitionKind::EnumVariant),
        ],
        vec![Edge {
            from: "api_enum::used".into(),
            to: "api_enum".into(),
            kind: EdgeKind::Interface,
        }],
    );
    input[0].edges.push(Edge {
        from: "main".into(),
        to: "api_enum::used".into(),
        kind: EdgeKind::Body,
    });

    assert!(analyze(&input, &Vec::new()).is_empty());
}

#[test]
fn internally_used_variant_of_required_public_enum_is_not_reported() {
    let mut input = fragments(
        vec![
            typed_node("entry", "lib", true, DefinitionKind::Function),
            typed_node("api_enum", "lib", true, DefinitionKind::Enum),
            typed_node(
                "api_enum::internal",
                "lib",
                true,
                DefinitionKind::EnumVariant,
            ),
        ],
        vec![
            Edge {
                from: "entry".into(),
                to: "api_enum".into(),
                kind: EdgeKind::Interface,
            },
            Edge {
                from: "entry".into(),
                to: "api_enum::internal".into(),
                kind: EdgeKind::Body,
            },
        ],
    );
    input[0].edges.push(Edge {
        from: "main".into(),
        to: "entry".into(),
        kind: EdgeKind::Body,
    });

    assert!(analyze(&input, &Vec::new()).is_empty());
}

#[test]
fn cross_crate_field_use_requires_its_public_payload_type_to_remain_public() {
    let mut input = fragments(
        vec![
            typed_node("api_field", "lib", true, DefinitionKind::Field),
            typed_node("payload", "lib", true, DefinitionKind::Struct),
        ],
        vec![Edge {
            from: "api_field".into(),
            to: "payload".into(),
            kind: EdgeKind::Interface,
        }],
    );
    input[0].edges.push(Edge {
        from: "main".into(),
        to: "api_field".into(),
        kind: EdgeKind::Body,
    });

    assert!(analyze(&input, &Vec::new()).is_empty());
}

#[test]
fn cross_crate_generated_field_use_preserves_its_source_field_visibility() {
    let mut input = fragments(
        vec![
            typed_node("source_field", "lib", true, DefinitionKind::Field),
            typed_node("generated_field", "lib", false, DefinitionKind::Field),
        ],
        vec![Edge {
            from: "generated_field".into(),
            to: "source_field".into(),
            kind: EdgeKind::VisibilityRequirement,
        }],
    );
    input[0].edges.push(Edge {
        from: "main".into(),
        to: "generated_field".into(),
        kind: EdgeKind::Body,
    });

    assert!(analyze(&input, &Vec::new()).is_empty());
}

#[test]
fn internal_generated_field_use_does_not_make_its_source_field_live() {
    let mut input = fragments(
        vec![
            typed_node("entry", "lib", true, DefinitionKind::Function),
            typed_node("source_field", "lib", true, DefinitionKind::Field),
            typed_node("generated_field", "lib", false, DefinitionKind::Field),
        ],
        vec![
            Edge {
                from: "entry".into(),
                to: "generated_field".into(),
                kind: EdgeKind::Body,
            },
            Edge {
                from: "generated_field".into(),
                to: "source_field".into(),
                kind: EdgeKind::VisibilityRequirement,
            },
        ],
    );
    input[0].edges.push(Edge {
        from: "main".into(),
        to: "entry".into(),
        kind: EdgeKind::Body,
    });

    let findings = analyze(&input, &Vec::new());

    assert_eq!(findings.len(), 1);
    assert_eq!(findings[0].kind, FindingKind::DeadPublic);
    assert_eq!(findings[0].definition.id, "source_field");
}

#[test]
fn typechecked_cross_crate_reference_requires_public_visibility() {
    let mut input = fragments(vec![node("entry", "lib", true)], vec![]);
    input[0]
        .definitions
        .push(node("unreachable_helper", "app", false));
    input[0].edges.push(Edge {
        from: "unreachable_helper".into(),
        to: "entry".into(),
        kind: EdgeKind::Body,
    });

    assert!(analyze(&input, &Vec::new()).is_empty());
}

#[test]
fn duplicate_compilation_units_share_liveness() {
    let mut input = fragments(
        vec![
            node("duplicate_a", "lib", true),
            node("duplicate_b", "lib", true),
        ],
        vec![],
    );
    input[1].definitions[0].name = "duplicate".into();
    input[1].definitions[1].name = "duplicate".into();
    let duplicate = input[1].definitions.pop().unwrap();
    input.push(Fragment {
        protocol_version: ProtocolVersion,
        package_name: "lib".into(),
        crate_name: "lib".into(),
        crate_id: "lib-test".into(),
        is_product_root: false,
        test_surface: false,
        definitions: vec![duplicate],
        edges: vec![],
        roots: vec![],
        conservative_roots: vec![],
        required_public_roots: vec![],
    });
    input[0].edges.push(Edge {
        from: "main".into(),
        to: "duplicate_b".into(),
        kind: EdgeKind::Body,
    });

    assert!(analyze(&input, &Vec::new()).is_empty());
}

#[test]
fn same_span_declarations_in_one_compilation_unit_do_not_share_liveness() {
    let mut input = fragments(
        vec![node("first", "lib", true), node("second", "lib", true)],
        vec![],
    );
    for definition in &mut input[1].definitions {
        definition.span = Some(Span {
            file: "shared.rs".into(),
            line: 1,
            column: 1,
        });
    }
    input[0].edges.push(Edge {
        from: "main".into(),
        to: "first".into(),
        kind: EdgeKind::Body,
    });

    let findings = analyze(&input, &Vec::new());

    assert_eq!(findings.len(), 1);
    assert_eq!(findings[0].definition.id, "second");
    assert_eq!(findings[0].kind, FindingKind::DeadPublic);
}

#[test]
fn unreachable_public_reference_does_not_keep_a_helper_alive() {
    let input = fragments(
        vec![
            node("debug_entry", "lib", true),
            node("helper", "lib", true),
        ],
        vec![Edge {
            from: "debug_entry".into(),
            to: "helper".into(),
            kind: EdgeKind::Body,
        }],
    );
    let findings = analyze(&input, &Vec::new());

    assert_eq!(findings.len(), 2);
    assert!(
        findings
            .iter()
            .all(|finding| finding.kind == FindingKind::DeadPublic)
    );
}

#[test]
fn dead_code_allow_suppresses_an_entry_but_preserves_its_body() {
    let mut allowed_entry = node("allowed_entry", "lib", true);
    allowed_entry.dead_code_allowed = true;
    let mut input = fragments(
        vec![allowed_entry, node("helper", "lib", true)],
        vec![Edge {
            from: "allowed_entry".into(),
            to: "helper".into(),
            kind: EdgeKind::Body,
        }],
    );
    input[1].conservative_roots.push("allowed_entry".into());

    let findings = analyze(&input, &Vec::new());

    assert_eq!(findings.len(), 1);
    assert_eq!(findings[0].definition.id, "helper");
    assert_eq!(findings[0].kind, FindingKind::UnnecessaryPublic);
}

#[test]
fn public_signature_type_of_a_cross_crate_entry_stays_public() {
    let mut input = fragments(
        vec![
            node("factory", "lib", true),
            node("return_type", "lib", true),
        ],
        vec![Edge {
            from: "factory".into(),
            to: "return_type".into(),
            kind: EdgeKind::Interface,
        }],
    );
    input[0].edges.push(Edge {
        from: "main".into(),
        to: "factory".into(),
        kind: EdgeKind::Body,
    });

    assert!(analyze(&input, &Vec::new()).is_empty());
}

#[test]
fn trait_interface_type_required_by_rust_visibility_is_clean() {
    let mut input = fragments(vec![node("options", "lib", true)], vec![]);
    input[1].required_public_roots.push("options".into());

    assert!(analyze(&input, &Vec::new()).is_empty());
}

#[test]
fn public_reexport_target_required_by_rust_visibility_is_clean() {
    let mut input = fragments(vec![node("reexported", "lib", true)], vec![]);
    input[1].required_public_roots.push("reexported".into());

    assert!(analyze(&input, &Vec::new()).is_empty());
}

#[test]
fn dead_public_reexport_is_reported_without_narrowing_its_target() {
    let mut input = fragments(
        vec![
            typed_node("alias", "lib", true, DefinitionKind::Reexport),
            node("target", "lib", true),
        ],
        vec![Edge {
            from: "alias".into(),
            to: "target".into(),
            kind: EdgeKind::Reexport,
        }],
    );
    input[1].required_public_roots.push("target".into());

    let findings = analyze(&input, &Vec::new());

    assert_eq!(findings.len(), 1);
    assert_eq!(findings[0].kind, FindingKind::DeadPublic);
    assert_eq!(findings[0].definition.id, "alias");
}

#[test]
fn locally_used_public_reexport_can_be_narrowed() {
    let mut input = fragments(
        vec![
            typed_node("alias", "lib", true, DefinitionKind::Reexport),
            node("entry", "lib", true),
            node("target", "lib", true),
        ],
        vec![
            Edge {
                from: "alias".into(),
                to: "target".into(),
                kind: EdgeKind::Reexport,
            },
            Edge {
                from: "entry".into(),
                to: "target".into(),
                kind: EdgeKind::Body,
            },
        ],
    );
    input[0].edges.push(Edge {
        from: "main".into(),
        to: "entry".into(),
        kind: EdgeKind::Body,
    });
    input[1].required_public_roots.push("target".into());

    let findings = analyze(&input, &Vec::new());

    assert_eq!(findings.len(), 1);
    assert_eq!(findings[0].kind, FindingKind::UnnecessaryPublic);
    assert_eq!(findings[0].definition.id, "alias");
}

#[test]
fn possible_cross_crate_consumer_preserves_public_reexport() {
    let mut input = fragments(
        vec![
            typed_node("alias", "lib", true, DefinitionKind::Reexport),
            node("target", "lib", true),
        ],
        vec![Edge {
            from: "alias".into(),
            to: "target".into(),
            kind: EdgeKind::Reexport,
        }],
    );
    input[0].edges.push(Edge {
        from: "main".into(),
        to: "target".into(),
        kind: EdgeKind::Body,
    });
    input[1].required_public_roots.push("target".into());

    assert!(analyze(&input, &Vec::new()).is_empty());
}

#[test]
fn internally_used_public_module_can_be_narrowed() {
    let mut input = fragments(
        vec![
            typed_node("namespace", "lib", true, DefinitionKind::Module),
            node("entry", "lib", true),
            node("child", "lib", false),
        ],
        vec![
            Edge {
                from: "entry".into(),
                to: "child".into(),
                kind: EdgeKind::Body,
            },
            Edge {
                from: "child".into(),
                to: "namespace".into(),
                kind: EdgeKind::VisibilityParent,
            },
        ],
    );
    input[0].edges.push(Edge {
        from: "main".into(),
        to: "entry".into(),
        kind: EdgeKind::Body,
    });

    let findings = analyze(&input, &Vec::new());

    assert_eq!(findings.len(), 1);
    assert_eq!(findings[0].kind, FindingKind::UnnecessaryPublic);
    assert_eq!(findings[0].definition.id, "namespace");
}

#[test]
fn cross_crate_descendant_preserves_public_module_path() {
    let mut input = fragments(
        vec![
            typed_node("namespace", "lib", true, DefinitionKind::Module),
            node("child", "lib", true),
        ],
        vec![Edge {
            from: "child".into(),
            to: "namespace".into(),
            kind: EdgeKind::VisibilityParent,
        }],
    );
    input[0].edges.push(Edge {
        from: "main".into(),
        to: "child".into(),
        kind: EdgeKind::Body,
    });

    assert!(analyze(&input, &Vec::new()).is_empty());
}

#[test]
fn live_trait_item_keeps_containing_trait_live() {
    let mut input = fragments(
        vec![node("extension_trait", "lib", true)],
        vec![Edge {
            from: "extension_method".into(),
            to: "extension_trait".into(),
            kind: EdgeKind::Interface,
        }],
    );
    input[1]
        .definitions
        .push(node("extension_method", "lib", false));
    input[1].conservative_roots.push("extension_method".into());

    let findings = analyze(&input, &Vec::new());

    assert_eq!(findings.len(), 1);
    assert_eq!(findings[0].kind, FindingKind::UnnecessaryPublic);
    assert_eq!(findings[0].definition.id, "extension_trait");
}
