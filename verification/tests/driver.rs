//! Behaviour of the compiler wrapper's decisions.

use std::cell::Cell;

use cargo_hawk::driver::{
    agreed_fixes, compact_visibility_modifier, compiler_arguments, is_protocol_version_query, is_wrapper_invocation,
    normalize_source_path, parse_collection_options, planned_fix, source_item_at_or_after,
    type_alias_interface_targets, uniform_field_group, CollectionOptionsError, FixPlanIndex,
};
use cargo_hawk::model::{
    CollectionOptions, DefinitionIdentity, DefinitionKind, Edge, EdgeKind, FindingKind, FixPlan, FixTarget,
    ProtocolVersion, Span, VisibilityReduction,
};
use cargo_hawk::protocol::{validate_frontend_protocol_version, ProtocolError, VERSION_ARGUMENT};

#[test]
fn rejects_mismatched_frontend_protocol() {
    let error = validate_frontend_protocol_version("1").expect_err("mismatched frontend protocol should fail");

    assert_eq!(
        error.message(),
        "Hawk frontend uses compiler driver protocol 1, but this driver uses protocol 2; install `cargo-hawk` and `cargo-hawk-driver` from the same release"
    );
}

#[test]
fn frontend_protocol_version_must_be_a_number() {
    assert_eq!(validate_frontend_protocol_version("2"), Ok(()));
    assert_eq!(validate_frontend_protocol_version("+2"), Ok(()));
    assert_eq!(validate_frontend_protocol_version("two"), Err(ProtocolError::Invalid));
    assert_eq!(validate_frontend_protocol_version(""), Err(ProtocolError::Invalid));
    assert_eq!(validate_frontend_protocol_version("4294967296"), Err(ProtocolError::Invalid));
    assert_eq!(
        validate_frontend_protocol_version("4294967295"),
        Err(ProtocolError::Mismatch { version: 4294967295 })
    );
    assert_eq!(
        ProtocolError::Invalid.message(),
        "Hawk frontend provided an invalid compiler driver protocol version"
    );
}

#[test]
fn collection_options_are_validated() {
    assert_eq!(
        parse_collection_options(None).expect("default collection options"),
        CollectionOptions::default()
    );
    assert!(parse_collection_options(Some(CollectionOptions::new(true).as_env_value()))
        .expect("uniform field collection option")
        .preserve_uniform_field_visibility());
    assert_eq!(
        parse_collection_options(Some("unknown"))
            .expect_err("unknown collection option")
            .message(),
        "unsupported HAWK_COLLECTION_OPTIONS value `unknown`"
    );
}

#[test]
fn collection_options_round_trip_through_the_environment() {
    for preserve in [false, true] {
        let options = CollectionOptions::new(preserve);
        assert_eq!(CollectionOptions::from_env_value(Some(options.as_env_value())), Some(options));
    }
    assert_eq!(CollectionOptions::from_env_value(None), Some(CollectionOptions::new(false)));
    assert_eq!(CollectionOptions::from_env_value(Some("")), None);
    assert_eq!(
        CollectionOptionsError::NotUtf8.message(),
        "HAWK_COLLECTION_OPTIONS must be valid UTF-8"
    );
}

#[test]
fn uniform_field_collection_is_lazy() {
    let parse_count = Cell::new(0);
    let group_count = Cell::new(0);
    let collect = |options| {
        uniform_field_group(
            options,
            || {
                parse_count.set(parse_count.get() + 1);
                true
            },
            || {
                group_count.set(group_count.get() + 1);
                Some("group")
            },
        )
    };

    assert_eq!(collect(CollectionOptions::default()), None);
    assert_eq!(parse_count.get(), 0);
    assert_eq!(group_count.get(), 0);

    assert_eq!(collect(CollectionOptions::new(true)), Some("group"));
    assert_eq!(parse_count.get(), 1);
    assert_eq!(group_count.get(), 1);
}

#[test]
fn mixed_field_visibility_has_no_uniform_group() {
    let group_count = Cell::new(0);
    let group = uniform_field_group(
        CollectionOptions::new(true),
        || false,
        || {
            group_count.set(group_count.get() + 1);
            Some("group")
        },
    );
    assert_eq!(group, None);
    assert_eq!(group_count.get(), 0);
}

#[test]
fn source_item_lookup_stays_within_the_matching_file() {
    let items = [(10, 20, "first"), (10, 40, "second"), (50, 60, "third")];

    assert_eq!(source_item_at_or_after(&items, 10, 1), Some(&"first"));
    assert_eq!(source_item_at_or_after(&items, 10, 20), Some(&"first"));
    assert_eq!(source_item_at_or_after(&items, 10, 21), Some(&"second"));
    assert_eq!(source_item_at_or_after(&items, 10, 41), None);
    assert_eq!(source_item_at_or_after(&items, 20, 1), None);
    assert_eq!(source_item_at_or_after(&items, 50, 60), Some(&"third"));
    assert_eq!(source_item_at_or_after(&items, 50, 61), None);
}

#[test]
fn interface_target_index_only_contains_type_alias_sources() {
    let edges = [
        Edge {
            from: "alias".into(),
            to: "target".into(),
            kind: EdgeKind::Interface,
        },
        Edge {
            from: "function".into(),
            to: "argument".into(),
            kind: EdgeKind::Interface,
        },
        Edge {
            from: "alias".into(),
            to: "body_target".into(),
            kind: EdgeKind::Body,
        },
    ];

    let targets = type_alias_interface_targets(&edges, &["alias"]);
    assert_eq!(targets.len(), 1);
    assert_eq!(targets.get("alias"), Some(&vec!["target"]));
    assert!(type_alias_interface_targets(&edges, &[]).is_empty());
}

#[test]
fn interface_targets_keep_edge_order_per_alias() {
    let edges = [
        Edge { from: "b".into(), to: "x".into(), kind: EdgeKind::Interface },
        Edge { from: "a".into(), to: "y".into(), kind: EdgeKind::Interface },
        Edge { from: "b".into(), to: "z".into(), kind: EdgeKind::Interface },
    ];
    let targets = type_alias_interface_targets(&edges, &["a", "b"]);
    assert_eq!(targets.len(), 2);
    assert_eq!(targets.get("b"), Some(&vec!["x", "z"]));
    assert_eq!(targets.get("a"), Some(&vec!["y"]));
    assert_eq!(targets.get("c"), None);
}

#[test]
fn visibility_modifier_compaction_ignores_whitespace_and_comments() {
    assert_eq!(
        compact_visibility_modifier("pub /* outer /* nested */ comment */ ( crate )"),
        Some("pub(crate)".into())
    );
    assert_eq!(
        compact_visibility_modifier("pub // comment\n ( super )"),
        Some("pub(super)".into())
    );
    assert_eq!(compact_visibility_modifier("pub /*"), None);
}

#[test]
fn source_paths_are_lexically_normalized() {
    assert_eq!(
        normalize_source_path("library/tests/../src/shared.rs"),
        "library/src/shared.rs"
    );
    assert_eq!(normalize_source_path("../shared.rs"), "../shared.rs");
}

#[test]
fn rooted_paths_do_not_climb_above_the_root() {
    assert_eq!(normalize_source_path("/../a//./b/"), "/a/b");
    assert_eq!(normalize_source_path("a/../../b"), "../b");
    assert_eq!(normalize_source_path("./"), "");
    assert_eq!(normalize_source_path("/"), "/");
}

#[test]
fn protocol_version_queries_are_recognized() {
    let query = vec!["driver".to_owned(), VERSION_ARGUMENT.to_owned()];
    assert!(is_protocol_version_query(&query));
    let longer = vec!["driver".to_owned(), VERSION_ARGUMENT.to_owned(), "x".to_owned()];
    assert!(!is_protocol_version_query(&longer));
    assert!(!is_protocol_version_query(&vec!["driver".to_owned()]));
}

#[test]
fn wrapper_invocations_need_both_variables_and_a_compiler() {
    let args = vec!["driver".to_owned(), "rustc".to_owned()];
    assert!(is_wrapper_invocation(true, true, &args));
    assert!(!is_wrapper_invocation(true, false, &args));
    assert!(!is_wrapper_invocation(false, true, &args));
    assert!(!is_wrapper_invocation(true, true, &vec!["driver".to_owned()]));
}

#[test]
fn compiler_arguments_drop_the_wrapper_and_cap_lints_for_fixes() {
    let args = vec!["driver".to_owned(), "rustc".to_owned(), "lib.rs".to_owned()];
    assert_eq!(compiler_arguments(args.clone(), false), vec!["driver", "lib.rs"]);
    assert_eq!(
        compiler_arguments(args, true),
        vec!["driver", "lib.rs", "--cap-lints", "allow", "--allow", "unused_imports"]
    );
}

fn target(id: &str, name: &str, span: Option<Span>, replacement: VisibilityReduction) -> FixTarget {
    FixTarget {
        id: id.into(),
        crate_name: "library".into(),
        name: name.into(),
        definition_kind: DefinitionKind::Function,
        span,
        kind: FindingKind::UnnecessaryPublic,
        replacement,
    }
}

fn span(line: usize) -> Span {
    Span {
        file: "src/lib.rs".into(),
        line,
        column: 1,
    }
}

#[test]
fn fix_plans_are_found_by_id_then_by_identity() {
    let plan = FixPlan {
        protocol_version: ProtocolVersion,
        targets: vec![
            target("first", "helper", Some(span(3)), VisibilityReduction::Crate),
            target("second", "other", None, VisibilityReduction::Super),
            target("first", "helper", Some(span(3)), VisibilityReduction::Private),
        ],
    };
    let index = FixPlanIndex::new(&plan);
    let located = span(3);
    let by_identity = DefinitionIdentity::new("library", "helper", DefinitionKind::Function, Some(&located));
    assert_eq!(
        planned_fix(&index, "first", &by_identity),
        Some((FindingKind::UnnecessaryPublic, VisibilityReduction::Private))
    );
    assert_eq!(
        planned_fix(&index, "renamed", &by_identity),
        Some((FindingKind::UnnecessaryPublic, VisibilityReduction::Private))
    );
    let elsewhere = span(4);
    let moved = DefinitionIdentity::new("library", "helper", DefinitionKind::Function, Some(&elsewhere));
    assert_eq!(planned_fix(&index, "renamed", &moved), None);
    let spanless = DefinitionIdentity::new("library", "other", DefinitionKind::Function, None);
    assert_eq!(
        planned_fix(&index, "renamed", &spanless),
        Some((FindingKind::UnnecessaryPublic, VisibilityReduction::Super))
    );
    assert!(index.get_by_id("second").is_some());
    assert!(index.get_by_id("third").is_none());
}

#[test]
fn shared_visibility_modifiers_are_fixed_only_when_every_use_agrees() {
    let sites = vec![
        (span(1), 3),
        (span(2), 3),
        (span(1), 3),
        (span(3), 3),
        (span(3), 3),
        (span(4), 3),
    ];
    let crate_fix = Some((FindingKind::UnnecessaryPublic, VisibilityReduction::Crate));
    let private_fix = Some((
        FindingKind::UnnecessaryRestrictedVisibility,
        VisibilityReduction::Private,
    ));
    let planned = vec![crate_fix, crate_fix, crate_fix, crate_fix, private_fix, None];
    assert_eq!(
        agreed_fixes(&sites, &planned),
        vec![
            (0, FindingKind::UnnecessaryPublic, VisibilityReduction::Crate),
            (1, FindingKind::UnnecessaryPublic, VisibilityReduction::Crate),
        ]
    );
}
