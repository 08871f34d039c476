use feature_lint::cmd::TreeArgs;
use feature_lint::lint::{
    LintCmd, LintOutcome, NeverEnablesCmd, NeverImpliesCmd, PropagateFeatureCmd, SubCommand,
};
use feature_lint::model::{DepKind, Dependency, Metadata, NodeDep, Package, Resolve, ResolveNode};

fn args() -> TreeArgs {
    TreeArgs { manifest_path: "Cargo.toml".to_owned(), workspace: true, offline: false }
}

fn dep(name: &str) -> Dependency {
    Dependency {
        name: name.to_owned(),
        rename: None,
        uses_default_features: true,
        features: Vec::new(),
        kind: DepKind::Normal,
        optional: false,
        target: None,
    }
}

fn pkg(name: &str, deps: Vec<Dependency>, features: Vec<(&str, Vec<&str>)>) -> Package {
    Package {
        id: format!("id-{name}"),
        name: name.to_owned(),
        version: "1.0.0".to_owned(),
        manifest_path: format!("/ws/{name}/Cargo.toml"),
        source: None,
        dependencies: deps,
        features: features
            .into_iter()
            .map(|(f, vs)| (f.to_owned(), vs.into_iter().map(|s| s.to_owned()).collect()))
            .collect(),
    }
}

fn workspace(packages: Vec<Package>) -> Metadata {
    let members = packages.iter().map(|p| p.id.clone()).collect();
    Metadata { packages, workspace_members: members, resolve: None }
}

fn propagate_cmd(feature: &str, packages: Vec<&str>, fix: bool) -> PropagateFeatureCmd {
    PropagateFeatureCmd {
        cargo_args: args(),
        feature: feature.to_owned(),
        packages: packages.into_iter().map(|s| s.to_owned()).collect(),
        crate_versions: false,
        fix,
        fix_dependency: None,
        fix_package: None,
    }
}

#[test]
fn scenario_propagate_missing_reported_and_fix_planned() {
    // Package `a` depends on `b`; `b` declares `std`; `a` declares
    // `std = []`: `a` must propagate to `b`.
    let meta = workspace(vec![
        pkg("a", vec![dep("b")], vec![("std", vec![])]),
        pkg("b", vec![], vec![("std", vec![])]),
    ]);
    let report = propagate_cmd("std", vec![], true).run(&meta).unwrap();
    assert_eq!(report.feature_missing.len(), 0);
    assert_eq!(report.propagate_missing.len(), 1);
    let f = &report.propagate_missing[0];
    assert_eq!(f.pkg_name, "a");
    assert_eq!(f.dep_names, vec!["b".to_owned()]);
    assert_eq!(report.fixes.len(), 1);
    let plan = &report.fixes[0];
    assert_eq!(plan.pkg_name, "a");
    assert_eq!(plan.feature, "std");
    assert_eq!(plan.values, vec!["b/std".to_owned()]);
    // Applying the planned fix rewrites `a`'s manifest to std = ["b/std"].
    let manifest = "[package]\nname = \"a\"\n\n[features]\nstd = []\n";
    let mut doc = feature_lint::autofix::AutoFixer::from_text(manifest.to_owned());
    for value in &plan.values {
        doc.add_to_feature(&plan.feature, value).unwrap();
    }
    assert_eq!(doc.text(), "[package]\nname = \"a\"\n\n[features]\nstd = [\"b/std\"]\n");
}

#[test]
fn scenario_feature_missing_reported() {
    // `a` does not declare `std` at all while its dependency has it.
    let meta = workspace(vec![
        pkg("a", vec![dep("b")], vec![]),
        pkg("b", vec![], vec![("std", vec![])]),
    ]);
    let report = propagate_cmd("std", vec![], false).run(&meta).unwrap();
    assert_eq!(report.feature_missing.len(), 1);
    assert_eq!(report.feature_missing[0].pkg_name, "a");
    assert_eq!(report.feature_missing[0].dep_names, vec!["b".to_owned()]);
    assert_eq!(report.propagate_missing.len(), 0);
    assert_eq!(report.fixes.len(), 0);
}

#[test]
fn scenario_never_enables_direct_forward() {
    // `a` declares std = ["b/alloc"]: Never-Enables flags `a` with `b`.
    let meta = workspace(vec![
        pkg("a", vec![dep("b")], vec![("std", vec!["b/alloc"])]),
        pkg("b", vec![], vec![("alloc", vec![])]),
    ]);
    let cmd = NeverEnablesCmd {
        cargo_args: args(),
        precondition: "std".to_owned(),
        stays_disabled: "alloc".to_owned(),
    };
    let offenders = cmd.run(&meta);
    assert_eq!(offenders.len(), 1);
    assert_eq!(offenders[0].pkg_name, "a");
    assert_eq!(offenders[0].dep_names, vec!["b".to_owned()]);
}

#[test]
fn scenario_never_enables_bare_token() {
    let meta = workspace(vec![pkg(
        "a",
        vec![],
        vec![("std", vec!["alloc"]), ("alloc", vec![])],
    )]);
    let cmd = NeverEnablesCmd {
        cargo_args: args(),
        precondition: "std".to_owned(),
        stays_disabled: "alloc".to_owned(),
    };
    let offenders = cmd.run(&meta);
    assert_eq!(offenders.len(), 1);
    assert_eq!(offenders[0].pkg_name, "a");
    assert_eq!(offenders[0].dep_names, vec!["a".to_owned()]);
}

#[test]
fn scenario_never_implies_chain() {
    // x's runtime-benchmarks implies y/rt, y's rt implies z/std.
    let meta = workspace(vec![
        pkg("x", vec![dep("y")], vec![("runtime-benchmarks", vec!["y/rt"])]),
        pkg("y", vec![dep("z")], vec![("rt", vec!["z/std"])]),
        pkg("z", vec![], vec![("std", vec![])]),
    ]);
    let cmd = NeverImpliesCmd {
        cargo_args: args(),
        precondition: "runtime-benchmarks".to_owned(),
        stays_disabled: "std".to_owned(),
        show_source: false,
        show_version: false,
        path_delimiter: " -> ".to_owned(),
    };
    let out = cmd.run(&meta).unwrap();
    assert_eq!(out, Some("x/runtime-benchmarks -> y/rt -> z/std".to_owned()));
}

#[test]
fn scenario_never_implies_clean_workspace() {
    let meta = workspace(vec![
        pkg("x", vec![dep("y")], vec![("runtime-benchmarks", vec!["y/rt"])]),
        pkg("y", vec![], vec![("rt", vec![])]),
    ]);
    let cmd = NeverImpliesCmd {
        cargo_args: args(),
        precondition: "runtime-benchmarks".to_owned(),
        stays_disabled: "std".to_owned(),
        show_source: false,
        show_version: false,
        path_delimiter: " -> ".to_owned(),
    };
    assert_eq!(cmd.run(&meta).unwrap(), None);
}

#[test]
fn scenario_never_implies_with_version_annotation() {
    let meta = workspace(vec![pkg("a", vec![], vec![("std", vec!["alloc"]), ("alloc", vec![])])]);
    let cmd = NeverImpliesCmd {
        cargo_args: args(),
        precondition: "std".to_owned(),
        stays_disabled: "alloc".to_owned(),
        show_source: false,
        show_version: true,
        path_delimiter: "\\n".to_owned(),
    };
    let out = cmd.run(&meta).unwrap();
    assert_eq!(out, Some("a/std v1.0.0\na/alloc v1.0.0".to_owned()));
}

#[test]
fn scenario_disabled_optional_dependency_is_a_dead_end() {
    // `a` depends on an optional, disabled `c`: the resolved graph has no
    // edge for it, so no edge into `c`'s features is created and no check
    // flags `c`.
    let mut c_dep = dep("c");
    c_dep.optional = true;
    let packages = vec![
        pkg("a", vec![c_dep], vec![("std", vec![])]),
        pkg("c", vec![], vec![("std", vec![])]),
    ];
    let meta = Metadata {
        workspace_members: vec![packages[0].id.clone()],
        resolve: Some(Resolve {
            nodes: vec![
                ResolveNode { id: "id-a".to_owned(), deps: Vec::<NodeDep>::new() },
                ResolveNode { id: "id-c".to_owned(), deps: Vec::<NodeDep>::new() },
            ],
        }),
        packages,
    };
    // Propagate-Feature: `c` is unresolved, hence skipped, no finding.
    let report = propagate_cmd("std", vec![], false).run(&meta).unwrap();
    assert_eq!(report.feature_missing.len(), 0);
    assert_eq!(report.propagate_missing.len(), 0);
    // Never-Implies: the placeholder vertex (named `c`, not id-c) carries
    // feature `default` only; nothing reaches `c`'s `std`.
    let cmd = NeverImpliesCmd {
        cargo_args: args(),
        precondition: "default".to_owned(),
        stays_disabled: "std".to_owned(),
        show_source: false,
        show_version: false,
        path_delimiter: " -> ".to_owned(),
    };
    assert_eq!(cmd.run(&meta).unwrap(), None);
}

#[test]
fn scenario_package_filter_restricts_checks() {
    // `a` violates, but the filter names only `ok`: nothing is reported or
    // fixed.
    let meta = workspace(vec![
        pkg("a", vec![dep("b")], vec![("std", vec![])]),
        pkg("b", vec![], vec![("std", vec![])]),
        pkg("ok", vec![], vec![]),
    ]);
    let report = propagate_cmd("std", vec!["ok"], true).run(&meta).unwrap();
    assert_eq!(report.feature_missing.len(), 0);
    assert_eq!(report.propagate_missing.len(), 0);
    assert_eq!(report.fixes.len(), 0);
}

#[test]
fn empty_filter_match_is_an_error() {
    let meta = workspace(vec![pkg("a", vec![], vec![])]);
    assert!(propagate_cmd("std", vec!["no-such-package"], false).run(&meta).is_err());
}

#[test]
fn maybe_unused_is_computed() {
    // `a` declares `std` but no dependency has it: informational flag.
    let meta = workspace(vec![pkg("a", vec![dep("b")], vec![("std", vec![])]), pkg("b", vec![], vec![])]);
    let report = propagate_cmd("std", vec![], false).run(&meta).unwrap();
    assert_eq!(report.feature_maybe_unused, vec!["id-a".to_owned()]);
}

#[test]
fn fix_filters_restrict_planned_edits() {
    let meta = workspace(vec![
        pkg("a", vec![dep("b"), dep("c")], vec![("std", vec![])]),
        pkg("b", vec![], vec![("std", vec![])]),
        pkg("c", vec![], vec![("std", vec![])]),
    ]);
    let mut cmd = propagate_cmd("std", vec![], true);
    cmd.fix_dependency = Some("c".to_owned());
    let report = cmd.run(&meta).unwrap();
    assert_eq!(report.propagate_missing.len(), 1);
    assert_eq!(report.fixes.len(), 1);
    assert_eq!(report.fixes[0].values, vec!["c/std".to_owned()]);
}

#[test]
fn dispatch_through_command() {
    let meta = workspace(vec![pkg("a", vec![], vec![("std", vec!["alloc"]), ("alloc", vec![])])]);
    let root = feature_lint::cmd::Command {
        lint: LintCmd {
            subcommand: SubCommand::NeverEnables(NeverEnablesCmd {
                cargo_args: args(),
                precondition: "std".to_owned(),
                stays_disabled: "alloc".to_owned(),
            }),
        },
        quiet: false,
    };
    match root.run(&meta) {
        LintOutcome::NeverEnables(offenders) => assert_eq!(offenders.len(), 1),
        _ => panic!("wrong outcome variant"),
    }
}

#[test]
fn build_is_deterministic() {
    let meta = workspace(vec![
        pkg("x", vec![dep("y")], vec![("runtime-benchmarks", vec!["y/rt"])]),
        pkg("y", vec![], vec![("rt", vec![])]),
    ]);
    let d1 = feature_lint::builder::build_feature_dag(&meta).unwrap();
    let d2 = feature_lint::builder::build_feature_dag(&meta).unwrap();
    let l1 = d1.lhs_nodes();
    let l2 = d2.lhs_nodes();
    assert_eq!(l1.len(), l2.len());
    for i in 0..l1.len() {
        assert!(l1[i] == l2[i]);
    }
}

#[test]
fn builder_rejects_unknown_own_feature() {
    let meta = workspace(vec![pkg("a", vec![], vec![("std", vec!["no-such-feature"])])]);
    match feature_lint::builder::build_feature_dag(&meta) {
        Err(feature_lint::MetadataError::UnknownOwnFeature(s)) => {
            assert_eq!(s, "no-such-feature");
        },
        _ => panic!("expected an unknown-own-feature error"),
    }
}

#[test]
fn builder_rejects_unknown_dependency() {
    let meta = workspace(vec![pkg("a", vec![], vec![("std", vec!["nodep/std"])])]);
    match feature_lint::builder::build_feature_dag(&meta) {
        Err(feature_lint::MetadataError::UnknownDependency(s)) => assert_eq!(s, "nodep/std"),
        _ => panic!("expected an unknown-dependency error"),
    }
}

#[test]
fn builder_rejects_malformed_spec() {
    let meta = workspace(vec![pkg("a", vec![], vec![("std", vec!["odd:form"])])]);
    match feature_lint::builder::build_feature_dag(&meta) {
        Err(feature_lint::MetadataError::MalformedImplication(s)) => assert_eq!(s, "odd:form"),
        _ => panic!("expected a malformed-implication error"),
    }
}

#[test]
fn builder_handles_rename_and_weak_forward() {
    // `a` renames `b` to `bee` and forwards weakly: the weak marker is
    // folded into a strong edge.
    let mut d = dep("b");
    d.rename = Some("bee".to_owned());
    let meta = workspace(vec![
        pkg("a", vec![d], vec![("std", vec!["bee?/std"])]),
        pkg("b", vec![], vec![("std", vec![])]),
    ]);
    let cmd = NeverImpliesCmd {
        cargo_args: args(),
        precondition: "std".to_owned(),
        stays_disabled: "std".to_owned(),
        show_source: false,
        show_version: false,
        path_delimiter: " -> ".to_owned(),
    };
    let out = cmd.run(&meta).unwrap();
    assert_eq!(out, Some("a/std".to_owned()));
}
