use gn_rules::condition::{Cfg, CfgExpr, CondError, Condition, Platform, PlatformSet};
use gn_rules::condition::{cfg_to_condition, triple_to_condition};
use gn_rules::escape::escape_for_handlebars;
use gn_rules::group::{group_deps, DepOfDep, PackageId};
use gn_rules::jsonkv::merge_extra_kv;
use gn_rules::normalize_target_name;
use gn_rules::rules::{
    build_rule_from_std_dep, make_build_file_for_chromium_dep, BinTarget, BuildConfig,
    CrateConfig, CrateFiles, DepKind, KindInfo, LibTarget, Package, PerCrateMetadata, Rule,
    Visibility,
};

fn cfg_name(n: &str) -> CfgExpr {
    CfgExpr::Value(Cfg::Name(n.to_string()))
}

fn cfg_target_os(v: &str) -> CfgExpr {
    CfgExpr::Value(Cfg::KeyPair("target_os".to_string(), v.to_string()))
}

#[test]
fn platform_to_condition() {
    // Try an unconditional filter.
    assert_eq!(Condition::from_platform_set(PlatformSet::one(None)).unwrap(), None);

    // Try a target triple.
    assert_eq!(
        Condition::from_platform_set(PlatformSet::one(Some(Platform::Name(
            "x86_64-pc-windows-msvc".to_string()
        ))))
        .unwrap()
        .unwrap()
        .0,
        "(is_win && target_cpu == \"x64\")"
    );

    // Try a cfg expression: any(windows, target_os = "android").
    assert_eq!(
        Condition::from_platform_set(PlatformSet::one(Some(Platform::Cfg(CfgExpr::Any(vec![
            cfg_name("windows"),
            cfg_target_os("android"),
        ])))))
        .unwrap()
        .unwrap()
        .0,
        "((is_android) || (is_win))"
    );

    // Redundant cfg expression: any(windows, windows).
    assert_eq!(
        Condition::from_platform_set(PlatformSet::one(Some(Platform::Cfg(CfgExpr::Any(vec![
            cfg_name("windows"),
            cfg_name("windows"),
        ])))))
        .unwrap()
        .unwrap()
        .0,
        "((is_win))"
    );

    // Try a PlatformSet with multiple filters.
    let mut platform_set = PlatformSet::empty();
    platform_set.add(Some(Platform::Name("armv7-linux-android".to_string())));
    platform_set.add(Some(Platform::Cfg(cfg_name("windows"))));
    assert_eq!(
        Condition::from_platform_set(platform_set).unwrap().unwrap().0,
        "(is_android && target_cpu == \"arm\") || (is_win)"
    );
}

#[test]
fn string_excaping() {
    assert_eq!("foo bar", format!("{}", escape_for_handlebars("foo bar")));
    assert_eq!("foo bar ", format!("{}", escape_for_handlebars("foo\nbar\n")));
    assert_eq!(r#"foo \"bar\""#, format!("{}", escape_for_handlebars(r#"foo "bar""#)));
    assert_eq!("foo 'bar'", format!("{}", escape_for_handlebars("foo 'bar'")));
}

#[test]
fn escape_round_trip() {
    // Unescape the way the template renderer reads the literal back: a
    // backslash makes the next character literal.
    let input = "a\"b\\c\nd";
    let escaped = escape_for_handlebars(input);
    assert_eq!(escaped, "a\\\"b\\\\c d");
    let mut unescaped = String::new();
    let chars: Vec<char> = escaped.chars().collect();
    let mut i = 0;
    while i < chars.len() {
        if chars[i] == '\\' && i + 1 < chars.len() {
            unescaped.push(chars[i + 1]);
            i += 2;
        } else {
            unescaped.push(chars[i]);
            i += 1;
        }
    }
    assert_eq!(unescaped, "a\"b\\c d");
}

#[test]
fn reordered_operands_render_identically() {
    let a = || cfg_target_os("android");
    let b = || cfg_name("windows");
    let r1 = gn_rules::condition::cfg_expr_to_condition(&CfgExpr::Any(vec![a(), b()])).unwrap();
    let r2 = gn_rules::condition::cfg_expr_to_condition(&CfgExpr::Any(vec![b(), a()])).unwrap();
    assert_eq!(r1, r2);
    assert_eq!(r1, "(is_android) || (is_win)");
    let c1 = gn_rules::condition::cfg_expr_to_condition(&CfgExpr::All(vec![a(), b()])).unwrap();
    let c2 = gn_rules::condition::cfg_expr_to_condition(&CfgExpr::All(vec![b(), a()])).unwrap();
    assert_eq!(c1, c2);
    assert_eq!(c1, "(is_android) && (is_win)");
}

#[test]
fn duplicate_operands_collapse() {
    let one = gn_rules::condition::cfg_expr_to_condition(&CfgExpr::Any(vec![cfg_name(
        "windows",
    )]))
    .unwrap();
    let two = gn_rules::condition::cfg_expr_to_condition(&CfgExpr::Any(vec![
        cfg_name("windows"),
        cfg_name("windows"),
    ]))
    .unwrap();
    assert_eq!(one, two);
    assert_eq!(one, "(is_win)");
}

#[test]
fn unknown_triple_is_fatal() {
    assert_eq!(
        triple_to_condition("riscv64gc-unknown-linux-gnu"),
        Err(CondError::UnknownTriple)
    );
    assert_eq!(
        gn_rules::condition::platform_to_condition(&Platform::Name("mips-unknown".to_string())),
        Err(CondError::UnknownTriple)
    );
}

#[test]
fn unknown_cfg_leaf_is_fatal() {
    assert_eq!(
        cfg_to_condition(&Cfg::Name("haiku".to_string())),
        Err(CondError::UnknownCfgLeaf)
    );
    assert_eq!(
        cfg_to_condition(&Cfg::KeyPair("target_os".to_string(), "redox".to_string())),
        Err(CondError::UnknownCfgLeaf)
    );
    assert_eq!(
        cfg_to_condition(&Cfg::KeyPair("target_env".to_string(), "msvc".to_string())),
        Err(CondError::UnknownCfgLeaf)
    );
}

fn edge(name: &str, platform: Option<Platform>) -> DepOfDep {
    DepOfDep {
        package_name: name.to_string(),
        // source code refers to a crate by its underscored name
        use_name: name.replace('-', "_"),
        epoch: None,
        platform,
    }
}

#[test]
fn grouping_is_canonical() {
    // Duplicate edges under the same condition, plus conditional edges given
    // in no particular order.
    let deps = vec![
        edge("serde", None),
        edge("zeta-helper", None),
        edge("serde", None),
        edge("winapi", Some(Platform::Cfg(cfg_name("windows")))),
        edge("alpha", None),
        edge("libc", Some(Platform::Cfg(cfg_name("unix")))),
    ];
    let groups = group_deps(&deps, false).unwrap();
    // The unconditional group comes first and the conditions are sorted.
    assert_eq!(groups.len(), 3);
    assert_eq!(groups[0].cond, None);
    assert_eq!(groups[1].cond, Some(Condition("!is_win".to_string())));
    assert_eq!(groups[2].cond, Some(Condition("is_win".to_string())));
    // Packages are sorted and deduplicated within a group.
    let names: Vec<&str> = groups[0].packages.iter().map(|p| p.name.as_str()).collect();
    assert_eq!(names, vec!["alpha", "serde", "zeta_helper"]);
    assert_eq!(groups[1].packages, vec![PackageId { name: "libc".to_string(), epoch: None }]);
    assert_eq!(groups[2].packages, vec![PackageId { name: "winapi".to_string(), epoch: None }]);
}

#[test]
fn grouping_of_no_edges_keeps_unconditional_group() {
    let no_edges: Vec<DepOfDep> = Vec::new();
    let groups = group_deps(&no_edges, false).unwrap();
    assert_eq!(groups.len(), 1);
    assert_eq!(groups[0].cond, None);
    assert!(groups[0].packages.is_empty());
}

fn std_package(name: &str, deps: Vec<DepOfDep>) -> Package {
    Package {
        package_name: name.to_string(),
        version: "1.2.3".to_string(),
        edition: "2021".to_string(),
        authors: vec!["A. Author".to_string(), "B. Author".to_string()],
        description: Some("A library.  \n".to_string()),
        epoch: "v1".to_string(),
        lib_target: Some(LibTarget {
            root: "third_party/rust/lib.rs".to_string(),
            lib_type: "rlib".to_string(),
        }),
        bin_targets: vec![],
        build_script: None,
        dependency_kinds: vec![(
            DepKind::Normal,
            KindInfo { features: vec!["std".to_string(), "alloc".to_string(), "std".to_string()] },
        )],
        dependencies: deps,
        build_dependencies: vec![],
    }
}

fn empty_config() -> BuildConfig {
    BuildConfig {
        all_config: CrateConfig { exclude_deps_in_gn: vec![], extra_kv: vec![] },
        per_crate_config: vec![],
    }
}

#[test]
fn std_rule_carries_package_metadata() {
    let files = CrateFiles {
        sources: vec!["third_party/rust/lib.rs".to_string()],
        inputs: vec![],
        build_script_sources: vec![],
        build_script_inputs: vec![],
    };
    let pkg = std_package("foo-bar", vec![edge("some-dep", None)]);
    let (name, rule) = build_rule_from_std_dep(pkg, &files, &empty_config()).unwrap();
    assert_eq!(name, "foo_bar");
    match rule {
        Rule::Concrete { common, details } => {
            assert!(!common.testonly);
            assert!(common.public_visibility);
            assert_eq!(details.crate_type, "rlib");
            assert_eq!(details.crate_root, "//third_party/rust/lib.rs");
            assert_eq!(details.sources, vec!["//third_party/rust/lib.rs".to_string()]);
            assert_eq!(details.edition, "2021");
            assert_eq!(details.cargo_pkg_version, "1.2.3");
            assert_eq!(details.cargo_pkg_authors, Some("A. Author, B. Author".to_string()));
            assert_eq!(details.cargo_pkg_name, "foo-bar");
            // trailing whitespace of the description is dropped
            assert_eq!(details.cargo_pkg_description, Some("A library.".to_string()));
            // features are sorted and deduplicated
            assert_eq!(details.features, vec!["alloc".to_string(), "std".to_string()]);
            // one unconditional group with the normalized dependency
            assert_eq!(details.deps.len(), 1);
            assert_eq!(details.deps[0].cond, None);
            assert_eq!(
                details.deps[0].packages,
                vec![PackageId { name: "some_dep".to_string(), epoch: None }]
            );
            assert!(details.aliased_deps.is_empty());
        }
        Rule::Group { .. } => panic!("expected a concrete rule"),
    }
}

#[test]
fn std_rule_excluded_deps_clear_the_list() {
    let files = CrateFiles {
        sources: vec![],
        inputs: vec![],
        build_script_sources: vec![],
        build_script_inputs: vec![],
    };
    let pkg = std_package("foo", vec![edge("unwanted", None)]);
    let config = BuildConfig {
        all_config: CrateConfig {
            exclude_deps_in_gn: vec!["unwanted".to_string()],
            extra_kv: vec![],
        },
        per_crate_config: vec![],
    };
    let (_, rule) = build_rule_from_std_dep(pkg, &files, &config).unwrap();
    match rule {
        Rule::Concrete { details, .. } => {
            // a dependency list that ends up empty is elided entirely
            assert!(details.deps.is_empty());
        }
        Rule::Group { .. } => panic!("expected a concrete rule"),
    }
}

#[test]
fn std_rule_records_aliased_deps() {
    let files = CrateFiles {
        sources: vec![],
        inputs: vec![],
        build_script_sources: vec![],
        build_script_inputs: vec![],
    };
    let mut dep = edge("real-name", None);
    dep.use_name = "alias".to_string();
    let pkg = std_package("foo", vec![dep]);
    let (_, rule) = build_rule_from_std_dep(pkg, &files, &empty_config()).unwrap();
    match rule {
        Rule::Concrete { details, .. } => {
            assert_eq!(
                details.aliased_deps,
                vec![("alias".to_string(), ":real_name__rlib".to_string())]
            );
        }
        Rule::Group { .. } => panic!("expected a concrete rule"),
    }
}

fn chromium_package() -> Package {
    Package {
        package_name: "quux".to_string(),
        version: "2.0.1".to_string(),
        edition: "2018".to_string(),
        authors: vec![],
        description: None,
        epoch: "v2".to_string(),
        lib_target: Some(LibTarget {
            root: "src/lib.rs".to_string(),
            lib_type: "rlib".to_string(),
        }),
        bin_targets: vec![],
        build_script: None,
        dependency_kinds: vec![
            (DepKind::Normal, KindInfo { features: vec!["default".to_string()] }),
            (DepKind::Build, KindInfo { features: vec![] }),
        ],
        dependencies: vec![],
        build_dependencies: vec![],
    }
}

#[test]
fn test_only_visibility_adds_test_support_alias() {
    let files = CrateFiles {
        sources: vec!["src/lib.rs".to_string()],
        inputs: vec![],
        build_script_sources: vec![],
        build_script_inputs: vec![],
    };
    let metadata = PerCrateMetadata {
        build_script_outputs: vec![],
        gn_variables: None,
        visibility: Visibility::TestOnlyAndThirdParty,
    };
    let (id, bf) = make_build_file_for_chromium_dep(chromium_package(), &files, metadata)
        .unwrap()
        .unwrap();
    assert_eq!(id, PackageId { name: "quux".to_string(), epoch: Some("v2".to_string()) });
    assert_eq!(bf.rules.len(), 3);
    assert_eq!(bf.rules[0].0, "lib");
    match &bf.rules[0].1 {
        Rule::Concrete { common, details } => {
            assert!(!common.testonly);
            assert!(!common.public_visibility);
            assert_eq!(details.crate_name, Some("quux".to_string()));
            assert_eq!(details.epoch, Some("v2".to_string()));
            assert_eq!(details.features, vec!["default".to_string()]);
        }
        Rule::Group { .. } => panic!("expected a concrete lib rule"),
    }
    assert_eq!(bf.rules[1].0, "test_support");
    match &bf.rules[1].1 {
        Rule::Group { common, concrete_target } => {
            assert!(common.testonly);
            assert!(common.public_visibility);
            assert_eq!(concrete_target, "lib");
        }
        Rule::Concrete { .. } => panic!("expected a group rule"),
    }
    assert_eq!(bf.rules[2].0, "buildrs_support");
}

#[test]
fn package_without_targets_is_omitted() {
    let files = CrateFiles {
        sources: vec![],
        inputs: vec![],
        build_script_sources: vec![],
        build_script_inputs: vec![],
    };
    let mut pkg = chromium_package();
    pkg.lib_target = None;
    let r = make_build_file_for_chromium_dep(pkg, &files, PerCrateMetadata::default()).unwrap();
    assert!(r.is_none());
}

#[test]
fn bin_rule_depends_on_lib() {
    let files = CrateFiles {
        sources: vec!["src/main.rs".to_string()],
        inputs: vec![],
        build_script_sources: vec![],
        build_script_inputs: vec![],
    };
    let mut pkg = chromium_package();
    pkg.bin_targets = vec![BinTarget { name: "my-tool".to_string(), root: "src/main.rs".to_string() }];
    let (_, bf) = make_build_file_for_chromium_dep(pkg, &files, PerCrateMetadata::default())
        .unwrap()
        .unwrap();
    assert_eq!(bf.rules[0].0, "my_tool");
    match &bf.rules[0].1 {
        Rule::Concrete { details, .. } => {
            assert_eq!(details.crate_type, "bin");
            assert_eq!(details.crate_root, "src/main.rs");
            assert!(details.dep_on_lib);
            // the placeholder group lets the template emit the lib dependency
            assert_eq!(details.deps.len(), 1);
            assert_eq!(details.deps[0].cond, None);
            assert!(details.deps[0].packages.is_empty());
        }
        Rule::Group { .. } => panic!("expected a concrete bin rule"),
    }
}

#[test]
fn normalize_replaces_hyphens() {
    assert_eq!(normalize_target_name("foo-bar-baz"), "foo_bar_baz");
    assert_eq!(normalize_target_name("nothing"), "nothing");
}

#[test]
fn extra_kv_overrides_merge() {
    let base = vec![
        ("keep".to_string(), serde_json::Value::String("a".to_string())),
        ("replace".to_string(), serde_json::Value::Bool(false)),
    ];
    let over = vec![
        ("replace".to_string(), serde_json::Value::Bool(true)),
        ("new".to_string(), serde_json::Value::String("b".to_string())),
    ];
    let merged = merge_extra_kv(&base, &over);
    assert_eq!(merged.len(), 3);
    assert_eq!(merged[0], ("keep".to_string(), serde_json::Value::String("a".to_string())));
    assert_eq!(merged[1], ("replace".to_string(), serde_json::Value::Bool(true)));
    assert_eq!(merged[2], ("new".to_string(), serde_json::Value::String("b".to_string())));
}
