use std::collections::HashMap;

use codegraph::tsconfig::{join_rel, load_alias_maps, strip_jsonc, AliasMap, ConfigFile};

#[test]
fn jsonc_stripping() {
    let src = r#"{
  // line comment
  "compilerOptions": {
    /* block */ "baseUrl": ".",
    "paths": { "@app/*": ["src/*"], },
  },
}"#;
    let v: serde_json::Value = serde_json::from_str(&strip_jsonc(src)).unwrap();
    assert_eq!(v["compilerOptions"]["baseUrl"], ".");
}

#[test]
fn jsonc_keeps_text() {
    let src = "{\"a\": \"// no\", \"b\": \"ü \\\" /* no */\",}";
    let v: serde_json::Value = serde_json::from_str(&strip_jsonc(src)).unwrap();
    assert_eq!(v["a"], "// no");
    assert_eq!(v["b"], "ü \" /* no */");
}

/// The aliases of a tree of files under `/r`.
fn load(files: &[(&str, &str)]) -> (AliasMap, String) {
    let tree: HashMap<String, String> =
        files.iter().map(|(p, t)| (format!("/r/{p}"), t.to_string())).collect();
    let configs: Vec<ConfigFile> = files
        .iter()
        .filter(|(p, _)| !p.starts_with("node_modules/"))
        .map(|(p, t)| ConfigFile { rel: p.to_string(), content: t.to_string() })
        .collect();
    let read = |p: &str| tree.get(p).cloned();
    let is_file = |p: &str| tree.contains_key(p);
    load_alias_maps("/r", configs, &read, &is_file)
}

#[test]
fn wildcard_nearest_ancestor_and_extends() {
    let base = (
        "tsconfig.base.json",
        r#"{"compilerOptions":{"baseUrl":".","paths":{"@root/*":["lib/*"]}}}"#,
    );
    let root = ("tsconfig.json", r#"{"extends":"./tsconfig.base.json"}"#);
    let (map, hash) = load(&[
        base,
        root,
        (
            "web/tsconfig.json",
            r#"{"compilerOptions":{"baseUrl":".","paths":{"@app/*":["src/*"],"exact":["src/exact-mod"]}}}"#,
        ),
    ]);
    assert_eq!(
        map.resolve("web/src/a.ts", "@app/services/user"),
        Some("/web/src/services/user".into())
    );
    assert_eq!(map.resolve("web/src/a.ts", "exact"), Some("/web/src/exact-mod".into()));
    assert_eq!(map.resolve("cli/main.ts", "@root/util"), Some("/lib/util".into()));
    assert_eq!(map.resolve("web/src/a.ts", "react"), None);
    let (map2, hash2) = load(&[
        base,
        root,
        ("web/tsconfig.json", r#"{"compilerOptions":{"paths":{"@app/*":["other/*"]}}}"#),
    ]);
    assert_ne!(hash, hash2);
    assert_eq!(map2.resolve("web/src/a.ts", "@app/x"), Some("/web/other/x".into()));
}

#[test]
fn multiple_targets_take_declared_priority() {
    let (map, _) =
        load(&[("tsconfig.json", r#"{"compilerOptions":{"paths":{"@x/*":["a/*","b/*"]}}}"#)]);
    assert_eq!(map.resolve("src/f.ts", "@x/y").as_deref(), Some("/a/y"));
}

#[test]
fn variant_config_anchors_scope_when_plain_has_no_paths() {
    let (map, _) = load(&[
        ("tsconfig.json", r#"{"compilerOptions":{}}"#),
        (
            "tsconfig.app.json",
            r#"{"compilerOptions":{"baseUrl":".","paths":{"@app/*":["src/app/*"]}}}"#,
        ),
    ]);
    assert_eq!(map.resolve("src/main.ts", "@app/core"), Some("/src/app/core".into()));
}

#[test]
fn extends_from_node_modules_package() {
    let (map, _) = load(&[
        (
            "node_modules/@tsconfig/base/tsconfig.json",
            r#"{"compilerOptions":{"baseUrl":".","paths":{"~/*":["lib/*"]}}}"#,
        ),
        ("tsconfig.json", r#"{"extends":"@tsconfig/base"}"#),
    ]);
    assert!(
        map.resolve("src/a.ts", "~/util").is_some(),
        "package extends chain must be followed"
    );
}

#[test]
fn paths_are_joined() {
    assert_eq!(join_rel("web", "./src"), "web/src");
    assert_eq!(join_rel("web/app", "../lib"), "web/lib");
    assert_eq!(join_rel("", "src"), "src");
}

#[test]
fn the_first_declared_pattern_wins() {
    let (map, _) = load(&[(
        "tsconfig.json",
        r#"{"compilerOptions":{"paths":{"@/*":["src/*"],"*":["lib/*"]}}}"#,
    )]);
    assert_eq!(map.resolve("a.ts", "@/x").as_deref(), Some("/src/x"));
    assert_eq!(map.resolve("a.ts", "other").as_deref(), Some("/lib/other"));
}

#[test]
fn strings_are_kept_as_they_are() {
    let src = r#"{"u":"http://x/* ,]","v":"\\"}"#;
    assert_eq!(strip_jsonc(src), src);
}

#[test]
fn a_comment_may_follow_a_trailing_comma() {
    assert_eq!(strip_jsonc("[1,/*c*/]"), "[1]");
    assert_eq!(strip_jsonc("{\"a\":1, // last\n /* x */ }"), "{\"a\":1 \n  }");
    assert_eq!(strip_jsonc("[1,/*c*/2]"), "[1,2]");
    assert_eq!(strip_jsonc("[1, // open"), "[1, ");
}
