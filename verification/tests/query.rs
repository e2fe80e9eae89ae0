use codegraph::audit::{sample, XorShift};
use codegraph::indexstore::{
    import_indexstore, is_derived_data_of, read_occurrences, split_occurrence, xcode_stem, Occ,
    ROLE_CALL, ROLE_DEFINITION,
};
use codegraph::query::{
    ask_context, ask_prompt, detect, fmt, fts_query_from, long_words, pick_scip, read_snippet,
    resolve, show, snippet, words_query, Markers,
};
use codegraph::store::Store;
use codegraph::types::{
    Confidence, Edge, EdgeRelation, MetaValue, Metadata, Node, NodeLabel, RawCall, Receiver,
    ResolutionTier,
};
use codegraph::words::Letter;

fn node(id: &str, name: &str, file: &str, from: u32, to: u32) -> Node {
    Node {
        id: id.into(),
        label: NodeLabel::Function,
        name: name.into(),
        file_path: file.into(),
        line_start: from,
        line_end: to,
        language: "rust".into(),
        metadata: Metadata::new(),
        community: None,
        pagerank: 0,
        betweenness: 0,
    }
}

#[test]
fn questions_become_queries() {
    assert_eq!(fts_query_from("fix(order-flow): the Order"), "fix* OR order* OR flow* OR the*");
    assert_eq!(fts_query_from("a b"), "");
    assert_eq!(
        fts_query_from("one two three four five six seven eight nine ten"),
        "one* OR two* OR three* OR four* OR five* OR six* OR seven* OR eight*"
    );
}

#[test]
fn queries_follow_what_is_said_of_letters() {
    // a character is part of a word where it is said to be one, whatever it is
    let told = |s: &str, part: bool| -> Vec<Letter> {
        s.chars()
            .map(|c| Letter { c, alphanumeric: part, uppercase: false, lowercase: false })
            .collect()
    };
    let mut l = told("abc", true);
    l.extend(told("d", false));
    l.extend(told("--", true));
    l.extend(told("é", true));
    l.extend(told("xy", false));
    l.extend(told("_z", true));
    assert_eq!(long_words(&l), vec!["abc".to_string(), "--é".to_string()]);
    let pair = |a: &str, b: &str| (a.to_string(), b.to_string());
    assert_eq!(
        words_query(&vec![pair("Été", "q"), pair("other", "r"), pair("ÉTÉ", "q")]),
        "Été* OR other*"
    );
    assert_eq!(words_query(&vec![]), "");
    assert_eq!(fts_query_from("Été été l'hiver"), "Été* OR hiver*");
}

#[test]
fn snippets_are_cut() {
    let t = "l1\nl2\r\nl3\nl4";
    assert_eq!(read_snippet(t, 2, 3), Some("l2\nl3".into()));
    assert_eq!(read_snippet(t, 0, 0), Some("l1".into()));
    assert_eq!(read_snippet(t, 4, 99), Some("l4".into()));
    assert_eq!(read_snippet(t, 5, 6), None);
    assert_eq!(snippet(t, 1, 4, 2), Some("l1\nl2".into()));
    let long: String = (1..=20).map(|i| format!("{i}\n")).collect();
    assert_eq!(read_snippet(&long, 1, 20).unwrap().lines().count(), 12);
}

#[test]
fn nodes_are_shown() {
    let nodes = vec![node("p.f", "f", "a.rs", 3, 4), node("p.g", "f", "b.rs", 1, 1)];
    assert_eq!(resolve(&nodes, "f").unwrap().id, "p.f");
    assert!(resolve(&nodes, "x").is_none());
    assert_eq!(show(&nodes[0]), "f                        Function  a.rs:3");
    assert_eq!(fmt(&nodes, "p.f"), show(&nodes[0]));
    assert_eq!(fmt(&nodes, "p.nowhere"), "p.nowhere");
    let context = ask_context(&nodes, &vec![Some("fn f() {}".into()), None]);
    assert!(context.contains("fn f() {}") && context.contains("a.rs:3"));
    let prompt = ask_prompt(&context, "what is f?");
    assert!(prompt.contains(&context) && prompt.contains("what is f?"));
}

#[test]
fn indexers_are_detected() {
    let none = Markers {
        tsconfig_json: false,
        package_json: false,
        cargo_toml: false,
        pyproject_toml: false,
        setup_py: false,
        requirements_txt: false,
        pom_xml: false,
        build_gradle: false,
        build_gradle_kts: false,
        go_mod: false,
    };
    assert!(detect(&none).is_none());
    let rust = detect(&Markers { cargo_toml: true, go_mod: true, ..none }).unwrap();
    assert_eq!((rust.lang, rust.bin), ("rust", "rust-analyzer"));
    assert_eq!(rust.args, vec!["scip", "."]);
    assert_eq!(detect(&Markers { package_json: true, cargo_toml: true, ..none }).unwrap().lang, "typescript");
    assert_eq!(detect(&Markers { setup_py: true, ..none }).unwrap().lang, "python");
    assert_eq!(detect(&Markers { build_gradle_kts: true, ..none }).unwrap().lang, "java");
    let go = detect(&Markers { go_mod: true, ..none }).unwrap();
    assert_eq!(go.lang, "go");
    assert!(go.args.is_empty());
}

#[test]
fn numbers_are_drawn() {
    let mut x = XorShift(1);
    // 1 ^ 1<<13 = 8193; ^ >>7 = 8257; ^ <<17
    let a: u64 = 1 ^ (1 << 13);
    let b: u64 = a ^ (a >> 7);
    let c: u64 = b ^ (b << 17);
    assert_eq!(x.next(), c);
    let drawn = sample(42, 10, 100);
    assert_eq!(drawn.len(), 10);
    assert!(drawn.iter().all(|i| *i < 100));
    let mut other = drawn.clone();
    other.sort();
    other.dedup();
    assert_eq!(other.len(), 10);
    assert_eq!(sample(42, 10, 100), drawn);
    assert_eq!(sample(42, 10, 3).len(), 3);
    assert_eq!(sample(7, 5, 5), vec![0, 1, 2, 3, 4]);
    assert!(sample(7, 5, 0).is_empty());
    assert!(sample(7, 0, 5).is_empty());
}

fn edge(src: &str, dst: &str, tier: ResolutionTier, why: &str, file: &str) -> Edge {
    let mut metadata = Metadata::new();
    metadata.insert("justification".into(), MetaValue::Text(why.into()));
    Edge {
        src: src.into(),
        dst: dst.into(),
        relation: EdgeRelation::Calls,
        tier,
        confidence: Confidence::Extracted,
        src_file: file.into(),
        src_line: 1,
        metadata,
    }
}

#[test]
fn an_audit_needs_an_oracle() {
    let mut s = Store::new();
    s.bulk_upsert_nodes(&vec![
        node("p.f", "f", "a.rs", 1, 2),
        node("p.g", "g", "a.rs", 3, 4),
        node("p.h", "h", "a.rs", 5, 6),
    ]);
    let call = |name: &str| RawCall {
        caller_id: "p.f".into(),
        callee_name: name.into(),
        line: 1,
        receiver: Receiver::Bare,
        enclosing_class: None,
    };
    s.save_calls("a.rs", &vec![call("g"), call("h")]);
    assert!(s.audit(10, 1).is_none());
    s.bulk_upsert_edges(&vec![edge("p.f", "p.h", ResolutionTier::Scip, "Scip", "a.rs")]);
    let a = s.audit(10, 1).unwrap();
    assert_eq!(a.oracle_edges, 1);
    assert_eq!(a.oracle_languages, vec!["rust".to_string()]);
    assert_eq!(a.sampled, 2);
    assert_eq!((a.checked, a.confirmed), (2, 1));
    assert_eq!(a.tiers.len(), 1);
    assert_eq!(a.tiers[0].tier, "SameFileUnique");
    assert_eq!((a.tiers[0].checked, a.tiers[0].confirmed, a.tiers[0].unverifiable), (2, 1, 0));
    let one = s.audit(1, 1).unwrap();
    assert_eq!(one.sampled, 1);
    assert_eq!(one.tiers.iter().map(|t| t.checked + t.unverifiable).sum::<usize>(), 1);
}

#[test]
fn occurrences_become_edges() {
    let nodes = vec![node("p.f", "f", "a.swift", 1, 9), node("p.g", "g", "a.swift", 11, 12)];
    let occ = |usr: &str, roles: u64, line: u32, caller: Option<&str>| Occ {
        usr: usr.into(),
        roles,
        file: "a.swift".into(),
        line,
        caller_usr: caller.map(|c| c.to_string()),
    };
    let occs = vec![
        occ("s:f", ROLE_DEFINITION, 1, None),
        occ("s:g", ROLE_DEFINITION, 11, None),
        occ("s:g", ROLE_CALL, 4, Some("s:f")),
        occ("s:g", ROLE_CALL, 5, Some("s:f")),
    ];
    let edges = import_indexstore(&occs, &nodes);
    assert_eq!(edges.len(), 1);
    assert_eq!((edges[0].src.as_str(), edges[0].dst.as_str()), ("p.f", "p.g"));
    assert_eq!(edges[0].metadata.get("justification"), Some(&MetaValue::Text("IndexStore".into())));
    let both = split_occurrence(occ("s:g", ROLE_DEFINITION | ROLE_CALL, 4, Some("s:f")));
    assert!(!both.is_empty());
    assert!(read_occurrences("/store", "/root").is_err());
}

#[test]
fn indexes_are_picked() {
    let names = |v: &[&str]| v.iter().map(|s| s.to_string()).collect::<Vec<String>>();
    assert_eq!(pick_scip(&names(&["a.rs", "b.scip", "index.scip"])), Some(2));
    assert_eq!(pick_scip(&names(&["a.rs", ".scip", "b.scip", "c.scip"])), Some(2));
    assert_eq!(pick_scip(&names(&["a.rs"])), None);
    assert_eq!(xcode_stem("App.xcodeproj"), Some("App".into()));
    assert_eq!(xcode_stem("My.App.xcworkspace"), Some("My.App".into()));
    assert_eq!(xcode_stem("App.swift"), None);
    assert!(is_derived_data_of("App-abc123", &names(&["Other", "App"])));
    assert!(!is_derived_data_of("Apple-abc123", &names(&["App"])));
}
