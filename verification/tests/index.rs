use codegraph::history::compute_cochanges;
use codegraph::ignores::{is_downward, unmarked, IgnoreRules};
use codegraph::index::ParsedItem;
use codegraph::indexstore::{freshest, searches_in};
use codegraph::listing::{
    classify, combine_listings, excluded, is_tsconfig, is_watched, listed_directories,
    listed_files,
};
use codegraph::rebuild::{extend_superseding, Flags, Score};
use codegraph::scan::{document_nodes, looks_binary, read_file, FileInfo};
use codegraph::store::Store;
use codegraph::tables::CoChange;
use codegraph::tsconfig::AliasMap;
use codegraph::types::{
    Confidence, Edge, EdgeRelation, MetaValue, Metadata, Node, NodeLabel, ResolutionTier,
};
use codegraph::update::{embed_text_for, EmbedPlan, Reach, Updated};
use codegraph::viz::meta_u64;

const ENGINE: &str = "1+0.1.0";

fn tnode(id: &str) -> Node {
    Node {
        id: id.into(),
        label: NodeLabel::Function,
        name: id.rsplit('.').next().unwrap_or(id).into(),
        file_path: "t.py".into(),
        line_start: 1,
        line_end: 1,
        language: "python".into(),
        metadata: Metadata::new(),
        community: None,
        pagerank: 0,
        betweenness: 0,
    }
}

fn tedge(src: &str, dst: &str, justification: &str) -> Edge {
    let mut metadata = Metadata::new();
    metadata.insert("justification".into(), MetaValue::Text(justification.into()));
    Edge {
        src: src.into(),
        dst: dst.into(),
        relation: EdgeRelation::Calls,
        tier: ResolutionTier::Scip,
        confidence: Confidence::Extracted,
        src_file: "t.py".into(),
        src_line: 1,
        metadata,
    }
}

fn infos(tree: &[(&str, &str, i64)]) -> Vec<FileInfo> {
    tree.iter()
        .map(|(rel, text, mtime)| FileInfo {
            rel: rel.to_string(),
            is_file: true,
            len: text.len() as u64,
            mtime: *mtime,
        })
        .collect()
}

/// What stands for the graph algorithms: a score by the id.
fn score(n: &Node) -> Score {
    let sum: u64 = n.id.bytes().map(u64::from).sum();
    Score { community: n.id.len() as u32, pagerank: sum, betweenness: sum * 3 }
}

/// The nodes of a store in all of their fields, without their order.
fn nodes_of(s: &Store) -> Vec<Node> {
    let mut v = s.all_nodes();
    v.sort_by(|a, b| a.id.cmp(&b.id));
    v
}

/// A run over a tree of files, each with its text and the time of its change.
fn run(store: &mut Store, tree: &[(&str, &str, i64)]) -> Updated {
    let fresh = store.manifest_map().is_empty();
    let full = store.begin("/repo", ENGINE, "none", false);
    let files = infos(tree);
    let reads = store.plan_reads(full, &files);
    let sources: Vec<Option<String>> = tree
        .iter()
        .zip(&reads)
        .map(|((_, text, _), read)| if *read { Some(text.to_string()) } else { None })
        .collect();
    let scan = store.scan(full, &files, &sources);
    let items: Vec<ParsedItem> = scan
        .changed
        .iter()
        .map(|c| {
            let (rel, text, mtime) = tree[c.at];
            ParsedItem {
                rel: rel.to_string(),
                sha: c.sha.clone(),
                mtime,
                parsed: read_file("repo", rel, text, c.document, &vec![]),
            }
        })
        .collect();
    let flags = Flags {
        full,
        fresh,
        ambiguous_given: false,
        scip_changed: false,
        scip_reacquire: false,
        indexstore: false,
        indexstore_newer: false,
    };
    let aliases = AliasMap { scopes: vec![] };
    let done = store.update(&items, &aliases, &scan.seen, flags, None, &vec![], &vec![]);
    let nodes = store.graph_nodes();
    let rows = store.analytics(&nodes, &nodes.iter().map(score).collect());
    let faults =
        store.finish(&rows, &None, &vec![], done.reach == Reach::Wave || done.reach == Reach::Nothing);
    assert!(faults.is_empty(), "{faults:?}");
    done
}

/// The edges of a store, without their order.
fn edges_of(s: &Store) -> Vec<(String, String, String)> {
    let mut v: Vec<_> = s
        .all_edges()
        .into_iter()
        .map(|e| (e.src, e.dst, e.relation.as_str().to_string()))
        .collect();
    v.sort();
    v
}

#[test]
fn reuse_filters_dangling_edges() {
    let mut store = Store::new();
    let nodes = vec![tnode("p.a"), tnode("p.b")];
    store.bulk_upsert_nodes(&nodes);
    store.bulk_upsert_edges(&vec![
        tedge("p.a", "p.b", "IndexStore"),
        tedge("p.a", "p.ghost", "IndexStore"),
    ]);
    let mut edges = Vec::new();
    let (reused, dropped) = store.reuse_persisted_edges("IndexStore", &nodes, &mut edges);
    assert_eq!((reused, dropped), (1, 1));
    assert_eq!(edges.len(), 1);
    assert_eq!((edges[0].src.as_str(), edges[0].dst.as_str()), ("p.a", "p.b"));
}

#[test]
fn compiler_edges_take_the_place_of_others() {
    let mut edges = vec![tedge("p.a", "p.b", "SameFileUnique"), tedge("p.a", "p.c", "SameFileUnique")];
    extend_superseding(&mut edges, &vec![tedge("p.a", "p.b", "Scip")]);
    let got: Vec<(&str, Option<&MetaValue>)> =
        edges.iter().map(|e| (e.dst.as_str(), e.metadata.get("justification"))).collect();
    assert_eq!(
        got,
        vec![
            ("p.c", Some(&MetaValue::Text("SameFileUnique".into()))),
            ("p.b", Some(&MetaValue::Text("Scip".into()))),
        ]
    );
}

#[test]
fn partial_rebuild_heals_spared_compiler_edge() {
    let mut store = Store::new();
    let before = "def helper():\n    return 1\n\ndef caller():\n    helper()\n";
    let after = "def helper():\n    return 2\n\ndef caller():\n    helper()\n";
    run(&mut store, &[("a.py", before, 1)]);
    let src = store.graph_nodes().iter().find(|n| n.name == "caller").unwrap().id.clone();
    store.bulk_upsert_edges(&vec![tedge(&src, "p.ghost", "IndexStore")]);
    assert!(!store.validate_graph().is_empty(), "injection produced a dangling edge");
    let s = run(&mut store, &[("a.py", after, 2)]);
    assert_eq!(s.reach, Reach::Wave, "body-only edit must take the partial path");
    assert!(store.validate_graph().is_empty(), "dangling edge healed before commit");
    let mut fresh = Store::new();
    run(&mut fresh, &[("a.py", after, 2)]);
    assert_eq!(edges_of(&store), edges_of(&fresh));
    assert_eq!(store.meta_get("healed_edges_last"), Some("1".to_string()));
}

#[test]
fn body_edit_equals_a_full_run() {
    let b = ("b.py", "def other():\n    lonely()\n\ndef lonely():\n    pass\n", 1);
    let mut store = Store::new();
    let first =
        run(&mut store, &[("a.py", "def helper():\n    return 1\n\ndef caller():\n    helper()\n", 1), b]);
    assert_eq!(first.reach, Reach::Everything, "first index is a full build");
    assert_eq!(store.callers_of("helper").len(), 1);
    let after = ("a.py", "def helper():\n    return 2\n\ndef caller():\n    return 3\n", 2);
    assert_eq!(run(&mut store, &[after, b]).reach, Reach::Wave);
    assert!(store.callers_of("helper").is_empty(), "the dropped call is gone");
    assert_eq!(store.callers_of("lonely").len(), 1, "the other file keeps its edges");
    let mut fresh = Store::new();
    run(&mut fresh, &[after, b]);
    assert_eq!(edges_of(&store), edges_of(&fresh));
    assert_eq!(nodes_of(&store), nodes_of(&fresh), "metadata and scores too");
    let lonely = nodes_of(&store).into_iter().find(|n| n.name == "lonely").unwrap();
    assert_eq!(meta_u64(&lonely, "fan_in"), 1);
    assert_eq!(lonely.community, Some(lonely.id.len() as u32));
    assert_eq!(store.generation(), 2);
}

#[test]
fn an_unchanged_tree_is_left_alone() {
    let tree = [("a.py", "def f():\n    g()\n\ndef g():\n    pass\n", 5)];
    let mut store = Store::new();
    run(&mut store, &tree);
    let before = edges_of(&store);
    assert_eq!(store.plan_reads(false, &infos(&tree)), vec![false]);
    let again = run(&mut store, &tree);
    assert_eq!(again.reach, Reach::Nothing);
    assert_eq!((again.changed, again.pruned), (0, 0));
    assert_eq!(edges_of(&store), before);
    // touched, with the same text
    let touched = run(&mut store, &[("a.py", tree[0].1, 6)]);
    assert_eq!(touched.reach, Reach::Nothing);
    assert_eq!(store.manifest_for("a.py").unwrap().mtime, 6);
}

#[test]
fn wave_handles_pruned_file() {
    let mut store = Store::new();
    let b = ("b.py", "def other():\n    helper()\n", 1);
    run(&mut store, &[("a.py", "def helper():\n    return 1\n", 1), b]);
    let s = run(&mut store, &[b]);
    assert_eq!(s.reach, Reach::Wave, "fn-only prune takes the wave path");
    assert_eq!(s.pruned, 1);
    assert!(store.callers_of("helper").is_empty());
    assert!(store.validate_graph().is_empty(), "no dangling edges after prune");
    assert!(store.manifest_for("a.py").is_none());
}

#[test]
fn class_change_falls_back_to_full_rebuild() {
    let mut store = Store::new();
    run(&mut store, &[("a.py", "def helper():\n    return 1\n", 1)]);
    let s = run(
        &mut store,
        &[("a.py", "def helper():\n    return 1\n\nclass NewThing:\n    pass\n", 2)],
    );
    assert_eq!(s.reach, Reach::Everything, "class addition must force the full path");
    assert!(store.validate_graph().is_empty());
}

#[test]
fn engine_version_change_forces_rebuild() {
    let tree = [("a.py", "def foo():\n    return 1\n", 3)];
    let mut store = Store::new();
    run(&mut store, &tree);
    assert!(!store.needs_update(ENGINE, &None, &infos(&tree)));
    store.meta_set("parser_version", "0+0.0.0");
    assert!(store.needs_update(ENGINE, &None, &infos(&tree)), "an old engine stamp must read as stale");
    assert!(store.begin("/repo", ENGINE, "none", false));
}

#[test]
fn ensure_fresh_detects_every_change_class() {
    let mut store = Store::new();
    let one = [("a.py", "def foo():\n    return 1\n", 1)];
    assert!(store.needs_update(ENGINE, &None, &infos(&one)), "never-indexed project is stale");
    run(&mut store, &one);
    assert!(!store.needs_update(ENGINE, &None, &infos(&one)), "clean right after index");
    let edited = [("a.py", "def bar():\n    return 2\n", 2)];
    assert!(store.needs_update(ENGINE, &None, &infos(&edited)), "edit detected");
    run(&mut store, &edited);
    assert!(!store.needs_update(ENGINE, &None, &infos(&edited)), "clean after heal");
    let added = [edited[0], ("b.py", "def baz():\n    pass\n", 3)];
    assert!(store.needs_update(ENGINE, &None, &infos(&added)), "added file detected");
    run(&mut store, &added);
    assert!(store.needs_update(ENGINE, &None, &infos(&edited)), "deleted file detected");
}

#[test]
fn identity_stamp_and_check() {
    let mut store = Store::new();
    // a graph without a stamp passes
    assert!(store.check_identity("/c/g.db", "/repo").is_ok());
    run(&mut store, &[("a.py", "def f():\n    return 1\n", 1)]);
    assert_eq!(store.meta_get("repo_root"), Some("/repo".to_string()));
    assert!(store.check_identity("/c/g.db", "/repo").is_ok());
    let e = store.check_identity("/c/g.db", "/other").unwrap_err();
    assert!(e.contains("was built for"), "unexpected error: {e}");
    assert!(e.contains("/repo") && e.contains("/other"), "{e}");
}

#[test]
fn scip_gating_and_file_stamp() {
    let mut store = Store::new();
    run(&mut store, &[("a.py", "def f():\n    return 1\n", 1)]);
    assert_eq!(store.meta_get("scip_auto"), None, "no opt-in without a merged .scip");
    assert!(store.meta_or_default("scip_pending").is_empty());
    assert!(!store.scip_wants_reacquire(false, &Some("abc".into())));
    assert!(!store.scip_file_changed(false, &None));
    assert!(store.scip_file_changed(false, &Some("12".into())), "new .scip must be picked up");
    store.meta_set("scip_file_mtime", "12");
    assert!(!store.scip_file_changed(false, &Some("12".into())));
    assert!(store.scip_file_changed(true, &Some("12".into())), "explicit --scip always merges");
    // once one was merged, a new commit asks for another run, and only one
    store.note_scip(&Some("13".into()), true, "abc");
    let head = Some("def".to_string());
    assert!(!store.scip_wants_run(false, &Some("abc".into())));
    assert!(store.scip_wants_run(false, &head));
    assert!(!store.scip_wants_run(true, &head));
    store.meta_set("scip_pending", "def");
    assert!(!store.scip_wants_run(false, &head));
    assert!(store.scip_wants_reacquire(false, &head));
}

#[test]
fn binary_sniff_skips_nul_files() {
    let bin = "function evil() {}\n\0\0generated blob";
    assert!(looks_binary(bin));
    assert!(!looks_binary("def fine():\n    pass\n"));
    let mut store = Store::new();
    run(&mut store, &[("bin.js", bin, 1), ("ok.py", "def fine():\n    pass\n", 1)]);
    assert!(store.find_by_name("evil").is_empty(), "NUL file must contribute no symbols");
    assert_eq!(store.find_by_name("fine").len(), 1);
    assert!(
        store.manifest_map().iter().any(|m| m.file_path == "bin.js"),
        "must stay manifested"
    );
}

#[test]
fn listings_are_filtered() {
    let listing = b"src/a.rs\0node_modules/dep.py\0.gitignore\0".to_vec();
    assert_eq!(listed_files(&listing), vec!["src/a.rs".to_string(), ".gitignore".to_string()]);
    let dirs = b"sub/\0node_modules/\0a.rs\0".to_vec();
    assert_eq!(listed_directories(&dirs), vec!["sub".to_string()]);
    assert!(excluded("node_modules/dep.py"));
    assert!(!excluded("src/a.rs"));
    assert!(is_watched("/repo/src/a.rs"));
    assert!(!is_watched("/repo/target/debug/a.rs"));
    assert!(!is_watched("/repo/.codegraph-cache/graph.db"));
    assert!(is_tsconfig("web/tsconfig.app.json"));
    assert!(!is_tsconfig("web/package.json"));
    assert_eq!(classify("a.rs", true, 10), Some(false));
    assert_eq!(classify("README.md", true, 10), Some(true));
    assert_eq!(classify("a.rs", false, 10), None);
    assert_eq!(classify("a.bin", true, 10), None);
    let own = vec!["a.rs".to_string()];
    assert_eq!(
        combine_listings(own, &vec![Some(vec!["sub/b.rs".to_string()])]),
        Some(vec!["a.rs".to_string(), "sub/b.rs".to_string()])
    );
    assert_eq!(combine_listings(vec![], &vec![None]), None);
}

#[test]
fn documents_become_nodes() {
    let nodes = document_nodes("docs/a.md", "md", &vec!["# Title\ntext".into(), "more".into()]);
    assert_eq!(nodes.len(), 2);
    assert!(nodes.iter().all(|n| n.label == NodeLabel::Document && n.file_path == "docs/a.md"));
    assert_ne!(nodes[0].id, nodes[1].id);
    assert_eq!(nodes[0].metadata.get("text"), Some(&MetaValue::Text("# Title\ntext".into())));
}

#[test]
fn cochanges_are_counted() {
    let log = "\0\nb.rs\na.rs\n\n\0\na.rs\nb.rs\nc.rs\n\n\0\nc.rs\n";
    let got = compute_cochanges(log);
    assert_eq!(got, vec![CoChange { file_a: "a.rs".into(), file_b: "b.rs".into(), n: 2 }]);
}

#[test]
fn scores_become_rows() {
    let mut store = Store::new();
    run(&mut store, &[("a.py", "def f():\n    g()\n\ndef g():\n    pass\n", 1)]);
    let nodes = store.graph_nodes();
    let scores: Vec<Score> =
        (0..nodes.len()).map(|i| Score { community: i as u32, pagerank: 1, betweenness: 2 }).collect();
    let rows = store.analytics(&nodes, &scores);
    let g = rows.iter().find(|a| a.id.ends_with(".g")).unwrap();
    let f = rows.iter().find(|a| a.id.ends_with(".f")).unwrap();
    assert_eq!((g.fan_in, g.fan_out), (1, 0));
    assert_eq!((f.fan_in, f.fan_out), (0, 1));
}

#[test]
fn embedding_is_planned() {
    let mut store = Store::new();
    let changed = vec![tnode("p.a")];
    assert_eq!(store.plan_embedding(&changed), EmbedPlan::Nothing);
    store.meta_set("embed_model", "nomic");
    assert_eq!(store.plan_embedding(&changed), EmbedPlan::These(vec![0]));
    assert!(embed_text_for(&changed[0]).contains("a"));
}

fn texts(v: &[&str]) -> Vec<String> {
    v.iter().map(|s| s.to_string()).collect()
}

#[test]
fn an_ignore_file_leaves_paths_out() {
    let rules =
        IgnoreRules::read("\u{feff}# made by hand\r\n*.gen.rs\n/top.rs\ndocs/\n!keep.gen.rs").unwrap();
    let paths = [
        "src/a.rs", "src/b.gen.rs", "top.rs", "sub/top.rs", "docs/x.md", "a/docs/y/z.md",
        "keep.gen.rs", "docs.rs",
    ];
    assert_eq!(
        rules.keep(texts(&paths)),
        texts(&["src/a.rs", "sub/top.rs", "keep.gen.rs", "docs.rs"])
    );
    assert_eq!(IgnoreRules::read("").unwrap().keep(texts(&paths)), texts(&paths));
    assert!(IgnoreRules::read("fine\n{a,b\n").is_none());
    assert_eq!(unmarked(&texts(&["a", "b", "c"]), &vec![true, false, true]), texts(&["b"]));
    assert!(is_downward("a/b") && is_downward(".github/x"));
    assert!(!is_downward("/etc") && !is_downward("./a"));
}

#[test]
fn index_stores_are_searched_and_chosen() {
    assert!(searches_in("Sources", 0) && searches_in("Sources", 2));
    assert!(!searches_in("Sources", 3));
    assert!(!searches_in(".build", 0));
    assert!(!searches_in("Pods", 0) && !searches_in("node_modules", 1));
    assert_eq!(freshest(&vec![]), None);
    assert_eq!(freshest(&vec![3, 9, 9, 1]), Some(1));
    assert_eq!(freshest(&vec![5]), Some(0));
}
