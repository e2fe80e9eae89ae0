use codegraph::digest;
use codegraph::search::search_smart;
use codegraph::store::{Store, SCHEMA_VERSION};
use codegraph::store_edges::Analytics;
use codegraph::tables::{CoChange, VectorRow};
use codegraph::types::{
    Confidence, Edge, EdgeRelation, Hyperedge, HyperedgeMember, HyperedgeRelation, MetaValue,
    Metadata, Node, NodeLabel, RawCall, Receiver, ResolutionTier,
};

fn node(id: &str) -> Node {
    Node {
        id: id.into(),
        label: NodeLabel::Function,
        name: id.into(),
        file_path: "f.rs".into(),
        line_start: 1,
        line_end: 2,
        language: "rust".into(),
        metadata: Metadata::new(),
        community: None,
        pagerank: 0,
        betweenness: 0,
    }
}

fn call_edge(src: &str, dst: &str, tier: ResolutionTier, confidence: Confidence, line: u32) -> Edge {
    Edge {
        src: src.into(),
        dst: dst.into(),
        relation: EdgeRelation::Calls,
        tier,
        confidence,
        src_file: "f.rs".into(),
        src_line: line,
        metadata: Metadata::new(),
    }
}

fn raw(caller: &str, callee: &str) -> RawCall {
    RawCall {
        caller_id: caller.into(),
        callee_name: callee.into(),
        line: 1,
        receiver: Receiver::Bare,
        enclosing_class: None,
    }
}

#[test]
fn schema_migrates_and_versions() {
    let s = Store::new();
    assert_eq!(s.schema_version(), SCHEMA_VERSION);
}

#[test]
fn search_ranks_code_first_dedups_and_caps_docs() {
    let mut s = Store::new();
    let mut nodes = vec![Node { name: "getProfile".into(), ..node("m.getprofile") }];
    for i in 0..8 {
        for c in 0..if i == 0 { 2 } else { 1 } {
            let mut md = Metadata::new();
            md.insert(
                "text".to_string(),
                MetaValue::Text(format!("rule {i}.{c}: never call getProfile here")),
            );
            nodes.push(Node {
                label: NodeLabel::Document,
                name: format!("doc {i}.{c} getProfile mention"),
                file_path: format!("docs/rule{i}.md"),
                metadata: md,
                ..node(&format!("doc.{i}.{c}"))
            });
        }
    }
    s.bulk_upsert_nodes(&nodes);
    // The full-text index answers with the documents first.
    let index = |q: &str, width: usize| -> Vec<Node> {
        let mut found: Vec<Node> =
            s.all_nodes().into_iter().filter(|n| n.name.contains(q)).collect();
        found.reverse();
        found.truncate(width);
        found
    };
    let hits = search_smart("getProfile", 20, index);
    assert_eq!(hits[0].name, "getProfile", "code symbol must outrank doc fragments");
    assert_eq!(hits[0].label, NodeLabel::Function);
    let docs: Vec<&Node> = hits.iter().filter(|n| n.label == NodeLabel::Document).collect();
    assert!(docs.len() <= 5, "docs must be capped to a footnote when code answered");
    assert!(!docs.is_empty());
    let mut files: Vec<&str> = docs.iter().map(|n| n.file_path.as_str()).collect();
    files.sort_unstable();
    files.dedup();
    assert_eq!(files.len(), docs.len(), "one row per document file");
}

#[test]
fn node_and_edge_roundtrip_with_fts() {
    let mut s = Store::new();
    s.upsert_node(&node("a"));
    s.upsert_node(&node("b"));
    s.upsert_edge(&call_edge("a", "b", ResolutionTier::TreeSitter, Confidence::Extracted, 1));
    assert_eq!(s.get_node("a").unwrap().name, "a");
    assert_eq!(s.get_edges_for_node("a").len(), 1);
    assert_eq!(s.get_edges_for_node("b").len(), 1);
}

#[test]
fn upsert_replaces_by_id() {
    let mut s = Store::new();
    s.upsert_node(&node("a"));
    s.upsert_node(&node("b"));
    s.upsert_node(&Node { name: "renamed".into(), ..node("a") });
    assert_eq!(s.node_count(), 2);
    assert_eq!(s.get_node("a").unwrap().name, "renamed");
    assert_eq!(s.get_node("b").unwrap().name, "b");
    assert!(s.get_node("c").is_none());
    assert!(s.find_by_name("a").is_empty());
    assert_eq!(s.find_by_name("renamed").len(), 1);
    // the same edge from another tier takes the place of the first
    s.upsert_edge(&call_edge("a", "b", ResolutionTier::TreeSitter, Confidence::Extracted, 1));
    s.upsert_edge(&call_edge("a", "b", ResolutionTier::Scip, Confidence::Inferred, 9));
    assert_eq!(s.edge_count(), 1);
    assert_eq!(s.all_edges()[0].tier, ResolutionTier::Scip);
    // one that is there already stays
    s.bulk_insert_edges_keep_existing(&vec![
        call_edge("a", "b", ResolutionTier::TreeSitter, Confidence::Extracted, 1),
        call_edge("b", "a", ResolutionTier::TreeSitter, Confidence::Extracted, 1),
    ]);
    assert_eq!(s.edge_count(), 2);
    assert_eq!(s.all_edges()[0].tier, ResolutionTier::Scip);
}

#[test]
fn hyperedge_roundtrip() {
    let mut s = Store::new();
    for id in ["a", "b", "c"] {
        s.upsert_node(&node(id));
    }
    let h = Hyperedge {
        id: "h1".into(),
        relation: HyperedgeRelation::Implement,
        label: "impls".into(),
        confidence: Confidence::Extracted,
        tier: ResolutionTier::TreeSitter,
        metadata: Metadata::new(),
    };
    let members: Vec<HyperedgeMember> = ["a", "b", "c"]
        .iter()
        .map(|n| HyperedgeMember { hyperedge_id: "h1".into(), node_id: (*n).into(), role: None })
        .collect();
    s.upsert_hyperedge(&h, &members);
    let got = s.get_hyperedges_for_node("b");
    assert_eq!(got.len(), 1);
    assert_eq!(got[0].1.len(), 3);
    s.clear_hyperedges();
    assert!(s.get_hyperedges_for_node("b").is_empty());
}

#[test]
fn coverage_counts_dropped_calls() {
    let mut s = Store::new();
    for id in ["foo", "c1", "c2", "c3"] {
        s.upsert_node(&node(id));
    }
    s.upsert_edge(&call_edge("c1", "foo", ResolutionTier::TreeSitter, Confidence::Extracted, 1));
    s.save_calls("f.rs", &vec![raw("c1", "foo"), raw("c2", "foo"), raw("c3", "foo")]);

    let cov = s.coverage_for_callers("foo");
    assert_eq!(cov.total_call_sites, 3);
    assert_eq!(cov.resolved, 1);
    assert_eq!(cov.dropped, 2);
    assert!(cov.may_be_incomplete);

    let out = s.coverage_for_callees("c1");
    assert_eq!(out.total_call_sites, 1);
    assert_eq!(out.resolved, 1);
    assert!(!out.may_be_incomplete);
}

#[test]
fn manifest_and_context_roundtrip() {
    let mut s = Store::new();
    s.save_manifest("f.rs", "deadbeef", 123);
    assert_eq!(s.manifest_for("f.rs").unwrap().sha256, "deadbeef");
    assert!(s.manifest_for("missing").is_none());
    s.add_context("src/auth", "handles login", 1);
    let ctx = s.contexts_for("src/");
    assert_eq!(ctx.len(), 1);
    assert_eq!(ctx[0].summary, "handles login");
}

#[test]
fn zst_export_import_roundtrip() {
    let database: Vec<u8> = (0..4000u32).map(|i| (i % 7) as u8).collect();
    let zst = digest::export_zst(&database).unwrap();
    assert!(!zst.is_empty());
    assert!(zst.len() < database.len());
    assert_eq!(digest::import_zst(&zst).unwrap(), database);
    assert!(digest::import_zst(&vec![1, 2, 3]).is_err());
}

#[test]
fn delete_file_data_prunes_vectors() {
    let mut s = Store::new();
    s.upsert_node(&node("sym"));
    s.upsert_vector("sym", vec![0.1f32.to_bits(), 0.2f32.to_bits(), 0.3f32.to_bits()]);
    assert_eq!(s.all_vectors().len(), 1);
    s.delete_file_data("f.rs");
    assert_eq!(s.all_vectors().len(), 0, "embeddings must be pruned with their file's nodes");
}

#[test]
fn vectors_keep_one_dimension() {
    let mut s = Store::new();
    s.upsert_vectors(&vec![
        VectorRow { node_id: "x".into(), bits: vec![1, 0, 0] },
        VectorRow { node_id: "y".into(), bits: vec![0, 1] },
    ]);
    assert_eq!(s.all_vectors(), vec![VectorRow { node_id: "x".into(), bits: vec![1, 0, 0] }]);
    s.upsert_vector("x", vec![2, 2, 2]);
    assert_eq!(s.all_vectors(), vec![VectorRow { node_id: "x".into(), bits: vec![2, 2, 2] }]);
    s.upsert_vector("z", vec![]);
    assert_eq!(s.all_vectors().len(), 1);
    s.upsert_vector("z", vec![7]);
    assert_eq!(s.all_vectors(), vec![VectorRow { node_id: "z".into(), bits: vec![7] }]);
}

#[test]
fn the_dimension_of_vectors_is_noted() {
    let mut s = Store::new();
    assert_eq!(s.meta_get("vec_dim"), None);
    s.upsert_vector("x", vec![1, 2, 3]);
    assert_eq!(s.meta_get("vec_dim"), Some("3".to_string()));
    s.upsert_vector("x", vec![1]);
    assert_eq!(s.meta_get("vec_dim"), Some("1".to_string()));
    s.meta_set("vec_dim", "2");
    s.upsert_vector("y", vec![4]);
    assert_eq!(s.all_vectors(), vec![VectorRow { node_id: "y".into(), bits: vec![4] }]);
}

#[test]
fn moved_vectors_do_not_replace() {
    let mut s = Store::new();
    s.upsert_vector("x", vec![1]);
    s.migrate(
        Some(4),
        &vec![
            VectorRow { node_id: "x".into(), bits: vec![9] },
            VectorRow { node_id: "y".into(), bits: vec![2, 2] },
            VectorRow { node_id: "z".into(), bits: vec![3] },
        ],
    );
    assert_eq!(
        s.all_vectors(),
        vec![
            VectorRow { node_id: "x".into(), bits: vec![1] },
            VectorRow { node_id: "z".into(), bits: vec![3] },
        ]
    );
}

#[test]
fn a_null_justification_is_none() {
    let mut s = Store::new();
    s.upsert_node(&node("a"));
    s.upsert_node(&node("b"));
    let mut e = call_edge("a", "b", ResolutionTier::TreeSitter, Confidence::Inferred, 1);
    let fault = vec!["CALLS edge without justification: a -> b".to_string()];
    s.upsert_edge(&e);
    assert_eq!(s.validate_graph(), fault);
    e.metadata.insert("justification".into(), MetaValue::Json("null".into()));
    s.upsert_edge(&e);
    assert_eq!(s.validate_graph(), fault);
    e.metadata.insert("justification".into(), MetaValue::Json("[]".into()));
    s.upsert_edge(&e);
    assert!(s.validate_graph().is_empty());
    e.metadata.insert("justification".into(), MetaValue::Text("null".into()));
    s.upsert_edge(&e);
    assert!(s.validate_graph().is_empty());
}

#[test]
fn commits_are_counted_from_the_leading_number() {
    let mut s = Store::new();
    let mut next = |noted: &str| {
        s.meta_set("generation", noted);
        s.bump_generation();
        s.meta_get("generation").unwrap()
    };
    assert_eq!(next("12abc"), "13");
    assert_eq!(next("-3"), "-2");
    assert_eq!(next(" +7 8"), "8");
    assert_eq!(next("-1"), "0");
    assert_eq!(next("abc"), "1");
    assert_eq!(next(""), "1");
    assert_eq!(next("-99999999999999999999"), "-9223372036854775807");
    assert_eq!(next("9223372036854775806"), "9223372036854775807");
}

#[test]
fn callers_of_query() {
    let mut s = Store::new();
    s.upsert_node(&node("main"));
    s.upsert_node(&node("helper"));
    s.upsert_edge(&call_edge("main", "helper", ResolutionTier::TreeSitter, Confidence::Inferred, 1));
    let callers = s.callers_of("helper");
    assert_eq!(callers.len(), 1);
    assert_eq!(callers[0].name, "main");
    assert!(s.callers_of("main").is_empty());
}

#[test]
fn graph_nodes_strips_doc_text_only() {
    let mut s = Store::new();
    let mut doc = node("doc1");
    doc.metadata.insert("text".into(), MetaValue::Text("a huge chunk".into()));
    doc.metadata.insert("content_type".into(), MetaValue::Text("md".into()));
    s.upsert_node(&doc);
    let light = &s.graph_nodes()[0];
    assert!(light.metadata.get("text").is_none(), "chunk text stripped");
    assert_eq!(light.metadata.get("content_type"), Some(&MetaValue::Text("md".into())));
    assert_eq!(light.id, "doc1");
    assert!(s.get_node("doc1").unwrap().metadata.get("text").is_some());
}

#[test]
fn graph_edges_matches_all_edges_topology() {
    let mut s = Store::new();
    s.upsert_node(&node("a"));
    s.upsert_node(&node("b"));
    s.upsert_edge(&call_edge("a", "b", ResolutionTier::Scip, Confidence::Inferred, 7));
    let (full, light) = (s.all_edges(), s.graph_edges());
    assert_eq!(full.len(), 1);
    assert_eq!(light, full, "typed-column load must equal the JSON load");
}

#[test]
fn update_analytics_syncs_columns_and_json() {
    let mut s = Store::new();
    s.upsert_node(&node("f"));
    s.update_analytics(&vec![Analytics {
        id: "f".into(),
        community: 2,
        pagerank: 0.5f64.to_bits(),
        betweenness: 1.5f64.to_bits(),
        fan_in: 3,
        fan_out: 4,
    }]);
    let n = s.get_node("f").unwrap();
    assert_eq!(n.community, Some(2));
    assert_eq!(f64::from_bits(n.pagerank), 0.5);
    assert_eq!(f64::from_bits(n.betweenness), 1.5);
    assert_eq!(n.metadata.get("fan_in"), Some(&MetaValue::Count(3)));
    assert_eq!(n.metadata.get("fan_out"), Some(&MetaValue::Count(4)));
}

#[test]
fn generation_bumps_and_reads() {
    let mut s = Store::new();
    assert_eq!(s.generation(), 0);
    s.bump_generation();
    s.bump_generation();
    assert_eq!(s.generation(), 2);
    s.meta_set("generation", "many");
    assert_eq!(s.generation(), 0);
}

#[test]
fn calls_roundtrip_and_prune() {
    let mut s = Store::new();
    s.save_calls(
        "a.rs",
        &vec![RawCall {
            caller_id: "a.main".into(),
            callee_name: "helper".into(),
            line: 2,
            receiver: Receiver::Bare,
            enclosing_class: None,
        }],
    );
    assert_eq!(s.all_calls().len(), 1);
    s.delete_file_data("a.rs");
    assert_eq!(s.all_calls().len(), 0);
}

#[test]
fn saved_calls_replace_those_of_their_file() {
    let mut s = Store::new();
    s.save_calls("a.rs", &vec![raw("a.f", "x"), raw("a.f", "y")]);
    s.save_calls("b.rs", &vec![raw("b.f", "x")]);
    s.save_calls("a.rs", &vec![raw("a.g", "z")]);
    assert_eq!(s.calls_for_file("a.rs"), vec![raw("a.g", "z")]);
    assert_eq!(s.calls_for_file("b.rs"), vec![raw("b.f", "x")]);
    assert_eq!(s.files_with_calls_naming("x"), vec!["b.rs".to_string()]);
}

#[test]
fn facts_read_back() {
    let mut s = Store::new();
    assert_eq!(s.meta_get("k"), None);
    s.meta_set("k", "1");
    s.meta_set("other", "2");
    s.meta_set("k", "3");
    assert_eq!(s.meta_get("k"), Some("3".to_string()));
    assert_eq!(s.meta_get("other"), Some("2".to_string()));
    s.save_manifest("f.rs", "aa", 1);
    s.save_manifest("f.rs", "bb", 2);
    assert_eq!(s.manifest_map().len(), 1);
    s.delete_manifest("f.rs");
    assert!(s.manifest_for("f.rs").is_none());
}

#[test]
fn dangling_edges_are_found_and_dropped() {
    let mut s = Store::new();
    s.upsert_node(&node("a"));
    s.upsert_node(&node("b"));
    let why = || {
        let mut m = Metadata::new();
        m.insert("justification".into(), MetaValue::Text("SameFileUnique".into()));
        m
    };
    let edge = |dst: &str| Edge {
        metadata: why(),
        ..call_edge("a", dst, ResolutionTier::TreeSitter, Confidence::Extracted, 1)
    };
    s.upsert_edge(&edge("b"));
    assert!(s.validate_graph().is_empty());
    s.upsert_edge(&edge("ghost"));
    assert_eq!(s.validate_graph(), vec!["dangling edge: a -Calls-> ghost".to_string()]);
    assert_eq!(s.drop_dangling_edges(), 1);
    assert!(s.validate_graph().is_empty());
    assert_eq!(s.edge_count(), 1);
}

#[test]
fn cochanges_are_ranked() {
    let mut s = Store::new();
    let pair = |a: &str, b: &str, n: u32| CoChange { file_a: a.into(), file_b: b.into(), n };
    s.save_cochanges(&vec![pair("a", "b", 2), pair("a", "c", 5), pair("c", "d", 3)]);
    assert_eq!(s.top_cochanges(2), vec![pair("a", "c", 5), pair("c", "d", 3)]);
    let near: Vec<u32> = s.cochanges_for("a", 10).iter().map(|c| c.n).collect();
    assert_eq!(near, vec![5, 2]);
}

#[test]
fn search_by_pattern() {
    let mut s = Store::new();
    for id in ["alpha", "beta", "alphabet"] {
        s.upsert_node(&node(id));
    }
    let names = |p: &str, n: usize| -> Vec<String> {
        s.search_regex(p, n).unwrap().into_iter().map(|n| n.name).collect()
    };
    assert_eq!(names("^al", 10), vec!["alpha".to_string(), "alphabet".to_string()]);
    assert_eq!(names("^al", 1).len(), 1);
    assert!(names("^gamma$", 10).is_empty());
    assert!(s.search_regex("(", 10).is_err());
}

#[test]
fn older_files_are_migrated() {
    let mut s = Store::new();
    s.save_manifest("f.rs", "aa", 1);
    s.migrate(Some(SCHEMA_VERSION), &vec![VectorRow { node_id: "x".into(), bits: vec![1] }]);
    assert_eq!((s.manifest_map().len(), s.all_vectors().len()), (1, 0));
    s.migrate(None, &vec![]);
    s.migrate(Some(4), &vec![VectorRow { node_id: "x".into(), bits: vec![1] }]);
    assert_eq!((s.manifest_map().len(), s.all_vectors().len()), (1, 1));
    s.migrate(Some(3), &vec![]);
    assert_eq!((s.manifest_map().len(), s.all_vectors().len()), (0, 1));
}

#[test]
fn places_of_graphs() {
    let some = |s: &str| Some(s.to_string());
    assert_eq!(digest::cache_root(some("/c"), some("/x"), some("/h")), "/c");
    assert_eq!(digest::cache_root(None, some("/x"), some("/h")), "/x/codegraph");
    assert_eq!(digest::cache_root(None, None, some("/h")), "/h/.cache/codegraph");
    assert_eq!(digest::cache_root(None, None, None), ".codegraph-cache");
    // the first half of the hash of "abc"
    assert_eq!(digest::db_path("/c", "abc"), "/c/ba7816bf8f01cfea/graph.db");
    assert_eq!(digest::project_name(Some("/home/u/demo")), "demo");
    assert_eq!(digest::project_name(Some("/")), "project");
    assert_eq!(digest::project_name(None), "project");
}

#[test]
fn models_do_not_mix() {
    let mut s = Store::new();
    let rows = vec![VectorRow { node_id: "x".into(), bits: vec![1] }];
    assert!(!s.refresh_vectors("nomic", &rows));
    s.meta_set("embed_model", "nomic");
    assert!(!s.refresh_vectors("bge", &rows));
    assert!(s.all_vectors().is_empty());
    assert!(s.refresh_vectors("nomic", &rows));
    assert_eq!(s.all_vectors(), rows);
}
