use codegraph::explorer::{architecture, fill_page, pick_edges, pick_legend, pick_nodes, replace};
use codegraph::report::{count_labels, count_tiers, report, write_lines, ReportInputs};
use codegraph::snapshot::{GraphSnapshot, Reached};
use codegraph::store::Store;
use codegraph::store_queries::Coverage;
use codegraph::tools::{
    callers, ensure_answerable, fallback_hint, lang_family, mcp_ready, refresh_due, CallersAnswer,
    NameArgs, RoutesArgs, TwoNamesArgs,
};
use codegraph::tools_lists::{
    audit_state, changes, context, context_query, letters_query, preview, routes, signature,
    AuditState,
};
use codegraph::types::{
    Confidence, Edge, EdgeRelation, MetaValue, Metadata, Node, NodeLabel, RawCall, Receiver,
    ResolutionTier,
};
use codegraph::usage::Declaration;
use codegraph::viz::{count_texts, dominant_prefix, meta_u64};
use codegraph::words::Letter;

fn node(id: &str, file: &str, line: u32) -> Node {
    Node {
        id: format!("p.{id}"),
        label: NodeLabel::Function,
        name: id.into(),
        file_path: file.into(),
        line_start: line,
        line_end: line + 1,
        language: "rust".into(),
        metadata: Metadata::new(),
        community: Some(1),
        pagerank: 0,
        betweenness: 0,
    }
}

fn edge(src: &str, dst: &str) -> Edge {
    Edge {
        src: format!("p.{src}"),
        dst: format!("p.{dst}"),
        relation: EdgeRelation::Calls,
        tier: ResolutionTier::TreeSitter,
        confidence: Confidence::Extracted,
        src_file: "src/a.rs".into(),
        src_line: 1,
        metadata: Metadata::new(),
    }
}

/// `a` calls `b`, which calls `c`.
fn chain() -> Store {
    let mut s = Store::new();
    s.bulk_upsert_nodes(&vec![
        node("a", "src/a.rs", 1),
        node("b", "src/a.rs", 3),
        node("c", "src/c.rs", 1),
    ]);
    s.bulk_upsert_edges(&vec![edge("a", "b"), edge("b", "c")]);
    s
}

fn by_name(name: &str) -> NameArgs {
    NameArgs { name: name.into(), id: None }
}

#[test]
fn answers_need_a_graph() {
    assert!(mcp_ready());
    let e = ensure_answerable(&Store::new(), "/repo").unwrap_err();
    assert!(e.contains("/repo"), "{e}");
    assert!(ensure_answerable(&chain(), "/repo").is_ok());
    assert!(refresh_due(None));
    assert!(!refresh_due(Some(0)));
    assert!(refresh_due(Some(1_000_000)));
}

#[test]
fn languages_have_families() {
    for (p, f) in [
        ("a.tsx", "js"),
        ("a.pyi", "py"),
        ("a.rs", "rs"),
        ("a.kt", "jvm"),
        ("a.hpp", "c"),
        ("a", "other"),
        ("rs", "rs"),
    ] {
        assert_eq!(lang_family(p), f, "{p}");
    }
}

#[test]
fn incomplete_answers_say_so() {
    assert!(fallback_hint(&Coverage::of(2, 2), "f").is_none());
    let h = fallback_hint(&Coverage::of(1, 3), "f").unwrap();
    assert_eq!(
        h.why,
        "2 in-repo call site(s) naming 'f' did not resolve — the precise list is a LOWER BOUND"
    );
    assert!(h.run.starts_with("grep -rn \"f\\s*(\" --include=\"*.ts\""), "{}", h.run);
}

#[test]
fn callers_are_found_and_told_apart() {
    let mut s = chain();
    match callers(&s, &by_name("b"), &vec![]) {
        CallersAnswer::Resolved { .. } => {},
        _ => panic!("one definition"),
    }
    s.bulk_upsert_nodes(&vec![Node { name: "b".into(), ..node("b2", "src/z.rs", 9) }]);
    match callers(&s, &by_name("b"), &vec![]) {
        CallersAnswer::Ambiguous { .. } => {},
        _ => panic!("two definitions"),
    }
    match callers(&s, &NameArgs { name: "b".into(), id: Some("p.b".into()) }, &vec![]) {
        CallersAnswer::Ambiguous { .. } => panic!("pinned by its id"),
        _ => {},
    }
}

#[test]
fn the_graph_is_walked() {
    let s = chain();
    let g = GraphSnapshot::of(&s);
    assert_eq!(g.node_by_id("p.c").unwrap().name, "c");
    assert_eq!(g.node_by_name("c").unwrap().id, "p.c");
    assert!(g.node_by_name("zzz").is_none());
    let path = g.trace_path(&TwoNamesArgs { from: "a".into(), to: "c".into() });
    assert_eq!(path.len(), 3);
    assert!(g.trace_path(&TwoNamesArgs { from: "c".into(), to: "a".into() }).is_empty());
    let blast = g.blast_radius(&s, &by_name("c"));
    assert_eq!(blast.total_affected, 2);
    assert_eq!(blast.affected.len(), 2);
    assert!(blast.affected.iter().all(|r| matches!(r, Reached::Symbol { .. })));
    let out = g.callees(&s, &by_name("a"));
    assert_eq!(out.callees.len(), 1);
    assert_eq!(out.callees[0].name, "b");
    assert!(out.unresolved.is_empty());
}

fn route(method: &str, path: &str, line: u32) -> Node {
    let mut n = node(&format!("{method}.{line}"), "src/r.rs", line);
    n.label = NodeLabel::Route;
    n.name = format!("{method} {path}");
    n.metadata.insert("method".into(), MetaValue::Text(method.into()));
    n.metadata.insert("path".into(), MetaValue::Text(path.into()));
    n.metadata.insert("handler".into(), MetaValue::Text("h".into()));
    n
}

#[test]
fn routes_are_paged() {
    let mut s = Store::new();
    s.bulk_upsert_nodes(&vec![route("GET", "/a", 1), route("POST", "/a", 2), route("GET", "/b", 3)]);
    let args = |limit, offset, prefix: Option<&str>, method: Option<&str>| RoutesArgs {
        limit,
        offset,
        path_prefix: prefix.map(|p| p.to_string()),
        method: method.map(|m| m.to_string()),
    };
    let all = routes(&s, &args(None, None, None, None));
    assert_eq!((all.total, all.routes.len(), all.next), (3, 3, None));
    let page = routes(&s, &args(Some(2), None, None, None));
    assert_eq!((page.total, page.routes.len(), page.next), (3, 2, Some(2)));
    let rest = routes(&s, &args(Some(2), Some(2), None, None));
    assert_eq!((rest.routes.len(), rest.next), (1, None));
    let gets = routes(&s, &args(None, None, None, Some("get")));
    assert_eq!(gets.total, 2);
    let a = routes(&s, &args(None, None, Some("/a"), None));
    assert_eq!(a.total, 2);
    assert!(a.routes.iter().all(|r| r.path == "/a" && r.handler == "h"));
}

#[test]
fn touched_symbols_have_a_risk() {
    let mut s = chain();
    let call = |line: u32| RawCall {
        caller_id: "p.z".into(),
        callee_name: "c".into(),
        line,
        receiver: Receiver::Bare,
        enclosing_class: None,
    };
    s.save_calls("src/z.rs", &(1..=3).map(call).collect());
    let got = changes(&s, &vec!["src/c.rs".to_string()]);
    assert_eq!(got.affected_symbols.len(), 1);
    let c = &got.affected_symbols[0];
    assert_eq!((c.name.as_str(), c.fan_in, c.tested, c.risk), ("c", 3, false, "MED"));
}

#[test]
fn audits_go_stale() {
    assert!(matches!(audit_state(None, 3), AuditState::Missing));
    assert!(matches!(audit_state(Some("{broken"), 3), AuditState::Missing));
    assert!(matches!(audit_state(Some("{\"generation\":2}"), 3), AuditState::Stale(_)));
    assert!(matches!(audit_state(Some("{\"generation\":3}"), 3), AuditState::Current(_)));
}

#[test]
fn a_context_keeps_its_budget() {
    let s = chain();
    let g = GraphSnapshot::of(&s);
    let ranked = vec!["p.b".to_string(), "p.none".to_string(), "p.c".to_string()];
    let text = Some("fn a() {}\n\n  fn b() {}\n".to_string());
    let contents = vec![text, None, None];
    let (rows, used) = context(&g, &ranked, &contents, 1000);
    assert_eq!(rows.len(), 2);
    assert_eq!(rows[0].snippet, "fn b() {}");
    // (1 + 8 + 9) / 4 + 4, and (1 + 8) / 4 + 4
    assert_eq!(used, 14);
    assert_eq!(context(&g, &ranked, &contents, 8).0.len(), 1);
    assert!(context(&g, &ranked, &contents, 7).0.is_empty());
    assert_eq!(context_query("how does a-b it work?"), "how* OR does* OR ab* OR it* OR work*");
    assert_eq!(context_query("?"), "?");
    assert_eq!(context_query("où l'été"), "où* OR lété*");
    let told = |c: char, part: bool| Letter { c, alphanumeric: part, uppercase: false, lowercase: false };
    let l = vec![told('-', true), told('a', false), told('+', true), told('\t', true), told('x', true)];
    assert_eq!(letters_query(&l), "-+*");
    assert_eq!(letters_query(&vec![told('a', false), told('b', true)]), "ab");
    assert_eq!(signature(&Some("  x  \n".into()), 1), "x");
    assert_eq!(signature(&None, 1), "");
    assert!(preview(&"x".repeat(5000)).len() < 5000);
}

#[test]
fn pages_are_filled() {
    assert_eq!(replace("a%b%", "%", "--"), "a--b--");
    assert_eq!(replace("abc", "x", "y"), "abc");
    let page = fill_page("<t>__CODEGRAPH_TITLE__</t>__CODEGRAPH_DATA__", "demo", "{}");
    assert_eq!(page, "<t>demo</t>{}");
}

#[test]
fn drawn_edges_have_both_ends() {
    let s = chain();
    let picked = pick_nodes(&s.all_nodes(), 2);
    assert_eq!(picked.len(), 2);
    let drawn = pick_edges(&picked, &s.all_edges());
    assert!(drawn.iter().all(|e| e.from < 2 && e.to < 2));
    assert!(!pick_legend(&picked).is_empty());
}

#[test]
fn things_are_counted() {
    let texts = vec!["b".to_string(), "a".to_string(), "b".to_string()];
    assert_eq!(count_texts(&texts), vec![("a".to_string(), 1), ("b".to_string(), 2)]);
    let s = chain();
    assert_eq!(count_labels(&s.all_nodes()), vec![("Function".to_string(), 3)]);
    assert_eq!(dominant_prefix(&s.all_nodes()), "src");
    assert_eq!(dominant_prefix(&vec![node("x", "a/b/c.rs", 1)]), "a/b");
    assert_eq!(dominant_prefix(&vec![]), "misc");
    let mut n = node("x", "f", 1);
    assert_eq!(meta_u64(&n, "fan_in"), 0);
    n.metadata.insert("fan_in".into(), MetaValue::Count(4));
    assert_eq!(meta_u64(&n, "fan_in"), 4);
    assert_eq!(write_lines(&vec!["a".into(), "b".into()]), "a\nb\n");
}

#[test]
fn a_report_is_written() {
    let s = chain();
    let scores = vec![1; s.node_count()];
    let inputs = ReportInputs {
        project: "demo".into(),
        version: "0.1".into(),
        share: "50.0".into(),
        audit: None,
        scores,
        flows: vec![],
    };
    let text = report(&s, &inputs);
    assert!(text.contains("demo"), "{text}");
    assert!(text.starts_with("# CodeGraph report"), "{text}");
    assert!(text.contains("- **3 nodes**, **"), "{text}");
    assert!(text.contains("Function"), "{text}");
    let map = architecture(&s, &inputs.scores);
    assert_eq!(map.nodes_by_kind, vec![("Function".to_string(), 3)]);
    assert_eq!(map.routes, 0);
    assert_eq!(map.communities.len(), 1);
    assert_eq!(map.communities[0].symbols, 3);
    assert_eq!(map.communities[0].dir, "src/a.rs");
    assert_eq!(map.communities[0].key_symbols.len(), 3);
}

#[test]
fn usages_are_listed() {
    let mut s = chain();
    s.save_calls(
        "src/z.rs",
        &vec![RawCall {
            caller_id: "p.z".into(),
            callee_name: "c".into(),
            line: 1,
            receiver: Receiver::Bare,
            enclosing_class: None,
        }],
    );
    let defs = s.definitions_of("c");
    assert_eq!(defs.len(), 1);
    assert_eq!(defs[0].1, 1);
    assert_eq!(s.call_sites_by_file("c"), vec![("src/z.rs".to_string(), 1)]);
    let none: Vec<Declaration> = s.field_matches("c");
    assert!(none.is_empty());
    assert_eq!(
        s.type_usages("c", &vec![]),
        vec![("src/c.rs".to_string(), "definition".to_string())]
    );
}

fn reasoned(why: Option<MetaValue>) -> Edge {
    let mut e = edge("a", "b");
    if let Some(v) = why {
        e.metadata.insert("justification".into(), v);
    }
    e
}

#[test]
fn tiers_are_grouped_as_a_query_groups_them() {
    let text = |t: &str| Some(MetaValue::Text(t.into()));
    let json = |t: &str| Some(MetaValue::Json(t.into()));
    let count = |n: u64| Some(MetaValue::Count(n));
    let of = |whys: Vec<Option<MetaValue>>| {
        let edges: Vec<Edge> = whys.into_iter().map(reasoned).collect();
        count_tiers(&edges)
    };
    // What is missing and what is empty are two groups, and neither has a name.
    assert!(of(vec![None, text(""), json("null")]).is_empty());
    let got = of(vec![
        text("Scip"),
        text("Alpha"),
        text("Scip"),
        json("true"),
        count(1),
        json("-3"),
        count(10),
        json("[1]"),
        text("[1]"),
        text("[1]"),
    ]);
    let want: Vec<(String, usize)> = [("[1]", 3), ("1", 2), ("Scip", 2), ("-3", 1), ("10", 1), ("Alpha", 1)]
        .into_iter()
        .map(|(t, n)| (t.to_string(), n))
        .collect();
    assert_eq!(got, want);
    // Both nameless groups take one of the twenty places.
    let mut whys: Vec<Option<MetaValue>> = vec![None, None, text(""), text("")];
    whys.extend((0..25).map(|i| text(&format!("t{i:02}"))));
    let got = of(whys);
    assert_eq!(got.len(), 18);
    assert_eq!(got[0], ("t00".to_string(), 1));
    assert_eq!(got[17], ("t17".to_string(), 1));
}
