use codegraph::graph::{build, LoadedGraph};
use codegraph::parse;
use codegraph::store::Store;
use codegraph::types::{Edge, EdgeRelation, MetaValue, Node, NodeLabel, QualifiedName};

#[test]
fn qualified_name_normalizes() {
    assert_eq!(QualifiedName::build("MyApp", &["src", "auth"], "getProfile"), "myapp.src.auth.getprofile");
    assert_eq!(QualifiedName::build("a", &["b/c", "d.e"], "F-G"), "a.b_c.d_e.f_g");
    assert_eq!(QualifiedName::build("p", &[], "name"), "p.name");
    assert_eq!(QualifiedName::build("p", &["", "  "], "n"), "p.n");
}

#[test]
fn structural_and_call_edges() {
    let pf = parse::parse_rust("proj", "src/main.rs", "fn helper() {}\nfn main() { helper(); helper(); }\n");
    let built = build(&pf.nodes, &pf.calls);

    let calls: Vec<_> = built.edges.iter().filter(|e| e.relation == EdgeRelation::Calls).collect();
    assert_eq!(calls.len(), 1, "duplicate calls should dedupe to one edge");
    assert!(calls[0].src.ends_with("main") && calls[0].dst.ends_with("helper"));
    assert!(built.edges.iter().any(|e| e.relation == EdgeRelation::Defines));
    assert_eq!(built.graph.node_count(), pf.nodes.len());
    assert_eq!(
        calls[0].metadata.get("justification"),
        Some(&MetaValue::Text("SameFileUnique".to_string()))
    );
}

#[test]
fn end_to_end_persist_and_query() {
    let pf = parse::parse_rust("proj", "src/main.rs", "fn helper() {}\nfn main() { helper(); }\n");
    let built = build(&pf.nodes, &pf.calls);
    let mut store = Store::new();
    for n in &pf.nodes {
        store.upsert_node(n);
    }
    for e in &built.edges {
        store.upsert_edge(e);
    }
    let main_id = pf.nodes.iter().find(|n| n.name == "main").unwrap().id.clone();
    let edges = store.get_edges_for_node(&main_id);
    assert!(edges
        .iter()
        .any(|e| e.relation == EdgeRelation::Calls && e.dst.ends_with("helper")));
}

#[test]
fn no_cross_file_call_resolution() {
    // a call whose name matches a function in a DIFFERENT file must NOT resolve
    let mut pf = parse::parse_rust("proj", "a.rs", "fn main() { ghost(); }\n");
    let other = parse::parse_rust("proj", "b.rs", "fn ghost() {}\n");
    pf.nodes.extend(other.nodes);
    let built = build(&pf.nodes, &pf.calls);
    assert!(!built.edges.iter().any(|e| e.relation == EdgeRelation::Calls));
}

#[test]
fn ambiguous_call_is_dropped() {
    let mut pf = parse::parse_rust("proj", "a.rs", "fn twin() {}\nfn main() { twin(); }\n");
    let mut second = pf.nodes.iter().find(|n| n.name == "twin").unwrap().clone();
    second.id = "proj.a_rs.other.twin".to_string();
    pf.nodes.push(second);
    let built = build(&pf.nodes, &pf.calls);
    assert!(!built.edges.iter().any(|e| e.relation == EdgeRelation::Calls));
}

fn fixture() -> (Vec<Node>, Vec<Edge>) {
    let pf = parse::parse_rust(
        "p",
        "src/lib.rs",
        "fn a() { b(); }\nfn b() { c(); }\nfn c() {}\nfn lonely() {}\n",
    );
    let built = build(&pf.nodes, &pf.calls);
    (pf.nodes, built.edges)
}

#[test]
fn shortest_path_and_blast_radius() {
    let (nodes, edges) = fixture();
    let lg = LoadedGraph::load(&nodes, &edges);
    let a = nodes.iter().find(|n| n.name == "a").unwrap().id.clone();
    let c = nodes.iter().find(|n| n.name == "c").unwrap().id.clone();
    let path = lg.shortest_path(&a, &c).unwrap();
    assert_eq!(path.first().unwrap(), &a);
    assert_eq!(path.last().unwrap(), &c);
    assert_eq!(path.len(), 3);
    assert!(lg.shortest_path(&c, &a).is_none());
    assert!(lg.shortest_path("nowhere", &a).is_none());
    // who depends on c? a and b (transitively) plus the File via DEFINES
    let blast = lg.blast_radius(&c, 5);
    assert!(blast.iter().any(|id| id.ends_with(".b")));
    assert!(blast.iter().any(|id| id.ends_with(".a")));
    assert_eq!(blast.len(), 3);
    let near = lg.blast_radius(&c, 1);
    assert_eq!(blast[..near.len()], near[..], "the nearest come first");
    assert!(blast[2].ends_with(".a"));
    assert!(!near.iter().any(|id| id.ends_with(".a")));
    assert!(lg.blast_radius("nowhere", 5).is_empty());
    assert!(lg.blast_radius(&c, 0).is_empty());
}

#[test]
fn callees_follow_call_edges_only() {
    let (nodes, edges) = fixture();
    let lg = LoadedGraph::load(&nodes, &edges);
    let a = nodes.iter().find(|n| n.name == "a").unwrap().id.clone();
    let callees = lg.callees(&a);
    assert!(callees.iter().any(|id| id.ends_with(".b")));
    let file = nodes.iter().find(|n| n.label == NodeLabel::File).unwrap().id.clone();
    assert!(lg.callees(&file).is_empty());
}
