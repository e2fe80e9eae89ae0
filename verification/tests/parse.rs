use codegraph::parse::{
    collect, parse_file, parse_go, parse_js, parse_python, parse_rust, parse_ts, FileContext,
    Language, ParsedFile, SyntaxNode,
};
use codegraph::types::NodeLabel;

fn names(pf: &ParsedFile) -> Vec<(&str, NodeLabel)> {
    pf.nodes.iter().map(|n| (n.name.as_str(), n.label)).collect()
}

#[test]
fn rust_defs_and_calls() {
    let pf = parse_rust("p", "src/lib.rs", "fn helper() {}\nfn main() { helper(); }\nstruct S;\nenum E {}\ntrait T {}\n");
    assert!(names(&pf).contains(&("helper", NodeLabel::Function)));
    assert!(names(&pf).contains(&("S", NodeLabel::Class)));
    assert!(names(&pf).contains(&("T", NodeLabel::Interface)));
    assert!(pf.calls.iter().any(|c| c.callee_name == "helper" && c.caller_id.ends_with("main")));
}

#[test]
fn python_defs_and_calls() {
    let pf = parse_python("p", "m.py", "def foo():\n    pass\nclass Bar:\n    def m(self):\n        foo()\n");
    assert!(names(&pf).contains(&("foo", NodeLabel::Function)));
    assert!(names(&pf).contains(&("Bar", NodeLabel::Class)));
    assert!(names(&pf).contains(&("m", NodeLabel::Function)));
    assert!(pf.calls.iter().any(|c| c.callee_name == "foo"));
}

#[test]
fn javascript_defs() {
    let pf = parse_js("p", "a.js", "function foo(){}\nclass Bar { m(){ foo(); } }\n");
    assert!(names(&pf).contains(&("foo", NodeLabel::Function)));
    assert!(names(&pf).contains(&("Bar", NodeLabel::Class)));
    assert!(names(&pf).contains(&("m", NodeLabel::Method)));
    assert!(pf.calls.iter().any(|c| c.callee_name == "foo"));
}

#[test]
fn typescript_interface_and_type() {
    let pf = parse_ts("p", "a.ts", "interface I { x: number }\ntype Alias = string;\nfunction f(): I { return {x:1}; }\n");
    assert!(names(&pf).contains(&("I", NodeLabel::Interface)));
    assert!(names(&pf).contains(&("Alias", NodeLabel::Type)));
    assert!(names(&pf).contains(&("f", NodeLabel::Function)));
}

#[test]
fn go_defs_and_calls() {
    let pf = parse_go("p", "main.go", "package main\nfunc helper() {}\nfunc main() { helper() }\ntype S struct{}\n");
    assert!(names(&pf).contains(&("helper", NodeLabel::Function)));
    assert!(names(&pf).contains(&("main", NodeLabel::Function)));
    assert!(names(&pf).contains(&("S", NodeLabel::Class)));
    assert!(pf.calls.iter().any(|c| c.callee_name == "helper" && c.caller_id.ends_with("main")));
}

#[test]
fn dispatch_by_extension() {
    assert!(!parse_file("p", "x.py", "def a():\n    pass\n").nodes.is_empty());
    assert!(!parse_file("p", "x.go", "package m\nfunc a(){}\n").nodes.is_empty());
    assert!(parse_file("p", "x.unknown", "whatever").nodes.is_empty());
}

#[test]
fn file_node_and_lines() {
    let pf = parse_file("P", "src/Lib.rs", "fn a() {\n}\n\nfn b() { x.y.z(); }");
    assert_eq!(pf.nodes[0].id, "p.src.lib_rs");
    assert_eq!(pf.nodes[0].name, "Lib.rs");
    assert_eq!((pf.nodes[0].line_start, pf.nodes[0].line_end), (1, 4));
    assert_eq!((pf.nodes[1].line_start, pf.nodes[1].line_end), (1, 2));
    assert_eq!(pf.nodes[1].id, "p.src.lib_rs.a");
    assert_eq!(pf.calls[0].callee_name, "z");
    assert_eq!(pf.calls[0].caller_id, "p.src.lib_rs.b");
    assert_eq!(pf.calls[0].line, 4);
    let top = parse_python("p", "m.py", "main()\n");
    assert_eq!(top.calls[0].caller_id, "p.m_py");
}

#[test]
fn tsx_is_its_own_grammar() {
    let pf = parse_file("p", "a.tsx", "function App() { return <div>{go()}</div>; }\n");
    assert!(names(&pf).contains(&("App", NodeLabel::Function)));
    assert!(pf.calls.iter().any(|c| c.callee_name == "go" && c.caller_id.ends_with("app")));
}

fn syntax(kind: &str, field: Option<&str>, depth: u32, bytes: (usize, usize)) -> SyntaxNode {
    SyntaxNode {
        kind: kind.to_string(),
        field: field.map(|f| f.to_string()),
        depth,
        start_row: 0,
        end_row: 0,
        start_byte: bytes.0,
        end_byte: bytes.1,
    }
}

#[test]
fn collect_works_on_given_nodes() {
    let source = "def f(): g()";
    let nodes = vec![
        syntax("module", None, 0, (0, 12)),
        syntax("function_definition", None, 1, (0, 12)),
        syntax("identifier", Some("name"), 2, (4, 5)),
        syntax("call", None, 2, (9, 12)),
        syntax("identifier", Some("function"), 3, (9, 10)),
        syntax("call", None, 1, (9, 12)),
        syntax("identifier", Some("function"), 2, (9, 10)),
    ];
    let ctx = FileContext { language: Language::Python, project: "p", rel_path: "a/b.py", source };
    let pf = collect(&ctx, &nodes);
    assert_eq!(pf.nodes.len(), 2);
    assert_eq!(pf.nodes[1].name, "f");
    assert_eq!(pf.calls.len(), 2);
    assert_eq!(pf.calls[0].caller_id, "p.a.b_py.f");
    assert_eq!(pf.calls[1].caller_id, "p.a.b_py");
}
