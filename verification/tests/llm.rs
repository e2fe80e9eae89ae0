use codegraph::llm::{
    candidates, chat_body, choose_embed_model, choose_model, embedder_available, endpoint,
    generate_text, generate_text_labeled, generator_available, model_ids, probe_order, reply_text,
    rerank, rerank_prompt, rerank_with, LlmClient,
};
use codegraph::types::{Metadata, Node, NodeLabel};
use codegraph::value::parse_json;

struct Fixed(Option<&'static str>);

impl LlmClient for Fixed {
    fn generate(&self, _prompt: &str, _max_tokens: usize) -> Option<String> {
        self.0.map(|s| s.to_string())
    }
}

fn node(name: &str) -> Node {
    Node {
        id: format!("p.{name}"),
        label: NodeLabel::Function,
        name: name.into(),
        file_path: "f.rs".into(),
        line_start: 1,
        line_end: 2,
        language: "rust".into(),
        metadata: Metadata::new(),
        community: None,
        pagerank: 0,
        betweenness: 0,
    }
}

fn names(v: &[Node]) -> Vec<&str> {
    v.iter().map(|n| n.name.as_str()).collect()
}

#[test]
fn candidate_order_is_local_first() {
    let c = candidates(None, None);
    assert_eq!(c[0].id, "mlx");
    assert!(c.iter().any(|x| x.id == "lmstudio"));
    assert!(c.iter().any(|x| x.id == "ollama"));
}

#[test]
fn a_provider_can_be_pinned() {
    for p in ["mlx", "lmstudio", "ollama", "openai", "gemini"] {
        let c = candidates(None, Some(p));
        assert_eq!(c.len(), 1);
        assert_eq!(c[0].id, p);
    }
    let all = candidates(None, Some("what"));
    assert_eq!(all.len(), 5);
    // a server that takes a key is not asked without one
    let keys = vec![false; 5];
    assert_eq!(probe_order(&all, &keys), vec![0, 1, 2]);
    assert_eq!(probe_order(&all, &vec![true; 5]), vec![0, 1, 2, 3, 4]);
}

#[test]
fn models_are_chosen() {
    let v = parse_json(r#"{"data":[{"id":"nomic-embed"},{"id":"Qwen"},{"no":1}]}"#).unwrap();
    let models = model_ids(&v);
    assert_eq!(models, vec!["nomic-embed".to_string(), "Qwen".to_string()]);
    assert_eq!(choose_model(&models, None, "d"), "Qwen");
    assert_eq!(choose_model(&models, Some("mine"), "d"), "mine");
    assert_eq!(choose_model(&vec!["X-Embed".into()], None, "d"), "X-Embed");
    assert_eq!(choose_model(&vec![], None, "d"), "d");
    assert_eq!(choose_embed_model(&models, None), Some("nomic-embed".into()));
    assert_eq!(choose_embed_model(&vec!["Qwen".into()], None), None);
    assert_eq!(choose_embed_model(&vec![], Some("e")), Some("e".into()));
    assert!(model_ids(&parse_json("[]").unwrap()).is_empty());
}

#[test]
fn requests_and_replies() {
    assert_eq!(endpoint("http://h/v1/", "/models"), "http://h/v1/models");
    assert_eq!(endpoint("http://h/v1", "/models"), "http://h/v1/models");
    let body = chat_body("m", "hi", 7);
    assert_eq!(body.get("model").unwrap().as_text(), Some(&"m".to_string()));
    let v = parse_json(r#"{"choices":[{"message":{"content":"yo"}}]}"#).unwrap();
    assert_eq!(reply_text(&v), Some("yo".into()));
    assert_eq!(reply_text(&parse_json(r#"{"choices":[]}"#).unwrap()), None);
}

#[test]
fn texts_are_labelled() {
    assert_eq!(
        generate_text_labeled(Some(&Fixed(Some("out"))), "ollama", "m", "p", 1),
        Some(("out".to_string(), "ollama / m".to_string()))
    );
    assert_eq!(generate_text_labeled(Some(&Fixed(None)), "ollama", "m", "p", 1), None);
    assert_eq!(generate_text::<Fixed>(None, "p", 1), None);
    assert_eq!(generate_text(Some(&Fixed(Some("x"))), "p", 1), Some("x".into()));
    assert!(generator_available(false, true));
    assert!(!generator_available(false, false));
    assert!(!embedder_available(Some("1"), true, true));
    assert!(embedder_available(Some("0"), false, true));
    assert!(!embedder_available(None, false, false));
}

#[test]
fn a_reply_only_reorders() {
    let hits = || vec![node("a"), node("b"), node("c")];
    assert_eq!(names(&rerank_with(&hits(), Some("2, 0, 2, 9"))), vec!["c", "a", "b"]);
    assert_eq!(names(&rerank_with(&hits(), Some("no numbers"))), vec!["a", "b", "c"]);
    assert_eq!(names(&rerank_with(&hits(), None)), vec!["a", "b", "c"]);
    assert_eq!(names(&rerank(Some(&Fixed(Some("1"))), "q", hits())), vec!["b", "a", "c"]);
    assert_eq!(names(&rerank(Some(&Fixed(Some("0"))), "q", vec![node("a")])), vec!["a"]);
    assert_eq!(
        rerank_prompt("q", &vec![node("a"), node("b")]),
        "Rank these code symbols by relevance to the query \"q\". Reply with ONLY the leading numbers, best first, comma-separated.\n\n0. a (Function) f.rs\n1. b (Function) f.rs"
    );
}
