use codegraph::setup::{
    agent_nudge, claude_block, has_mcp_entry, has_session_hook, is_yes_answer, json_type,
    load_json_object, merge_hook_settings, merge_mcp_entry, remove_hook_settings, strip_block,
    NoteEdit, CONFIG_TEMPLATE,
};
use codegraph::value::{parse_json, Datum};

const CLAUDE_BEGIN: &str = "<!-- BEGIN codegraph -->";

#[test]
fn claude_block_is_idempotent() {
    let base = "# My Project\n\nSome notes.";
    let once = format!("{}\n\n{}", base, claude_block());
    let stripped = strip_block(&once);
    let twice = format!("{}\n\n{}", stripped.trim_end(), claude_block());
    assert_eq!(twice.matches(CLAUDE_BEGIN).count(), 1, "no duplicate block");
    assert!(twice.contains("# My Project"), "user content preserved");
    assert_eq!(strip_block(&twice).trim(), base);
}

#[test]
fn config_template_is_valid_toml() {
    let cfg: toml::Value = toml::from_str(CONFIG_TEMPLATE).expect("template parses");
    assert_eq!(cfg["llm"]["provider"].as_str(), Some("auto"));
    assert_eq!(cfg["ingest"]["prompted"].as_bool(), Some(true));
}

#[test]
fn invalid_json_errors_and_preserves_file() {
    let e = merge_mcp_entry(Some("{not json")).unwrap_err().message("/tmp/config.json");
    assert!(e.contains("invalid JSON") && e.contains("config.json"), "{e}");
}

#[test]
fn null_root_errors() {
    let e = merge_mcp_entry(Some("null")).unwrap_err().message("config.json");
    assert!(e.contains("null") && e.contains("expected an object"), "{e}");
}

#[test]
fn array_root_errors() {
    let e = merge_mcp_entry(Some("[1,2]")).unwrap_err().message("config.json");
    assert!(e.contains("an array") && e.contains("expected an object"), "{e}");
}

#[test]
fn non_object_mcp_servers_errors() {
    let e = merge_mcp_entry(Some(r#"{"mcpServers":[]}"#)).unwrap_err().message("config.json");
    assert!(e.contains("`mcpServers`") && e.contains("an array"), "{e}");
}

#[test]
fn non_object_hooks_errors() {
    let e = merge_hook_settings(Some(r#"{"hooks":[]}"#), ".agent").unwrap_err().message("s.json");
    assert!(e.contains("`hooks`") && e.contains("an array"), "{e}");
}

#[test]
fn valid_config_preserves_unrelated_fields() {
    let t = merge_mcp_entry(Some(
        r#"{"theme":"dark","mcpServers":{"other":{"command":"x"}},"numStartups":7}"#,
    ))
    .unwrap();
    let v: serde_json::Value = serde_json::from_str(&t).unwrap();
    assert_eq!(v["theme"], "dark");
    assert_eq!(v["numStartups"], 7);
    assert_eq!(v["mcpServers"]["other"]["command"], "x");
    assert_eq!(v["mcpServers"]["codegraph"]["args"][0], "mcp");
}

#[test]
fn merge_is_idempotent_and_creates_missing() {
    let first = merge_mcp_entry(None).unwrap();
    assert_eq!(merge_mcp_entry(Some(&first)).unwrap(), first, "second run must be a no-op");
    assert!(has_mcp_entry(&first));
    let h1 = merge_hook_settings(None, ".agent").unwrap();
    assert_eq!(merge_hook_settings(Some(&h1), ".agent").unwrap(), h1);
    assert!(has_session_hook(&h1, ".agent"));
}

#[test]
fn merging_keeps_the_order_of_the_fields() {
    let t = merge_mcp_entry(Some(r#"{"zeta":1,"alpha":-2,"mcpServers":{"b":[],"a":null}}"#)).unwrap();
    assert_eq!(
        t,
        concat_lines(&[
            "{",
            "  \"zeta\": 1,",
            "  \"alpha\": -2,",
            "  \"mcpServers\": {",
            "    \"b\": [],",
            "    \"a\": null,",
            "    \"codegraph\": {",
            "      \"command\": \"codegraph\",",
            "      \"args\": [",
            "        \"mcp\"",
            "      ]",
            "    }",
            "  }",
            "}",
        ])
    );
    assert_eq!(merge_mcp_entry(Some(&t)).unwrap(), t);
}

fn concat_lines(lines: &[&str]) -> String {
    lines.join("\n")
}

#[test]
fn an_entry_is_found_in_any_order() {
    assert!(has_mcp_entry(
        r#"{"mcpServers":{"codegraph":{"args":["mcp"],"command":"codegraph"}}}"#
    ));
    assert!(has_mcp_entry(
        r#"{"mcpServers":{"codegraph":{"command":"codegraph","args":["mcp"]}}}"#
    ));
    assert!(!has_mcp_entry(
        r#"{"mcpServers":{"codegraph":{"command":"codegraph","args":["mcp"],"env":{}}}}"#
    ));
    assert!(!has_mcp_entry(r#"{"mcpServers":{"codegraph":{"command":"codegraph","args":[]}}}"#));
}

#[test]
fn hooks_come_out_again() {
    let h = merge_hook_settings(Some(r#"{"theme":"dark"}"#), ".agent").unwrap();
    let v: serde_json::Value = serde_json::from_str(&h).unwrap();
    assert_eq!(v["theme"], "dark");
    assert!(v["hooks"]["SessionStart"].is_array());
    let out = remove_hook_settings(&h).unwrap();
    assert!(!has_session_hook(&out, ".agent"));
    let v: serde_json::Value = serde_json::from_str(&out).unwrap();
    assert_eq!(v["theme"], "dark");
    assert!(v["hooks"].get("SessionStart").is_none());
    assert_eq!(remove_hook_settings("{broken"), None);
}

#[test]
fn the_note_goes_in_and_out() {
    let w = match agent_nudge("# Notes", false) {
        NoteEdit::Write(t) => t,
        other => panic!("{other:?}"),
    };
    assert!(w.contains(CLAUDE_BEGIN) && w.contains("# Notes"));
    match agent_nudge(&w, true) {
        NoteEdit::Write(t) => assert_eq!(t.trim(), "# Notes"),
        other => panic!("{other:?}"),
    }
    let alone = match agent_nudge("", false) {
        NoteEdit::Write(t) => t,
        other => panic!("{other:?}"),
    };
    assert_eq!(agent_nudge(&alone, true), NoteEdit::Remove);
    assert_eq!(agent_nudge("# Notes", true), NoteEdit::Keep);
}

#[test]
fn kinds_of_json() {
    for (t, k) in [
        ("null", "null"),
        ("true", "a boolean"),
        ("1", "a number"),
        ("\"x\"", "a string"),
        ("[]", "an array"),
        ("{}", "an object"),
    ] {
        assert_eq!(json_type(&parse_json(t).unwrap()), k);
    }
    assert_eq!(load_json_object(None).unwrap(), vec![]);
    assert_eq!(
        load_json_object(Some("{\"a\":1}")).unwrap(),
        vec![("a".to_string(), Datum::Number("1".into()))]
    );
}

#[test]
fn answers_to_questions() {
    assert!(is_yes_answer("y\n", false));
    assert!(is_yes_answer(" YES ", false));
    assert!(is_yes_answer("\n", true));
    assert!(!is_yes_answer("\n", false));
    assert!(!is_yes_answer("no", true));
}

#[test]
fn a_fraction_is_written_as_it_was_read() {
    // The reader of JSON does not always give the nearest float, so a second
    // reading can move the last digit; a single one writes what was read.
    for x in ["0.95194186286967089", "1.5", "1e300", "-0.0", "100000000000000000000000"] {
        let text = format!("{{\"x\": {x}}}");
        let read: serde_json::Value = serde_json::from_str(&text).unwrap();
        let merged = merge_mcp_entry(Some(&text)).unwrap();
        assert!(merged.contains(&format!("\"x\": {}", read["x"])), "{x}: {merged}");
    }
    let once = merge_mcp_entry(Some("{\"x\": 0.95194186286967089}")).unwrap();
    let twice = merge_mcp_entry(Some(&once)).unwrap();
    assert!(once.contains("0.9519418628696709") && twice.contains("0.9519418628696708"));
    let plain = merge_mcp_entry(Some("{\"x\": 1.5}")).unwrap();
    assert_eq!(merge_mcp_entry(Some(&plain)).unwrap(), plain);
}
