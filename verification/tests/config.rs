use std::collections::HashMap;

use codegraph::config::{
    global_config_path, merge_tables, parse_bool, project_config_path, Config, Layer, MediaGate,
};
use codegraph::settings::{self, EditError};
use codegraph::value::{parse_toml, Datum};

fn none(_: &str) -> Option<String> {
    None
}

fn layer(text: &str) -> Vec<Layer> {
    vec![Layer { path: "/repo/.codegraph.toml".into(), text: text.into() }]
}

#[test]
fn defaults_are_media_off_and_small_model() {
    let c = Config::default();
    assert!(!c.ingest.media_enabled());
    assert_eq!(c.llm.model, "Qwen2.5-Coder-1.5B-Instruct");
    assert_eq!(c.llm.provider, "auto");
    assert!(!c.llm.auto_install);
}

#[test]
fn media_gate_resolution() {
    let g = MediaGate { media: false, images: true, videos: false, prompted: true };
    assert!(g.images_enabled());
    assert!(!g.videos_enabled());
    assert!(g.media_enabled());
    let all = MediaGate { media: true, ..Default::default() };
    assert!(all.images_enabled() && all.videos_enabled());
}

#[test]
fn env_overrides_apply() {
    let mut c = Config::default();
    let mut env = HashMap::new();
    env.insert("CODEGRAPH_LLM_MODEL".to_string(), "custom-7b".to_string());
    env.insert("CODEGRAPH_MEDIA".to_string(), "true".to_string());
    env.insert("CODEGRAPH_LLM_AUTO_INSTALL".to_string(), "1".to_string());
    c.apply_env_from(|k: &str| env.get(k).cloned());
    assert_eq!(c.llm.model, "custom-7b");
    assert!(c.ingest.media_enabled());
    assert!(c.llm.auto_install);
}

#[test]
fn malformed_config_errors_with_file_context() {
    let e = Config::load(&layer("this is = = not valid toml [[["), none).unwrap_err();
    assert!(e.message().contains(".codegraph.toml"), "error must name the file");

    let e2 = Config::load(&layer("[llm]\nrerank = \"yes\"\n"), none).unwrap_err();
    assert!(e2.message().contains("rerank"), "error must name the field: {}", e2.message());
}

fn fault(text: &str) -> String {
    Config::load(&layer(text), none).unwrap_err().message().to_string()
}

#[test]
fn wrong_types_are_told_in_the_words_of_the_toml_crate() {
    type Of<T> = HashMap<String, HashMap<String, T>>;
    let start = "/repo/.codegraph.toml: invalid config: ";
    assert_eq!(
        fault("[llm]\nrerank = \"yes\"\n"),
        format!("{start}invalid type: string \"yes\", expected a boolean\nin `llm.rerank`\n")
    );
    let odd = [
        "1", "-7", "1.0", "1.5", "1e20", "1e-7", "inf", "-inf", "nan", "-nan", "-0.0", "[1]", "{}",
    ];
    for v in odd.into_iter().chain(["\"a\\n\\\"é\"", "1979-05-27"]) {
        let text = format!("[llm]\nrerank = {v}\n");
        let table: toml::Table = toml::from_str(&text).unwrap();
        let e = table.try_into::<Of<bool>>().unwrap_err();
        assert_eq!(fault(&text), format!("{start}{e}"), "{v}");
    }
    for v in odd.into_iter().chain(["true", "false"]) {
        let text = format!("[llm]\nmodel = {v}\n");
        let table: toml::Table = toml::from_str(&text).unwrap();
        let e = table.try_into::<Of<String>>().unwrap_err();
        assert_eq!(fault(&text), format!("{start}{e}"), "{v}");
    }
    assert_eq!(
        fault("llm = 1\n"),
        format!("{start}invalid type: integer `1`, expected struct LlmConfig\nin `llm`\n")
    );
    assert_eq!(
        fault("ingest = \"x\"\n"),
        format!("{start}invalid type: string \"x\", expected struct MediaGate\nin `ingest`\n")
    );
    assert_eq!(
        fault("cache_dir = 3\n"),
        format!("{start}invalid type: integer `3`, expected a string\nin `cache_dir`\n")
    );
}

#[test]
fn the_first_wrong_type_by_name_is_told() {
    let e = fault("[llm]\nprovider = 1\nauto_install = 2\n[ingest]\nvideos = 3\nimages = 4\n");
    assert!(e.ends_with("in `ingest.images`\n"), "{e}");
    let e = fault("[llm]\nprovider = 1\nauto_install = 2\n");
    assert!(e.ends_with("in `llm.auto_install`\n"), "{e}");
}

#[test]
fn dates_and_lists_are_settings_too() {
    let c = Config::load(&layer("cache_dir = 1979-05-27\ningest = [false, true]\n"), none).unwrap();
    assert_eq!(c.cache_dir.as_deref(), Some("1979-05-27"));
    assert!(c.ingest.images && !c.ingest.media && !c.ingest.videos && !c.ingest.prompted);
    let c = Config::load(&layer("llm = [\"p\", \"u\", \"m\"]\n"), none).unwrap();
    assert_eq!((c.llm.provider.as_str(), c.llm.model.as_str()), ("p", "m"));
    assert_eq!(c.llm.base_url.as_deref(), Some("u"));
    assert_eq!(c.llm.whisper_model, "base");
    let start = "/repo/.codegraph.toml: invalid config: ";
    assert_eq!(
        fault("ingest = [true, true, true, true, true]\n"),
        format!("{start}invalid length 5, expected fewer elements in array\nin `ingest`\n")
    );
    assert_eq!(
        fault("ingest = [true, 1, true, true, true]\n"),
        format!("{start}invalid type: integer `1`, expected a boolean\nin `ingest`\n")
    );
}

#[test]
fn missing_file_uses_defaults() {
    let c = Config::load(&vec![], none).unwrap();
    assert_eq!(c, Config::default());
}

#[test]
fn merge_tables_deep_overrides() {
    let mut base = parse_toml("[llm]\nmodel='a'\nrerank=false\n").unwrap();
    let over = parse_toml("[llm]\nmodel='b'\n").unwrap();
    merge_tables(&mut base, &over);
    let all = Datum::Table(base);
    let llm = all.get("llm").unwrap();
    assert_eq!(llm.get("model"), Some(&Datum::Text("b".into())));
    assert_eq!(llm.get("rerank"), Some(&Datum::Bool(false)));
}

#[test]
fn layers_lie_over_each_other() {
    let layers = vec![
        Layer { path: "/g/config.toml".into(), text: "[llm]\nmodel='g'\nhyde=true\n".into() },
        Layer { path: "/p/.codegraph.toml".into(), text: "[llm]\nmodel='p'\n".into() },
    ];
    let c = Config::load(&layers, none).unwrap();
    assert_eq!(c.llm.model, "p");
    assert!(c.llm.hyde);
    let env = |k: &str| if k == "CODEGRAPH_LLM_MODEL" { Some("e".to_string()) } else { None };
    assert_eq!(Config::load(&layers, env).unwrap().llm.model, "e");
}

#[test]
fn switches_are_read_loosely() {
    assert_eq!(parse_bool(None), None);
    for yes in ["1", "true", "YES", "on"] {
        assert_eq!(parse_bool(Some(yes.into())), Some(true), "{yes}");
    }
    for no in ["0", "off", "", "maybe"] {
        assert_eq!(parse_bool(Some(no.into())), Some(false), "{no}");
    }
}

#[test]
fn config_paths() {
    assert_eq!(
        global_config_path(Some("/x".into()), Some("/home/u".into())),
        Some("/x/codegraph/config.toml".into())
    );
    assert_eq!(
        global_config_path(None, Some("/home/u".into())),
        Some("/home/u/.config/codegraph/config.toml".into())
    );
    assert_eq!(global_config_path(None, None), None);
    let at = |p: &str| p == "/a/.codegraph.toml";
    assert_eq!(project_config_path("/a/b/c", at), Some("/a/.codegraph.toml".into()));
    assert_eq!(project_config_path("/z", at), None);
}

#[test]
fn set_preserves_comments_and_unrelated_keys() {
    let text = "# my precious comment\n[llm]\nprovider = \"ollama\" # inline note\nrerank = true\n";
    let after = settings::set(text, "llm.model", "m7").unwrap();
    assert!(after.contains("# my precious comment"), "{after}");
    assert!(after.contains("# inline note"), "{after}");
    assert!(after.contains("provider = \"ollama\""), "{after}");
    assert!(after.contains("rerank = true"), "{after}");
    assert!(after.contains("model = \"m7\""), "{after}");
}

#[test]
fn set_and_unset_read_back() {
    let one = settings::set("", "llm.rerank", "true").unwrap();
    let t = Datum::Table(parse_toml(&one).unwrap());
    assert_eq!(t.get("llm").unwrap().get("rerank"), Some(&Datum::Bool(true)));
    let gone = settings::unset(&one, "llm.rerank").unwrap().unwrap();
    let t = Datum::Table(parse_toml(&gone).unwrap());
    assert!(t.get("llm").and_then(|l| l.get("rerank")).is_none());
    assert_eq!(settings::unset("", "llm.rerank").unwrap(), None);
}

#[test]
fn set_unset_on_malformed_toml_leave_bytes_unchanged() {
    let broken = "this is = = not valid toml [[[ # but MY bytes\n";
    let path = "/repo/.codegraph.toml";
    for e in [
        settings::set(broken, "llm.model", "x").unwrap_err().message(path),
        settings::unset(broken, "llm.model").unwrap_err().message(path),
    ] {
        assert!(
            e.contains(".codegraph.toml") && e.contains("config edit"),
            "error must name the file and direct to config edit: {e}"
        );
    }
}

#[test]
fn malformed_global_config_is_never_overwritten() {
    assert!(settings::set("[llm\nbroken = \n", "llm.model", "x").is_err());
}

#[test]
fn missing_config_set_creates_unset_reports() {
    assert_eq!(settings::unset("", "llm.model").unwrap(), None);
    assert!(settings::set("", "llm.model", "m1").unwrap().contains("m1"));
}

#[test]
fn edits_that_are_refused() {
    let e: EditError = settings::set("", "no.such", "x").unwrap_err();
    assert!(e.message("c").contains("unknown key 'no.such'"), "{}", e.message("c"));
    assert!(settings::unset("", "no.such").is_err());
    let e = settings::set("llm = 1\n", "llm.model", "x").unwrap_err();
    assert!(e.message("c").contains("'llm' is not a table"), "{}", e.message("c"));
    // a switch is set to false by whatever is not a yes
    assert_eq!(settings::set("", "llm.rerank", "maybe").unwrap(), "[llm]\nrerank = false\n");
}

#[test]
fn settings_are_listed() {
    let c = Config::default();
    for k in settings::keys() {
        assert!(settings::find_key(&k).is_some());
        assert!(settings::resolved(&c, &k).is_some(), "{k}");
    }
    assert!(settings::find_key("nope").is_none());
    assert!(settings::unknown("nope").contains("nope"));
}

#[test]
fn a_set_value_is_read_back_from_every_shape_of_table() {
    let shapes = [
        "",
        "[llm]\nrerank = true\n",
        "llm.rerank = true\n",
        "[llm.extra]\nx = 1\n",
        "[other]\ny = 2\n[llm.extra]\nx = 1\n[other.z]\n",
        "# top\n[[list]]\na = 1\n[[list]]\na = 2",
        "[llm]\r\nlockfile = '''a\r\nb'''\r\n",
    ];
    for shape in shapes {
        for v in ["m7", "", "two\nlines", "quo\"te", "cr\rhere", "é"] {
            let out = settings::set(shape, "llm.model", v).unwrap();
            let t: toml::Table = toml::from_str(&out).unwrap();
            assert_eq!(t["llm"]["model"].as_str(), Some(v), "{out}");
            let top = settings::set(&out, "cache_dir", "/c").unwrap();
            let t: toml::Table = toml::from_str(&top).unwrap();
            assert_eq!(t["cache_dir"].as_str(), Some("/c"), "{top}");
            assert_eq!(t["llm"]["model"].as_str(), Some(v), "{top}");
            let gone = settings::unset(&top, "llm.model").unwrap().unwrap();
            let t: toml::Table = toml::from_str(&gone).unwrap();
            assert!(t.get("llm").and_then(|l| l.get("model")).is_none(), "{gone}");
            assert_eq!(t["cache_dir"].as_str(), Some("/c"));
        }
    }
    let t: toml::Table =
        toml::from_str(&settings::set(shapes[1], "llm.model", "m").unwrap()).unwrap();
    assert_eq!(t["llm"]["rerank"].as_bool(), Some(true));
    let t: toml::Table =
        toml::from_str(&settings::set(shapes[6], "llm.model", "m").unwrap()).unwrap();
    assert_eq!(t["llm"]["lockfile"].as_str(), Some("a\r\nb"));
}

#[test]
fn a_top_level_key_takes_the_place_of_a_table() {
    let out = settings::set("[cache_dir]\nx = 1\n", "cache_dir", "/c").unwrap();
    let t: toml::Table = toml::from_str(&out).unwrap();
    assert_eq!(t["cache_dir"].as_str(), Some("/c"));
}
