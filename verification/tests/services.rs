use codegraph::answers::{metadata_for, EvidenceQuality, GraphFreshness, GraphGeneration};
use codegraph::changes::{changed_names, diff_status, names_in, ChangeKind, ChangedPath};
use codegraph::dead_code::{
    leaf_name, DeadCodeAssessment, DeadCodeService, RefRow, ReferenceKind as RK,
};
use codegraph::review::{
    is_code_file, rank_rows, risk_tier, BaseDisposition, ChangeFacts, ReviewService, RiskTier,
    TestEvidence,
};
use codegraph::store::Store;
use codegraph::tables::CoChange;
use codegraph::types::{
    Confidence, Edge, EdgeRelation, MetaValue, Metadata, Node, NodeLabel, RawCall, Receiver,
    ResolutionTier,
};

#[test]
fn generation_provenance_is_never_invented() {
    let mut store = Store::new();
    let m = metadata_for(&store, EvidenceQuality::Exact);
    assert_eq!(m.generation, None, "missing stamp must not become Some(0)");
    assert!(
        matches!(m.freshness, GraphFreshness::Unknown { .. }),
        "unknown provenance must not read as a plain Fresh+Exact answer: {m:?}"
    );
    assert_eq!(m.evidence, EvidenceQuality::Exact, "evidence is orthogonal");

    store.meta_set("generation", "7");
    let m = metadata_for(&store, EvidenceQuality::Exact);
    assert_eq!(m.generation, Some(GraphGeneration(7)));
    assert_eq!(m.freshness, GraphFreshness::Fresh);

    store.meta_set("generation", "banana");
    let m = metadata_for(&store, EvidenceQuality::Exact);
    assert_eq!(m.generation, None);
    assert!(
        matches!(m.evidence, EvidenceQuality::Unavailable { .. }),
        "malformed stamp must degrade evidence to Unavailable: {m:?}"
    );
}

#[test]
fn a_malformed_stamp_is_quoted() {
    let mut store = Store::new();
    store.meta_set("generation", "ba\"na");
    let m = metadata_for(&store, EvidenceQuality::Exact);
    let reason = match m.evidence {
        EvidenceQuality::Unavailable { reason } => reason,
        other => panic!("{other:?}"),
    };
    assert!(reason.contains(r#""ba\"na""#), "{reason}");
    assert!(reason.contains("invalid digit found in string"), "{reason}");
}

fn fn_node(id: &str, name: &str, file: &str, line: u32) -> Node {
    Node {
        id: id.into(),
        label: NodeLabel::Function,
        name: name.into(),
        file_path: file.into(),
        line_start: line,
        line_end: line + 1,
        language: "rust".into(),
        metadata: Metadata::new(),
        community: None,
        pagerank: 0,
        betweenness: 0,
    }
}

fn reference(name: &str, line: u32, kind: RK) -> RefRow {
    RefRow { name: name.into(), kind, line, file_path: "a.rs".into() }
}

#[test]
fn dead_code_assessments_are_typed_and_twin_safe() {
    let mut store = Store::new();
    store.bulk_upsert_nodes(&vec![
        fn_node("p.a.cb_target", "cb_target", "a.rs", 1),
        fn_node("p.a.val_target", "val_target", "a.rs", 5),
        fn_node("p.a.pub_api", "pub_api", "a.rs", 9),
        fn_node("p.b.pub_api", "pub_api", "b.rs", 3), // twin, NOT pub
        fn_node("p.a.mystery", "mystery", "a.rs", 13),
        fn_node("p.c.truly_dead", "truly_dead", "c.rs", 1),
        fn_node("p.c.main", "main", "c.rs", 10),
        fn_node("p.c.handler_fn", "handler_fn", "c.rs", 20),
    ]);
    let mut route = fn_node("p.r.route", "GET /x", "r.rs", 1);
    route.label = NodeLabel::Route;
    route.metadata.insert("handler".into(), MetaValue::Text("handler_fn".into()));
    store.bulk_upsert_nodes(&vec![route]);
    let refs = vec![
        reference("cb_target", 30, RK::Callback),
        reference("val_target", 31, RK::FunctionValue),
        reference("pub_api", 9, RK::PublicExport),
        reference("mystery", 40, RK::UnknownIndirect),
    ];
    let ans = DeadCodeService::assess(&store, &refs, 50);
    let find = |name: &str, file: &str| {
        ans.data
            .iter()
            .find(|a| {
                let n = match a {
                    DeadCodeAssessment::Candidate { node } => node,
                    DeadCodeAssessment::IndirectlyReferenced { node, .. } => node,
                    DeadCodeAssessment::Excluded { node, .. } => node,
                    DeadCodeAssessment::Unknown { node, .. } => node,
                };
                n.name == name && n.file == file
            })
            .unwrap_or_else(|| panic!("{file}:{name} missing from {:?}", ans.data))
    };
    assert!(matches!(
        find("cb_target", "a.rs"),
        DeadCodeAssessment::IndirectlyReferenced { kinds, .. } if kinds.contains(&RK::Callback)
    ));
    assert!(matches!(
        find("val_target", "a.rs"),
        DeadCodeAssessment::IndirectlyReferenced { kinds, .. } if kinds.contains(&RK::FunctionValue)
    ));
    assert!(
        matches!(find("pub_api", "a.rs"), DeadCodeAssessment::Unknown { .. }),
        "a pub fn with no in-repo references is unknowable, not a certain candidate"
    );
    assert!(
        matches!(find("pub_api", "b.rs"), DeadCodeAssessment::Candidate { .. }),
        "the non-pub twin must NOT inherit the sibling's export surface"
    );
    assert!(matches!(find("mystery", "a.rs"), DeadCodeAssessment::Unknown { .. }));
    assert!(matches!(find("truly_dead", "c.rs"), DeadCodeAssessment::Candidate { .. }));
    assert!(matches!(find("main", "c.rs"), DeadCodeAssessment::Excluded { .. }));
    assert!(matches!(
        find("handler_fn", "c.rs"),
        DeadCodeAssessment::IndirectlyReferenced { kinds, .. }
            if kinds.contains(&RK::FrameworkRegistration)
    ));
    let cand = DeadCodeService::candidates(&store, &refs, 50).data;
    let names: Vec<(String, String)> =
        cand.iter().map(|c| (c.file.clone(), c.name.clone())).collect();
    assert_eq!(
        names,
        vec![
            ("b.rs".to_string(), "pub_api".to_string()),
            ("c.rs".to_string(), "truly_dead".to_string())
        ],
        "candidates are exactly the no-evidence symbols, file/line ordered"
    );
    let cand2 = DeadCodeService::candidates(&store, &refs, 50).data;
    assert_eq!(
        cand.iter().map(|c| c.id.as_str()).collect::<Vec<_>>(),
        cand2.iter().map(|c| c.id.as_str()).collect::<Vec<_>>()
    );
    let first = DeadCodeService::candidates(&store, &refs, 1).data;
    assert_eq!(first.len(), 1);
    assert_eq!(first[0].id.as_str(), cand[0].id.as_str());
}

#[test]
fn leaf_names() {
    assert_eq!(leaf_name("a::b::c"), "c");
    assert_eq!(leaf_name("plain"), "plain");
}

fn process(id: &str, file: &str) -> Node {
    Node { language: "python".into(), ..fn_node(id, "process", file, 1) }
}

#[test]
fn same_name_rows_are_independent() {
    let mut store = Store::new();
    let a = process("p.a.process", "a.py");
    let b = process("p.b.process", "b.py");
    store.bulk_upsert_nodes(&vec![process("p.a.process", "a.py"), process("p.b.process", "b.py")]);
    let edge = |dst: &str, relation: EdgeRelation| Edge {
        src: "p.t.test_process".into(),
        dst: dst.into(),
        relation,
        tier: ResolutionTier::TreeSitter,
        confidence: Confidence::Inferred,
        src_file: "test_a.py".into(),
        src_line: 3,
        metadata: Metadata::new(),
    };
    store.bulk_upsert_edges(&vec![
        edge("p.a.process", EdgeRelation::Calls),
        edge("p.a.process", EdgeRelation::Tests),
    ]);
    let ra = ReviewService::row_for(&store, &a);
    let rb = ReviewService::row_for(&store, &b);
    assert_eq!(ra.fan_in_resolved, 1);
    assert_eq!(rb.fan_in_resolved, 0, "twin must not inherit fan-in");
    assert_eq!(ra.tested, TestEvidence::Resolved);
    assert_ne!(rb.tested, TestEvidence::Resolved, "twin must not inherit coverage");
}

fn changed(kind: ChangeKind, path: &str, from: Option<&str>) -> ChangedPath {
    ChangedPath { kind, path: path.into(), old_path: from.map(|p| p.to_string()) }
}

#[test]
fn a_diff_is_read() {
    let listing = b"M\0a.rs\0A\0b c.rs\0D\0d.rs\0R087\0old.rs\0new.rs\0C100\0x.rs\0y\tz.rs\0";
    assert_eq!(
        diff_status(&listing.to_vec()).unwrap(),
        vec![
            changed(ChangeKind::Modified, "a.rs", None),
            changed(ChangeKind::Added, "b c.rs", None),
            changed(ChangeKind::Deleted, "d.rs", None),
            changed(ChangeKind::Renamed, "new.rs", Some("old.rs")),
            changed(ChangeKind::Copied, "y\tz.rs", Some("x.rs")),
        ]
    );
    assert!(diff_status(&vec![]).unwrap().is_empty());
    // bytes that are no text are replaced
    let odd = diff_status(&b"A\0\xff.rs\0".to_vec()).unwrap();
    assert_eq!(odd[0].path, "\u{fffd}.rs");
}

#[test]
fn a_diff_that_breaks_off_is_refused() {
    let refused = |b: &[u8]| diff_status(&b.to_vec()).unwrap_err().message();
    assert_eq!(refused(b"R100\0old.rs\0"), "rename/copy missing new path");
    assert_eq!(refused(b"M\0"), "git -z stream truncated after \"M\"");
    assert_eq!(refused(b"Xy\0a.rs\0"), "unrecognized git status field \"Xy\" (Some('X'))");
}

fn facts(change: ChangedPath, current: &str, base: &str) -> ChangeFacts {
    ChangeFacts { change, current: Ok(current.into()), base: Ok(base.into()) }
}

#[test]
fn deleted_symbols_are_listed() {
    let store = Store::new();
    let f = facts(changed(ChangeKind::Deleted, "gone.rs", None), "", "fn one() {}\nfn two() {}\n");
    let part = ReviewService::review_change(&store, &f);
    let names: Vec<&str> = part.base_only.iter().map(|b| b.name.as_str()).collect();
    assert_eq!(names, vec!["one", "two"]);
    assert!(part.base_only.iter().all(|b| b.disposition == BaseDisposition::FileDeleted));
    assert!(part.unknown.is_empty());
}

#[test]
fn a_review_gathers_its_parts() {
    let mut store = Store::new();
    store.bulk_upsert_nodes(&vec![fn_node("p.a.kept", "kept", "a.rs", 1)]);
    store.save_calls(
        "b.rs",
        &vec![RawCall {
            caller_id: "p.b.f".into(),
            callee_name: "kept".into(),
            line: 4,
            receiver: Receiver::Bare,
            enclosing_class: None,
        }],
    );
    store.save_cochanges(&vec![CoChange { file_a: "a.rs".into(), file_b: "z.rs".into(), n: 3 }]);
    let f = facts(
        changed(ChangeKind::Modified, "a.rs", None),
        "fn kept() {}\n",
        "fn kept() {}\nfn lost() {}\n",
    );
    let r = ReviewService::review(&store, "main", &vec![f]).data;
    assert_eq!(r.base, "main");
    assert_eq!(r.changed_files, vec!["a.rs".to_string()]);
    assert_eq!(r.rows.len(), 1);
    assert_eq!(r.rows[0].textual_sites, 1);
    assert_eq!(r.rows[0].tested, TestEvidence::Absent);
    assert_eq!(r.base_only.len(), 1);
    assert_eq!(r.base_only[0].name, "lost");
    assert_eq!(r.base_only[0].line, 2);
    assert_eq!(r.co_change_hints, vec![("z.rs".to_string(), 3)]);
}

#[test]
fn an_unseen_source_is_unknown() {
    let store = Store::new();
    let f = facts(changed(ChangeKind::Modified, "new.rs", None), "fn f() {}\n", "");
    assert_eq!(ReviewService::review_change(&store, &f).unknown, vec!["new.rs (not indexed — no graph coverage)".to_string()]);
    let doc = facts(changed(ChangeKind::Deleted, "notes.md", None), "", "# notes");
    assert!(ReviewService::review_change(&store, &doc).unknown.is_empty());
    assert!(is_code_file("a/b.rs"));
    assert!(!is_code_file("notes.md"));
}

#[test]
fn risks_rank_rows() {
    assert_eq!(risk_tier(6.0f64.to_bits()), RiskTier::High);
    assert_eq!(risk_tier(2.5f64.to_bits()), RiskTier::Med);
    assert_eq!(risk_tier(2.4f64.to_bits()), RiskTier::Low);
    let store = Store::new();
    let row = |id: &str| ReviewService::row_for(&store, &fn_node(id, id, "a.rs", 1));
    let risks = vec![0.1f64.to_bits(), 7.5f64.to_bits()];
    let ranked = rank_rows(&vec![row("low"), row("high")], &risks);
    assert_eq!(ranked[0].row.id, "high");
    assert_eq!(ranked[0].tier, RiskTier::High);
    assert_eq!(ranked[1].row.id, "low");
}

#[test]
fn changed_names_are_read() {
    assert_eq!(
        changed_names(&b"src/a.rs\n\nb c.md\r\nlast".to_vec()),
        vec!["src/a.rs".to_string(), "b c.md".to_string(), "last".to_string()]
    );
    assert_eq!(changed_names(&vec![b'a', 0xff, b'\n']), vec!["a\u{fffd}".to_string()]);
    assert!(changed_names(&vec![]).is_empty());
    assert_eq!(names_in("\nx\n"), vec!["x".to_string()]);
}
