use project_knowledge_graph::error::GraphError;
use project_knowledge_graph::evidence::{
    evidence_key, evidence_selector, select_occurrence, snapshot_evidence, source_text, split_lines,
    SourceTable,
};
use project_knowledge_graph::export::mermaid_escape;
use project_knowledge_graph::gold::{plan_gold_question, GoldPlan};
use project_knowledge_graph::graph::GraphEdge;
use project_knowledge_graph::hash::sha256_hex;
use project_knowledge_graph::index::{build_fingerprint, graph_rows, stored_selector, SCHEMA_SQL};
use project_knowledge_graph::lock::{
    check_clean_worktree, check_lock_version, git_context, git_output_text, lock_evidence,
    status_counts, verify_lock, AuditRow,
};
use project_knowledge_graph::model::{
    Alias, Config, Direction, Edge, Evidence, EvidenceLock, EvidenceSelector, GitContext,
    GoldQuestion, LoadedRecord, Node, Record, SchemaVersion,
};
use project_knowledge_graph::paths::{
    blocked_set, check_relative, check_resolved, relative_slash, sort_paths,
};
use project_knowledge_graph::query::{
    choose_node, fts_query, like_pattern, parse_direction, path_between, select_ids,
};
use project_knowledge_graph::records::{jsonl_entries, project_name, source_paths};
use project_knowledge_graph::validate::{check_config, valid_id, validate_records};
use sha2::{Digest, Sha256};

fn strings(values: &[&str]) -> Vec<String> {
    values.iter().map(|value| value.to_string()).collect()
}

fn config() -> Config {
    Config {
        schema_version: SchemaVersion::Text("1.0".to_string()),
        project: "fixture".to_string(),
        database: ".project-graph/cache/graph.sqlite".to_string(),
        assertion_globs: strings(&[".project-graph/assertions/*.jsonl"]),
        require_edge_evidence: true,
        node_types: strings(&["Component", "Symbol", "Interface"]),
        predicates: strings(&["SENDS", "DEPENDS_ON"]),
        impact_predicates: Vec::new(),
        blocked_paths: strings(&["ovh.txt", "**/ovh.txt", "*secret*"]),
    }
}

fn evidence(path: &str, start: Option<&str>, end: Option<&str>) -> Evidence {
    Evidence {
        path: path.to_string(),
        start_anchor: start.map(str::to_string),
        anchor: None,
        end_anchor: end.map(str::to_string),
        start_occurrence: None,
        end_occurrence: None,
        method: None,
        review: None,
        extractor_version: None,
        extra: Vec::new(),
    }
}

fn node(id: &str, node_type: &str, name: &str) -> Record {
    Record::Node(Node {
        id: id.to_string(),
        node_type: node_type.to_string(),
        name: name.to_string(),
        description: String::new(),
        review: "reviewed".to_string(),
        evidence: Vec::new(),
        attributes: "{}".to_string(),
        extra: Vec::new(),
    })
}

fn edge(id: &str, source: &str, target: &str, cites: Vec<Evidence>) -> Record {
    Record::Edge(Edge {
        id: id.to_string(),
        source: source.to_string(),
        predicate: "SENDS".to_string(),
        target: target.to_string(),
        description: "sends".to_string(),
        review: "reviewed".to_string(),
        confidence_bits: None,
        valid_from: None,
        valid_to: None,
        evidence: cites,
        attributes: "{}".to_string(),
        extra: Vec::new(),
    })
}

fn alias(alias: &str, node: &str) -> Record {
    Record::Alias(Alias {
        alias: alias.to_string(),
        node: node.to_string(),
        review: "reviewed".to_string(),
        evidence: Vec::new(),
        extra: Vec::new(),
    })
}

fn loaded(records: Vec<Record>) -> Vec<LoadedRecord> {
    records
        .into_iter()
        .enumerate()
        .map(|(index, record)| LoadedRecord { record, origin: "a.jsonl".to_string(), line: index + 1 })
        .collect()
}

fn table(files: &[(&str, &str)]) -> SourceTable {
    files
        .iter()
        .map(|(path, content)| (path.to_string(), source_text(content.as_bytes().to_vec(), path)))
        .collect()
}

fn lines(values: &[&str]) -> Vec<String> {
    strings(values)
}

#[test]
fn identifiers_start_with_a_letter_or_digit() {
    assert!(valid_id("symbol:send"));
    assert!(valid_id("a_b.c/d-e:1"));
    assert!(!valid_id(""));
    assert!(!valid_id("_hidden"));
    assert!(!valid_id("with space"));
    assert!(!valid_id("ümlaut"));
}

#[test]
fn selectors_default_the_end_anchor_and_reject_bad_evidence() {
    let selector = evidence_selector(&evidence("a.rs", Some("fn a"), None)).expect("selector");
    assert_eq!(selector.end_anchor, "fn a");
    let mut from_anchor = evidence("a.rs", None, Some("}"));
    from_anchor.anchor = Some("fn b".to_string());
    assert_eq!(evidence_selector(&from_anchor).expect("anchor").start_anchor, "fn b");

    let message = |e: Evidence| evidence_selector(&e).expect_err("refused").message();
    let mut numbered = evidence("a.rs", Some("fn a"), None);
    numbered.extra.push(("line".to_string(), "3".to_string()));
    assert_eq!(message(numbered), "Line-number evidence is not supported; use start_anchor/end_anchor");
    assert_eq!(message(evidence("a.rs", Some("  "), None)), "Evidence requires a non-empty start_anchor");
    assert_eq!(message(evidence("a.rs", None, None)), "Evidence requires a non-empty start_anchor");
    assert_eq!(message(evidence("a.rs", Some("fn a"), Some(" \t"))), "Evidence end_anchor must be a non-empty string");
    assert_eq!(message(evidence("a.rs", Some("fn\na"), None)), "Evidence anchors must each fit on one source line");
    let mut zero = evidence("a.rs", Some("fn a"), None);
    zero.end_occurrence = Some(0);
    assert_eq!(message(zero), "evidence occurrences must be positive integers");
}

#[test]
fn occurrences_pick_one_matching_line() {
    let text = lines(&["socket one", "socket two", "}"]);
    assert_eq!(select_occurrence(&text, "two", None, 0).expect("unique"), 1);
    assert_eq!(select_occurrence(&text, "socket", Some(2), 0).expect("second"), 1);
    assert_eq!(select_occurrence(&text, "socket", None, 1).expect("after start"), 1);
    assert_eq!(
        select_occurrence(&text, "socket", None, 0).expect_err("ambiguous").message(),
        "Anchor \"socket\" is ambiguous (found 2); set an explicit occurrence"
    );
    assert_eq!(
        select_occurrence(&text, "missing", None, 0).expect_err("missing").message(),
        "Anchor \"missing\" was not found"
    );
    assert_eq!(
        select_occurrence(&text, "socket", Some(3), 0).expect_err("too few").message(),
        "Anchor \"socket\" occurrence 3 was not found (found 2)"
    );
}

#[test]
fn evidence_keys_digest_the_sorted_selector_json() {
    let selector = EvidenceSelector {
        start_anchor: "function send() {".to_string(),
        end_anchor: "say \"hi\"\\".to_string(),
        start_occurrence: None,
        end_occurrence: Some(2),
    };
    let json = format!(
        "{{\"end_anchor\":{},\"end_occurrence\":{},\"start_anchor\":{},\"start_occurrence\":{}}}",
        serde_json::to_string(&selector.end_anchor).unwrap(),
        serde_json::to_string(&selector.end_occurrence).unwrap(),
        serde_json::to_string(&selector.start_anchor).unwrap(),
        serde_json::to_string(&selector.start_occurrence).unwrap(),
    );
    let digest = format!("{:x}", Sha256::digest(json.as_bytes()));
    assert_eq!(evidence_key("src\\client.js", &selector), format!("src/client.js#anchor-{}", &digest[..20]));
}

#[test]
fn sha256_is_written_in_lower_case_hex() {
    assert_eq!(sha256_hex(b"abc"), "ba7816bf8f01cfea414140de5dae2223b00361a396177a9cb410ff61f20015ad");
}

#[test]
fn sources_must_be_utf8_and_split_like_str_lines() {
    assert_eq!(
        source_text(vec![0xff, 0xfe], "bin.dat").expect_err("binary").message(),
        "Evidence source is not UTF-8 text: bin.dat"
    );
    assert_eq!(split_lines("a\r\nb\n\nc"), lines(&["a", "b", "", "c"]));
    assert_eq!(split_lines("a\n"), lines(&["a"]));
    assert!(split_lines("").is_empty());
}

#[test]
fn snapshots_quote_the_span_and_digest_it() {
    let files = table(&[("client.js", "x\nfunction send() {\n  go();\n}\n")]);
    let snapshot = snapshot_evidence(&files, &evidence("client.js", Some("function send"), Some("}"))).expect("span");
    assert_eq!(snapshot.line_start, 2);
    assert_eq!(snapshot.line_end, 4);
    assert_eq!(snapshot.quote, "function send() {\n  go();\n}");
    assert_eq!(snapshot.span_sha256, format!("{:x}", Sha256::digest(snapshot.quote.as_bytes())));
    let error = snapshot_evidence(&files, &evidence("other.js", Some("x"), None)).expect_err("unloaded");
    assert_eq!(error.message(), "evidence source cache entry was not created");
}

#[test]
fn relative_paths_strip_the_root_by_component() {
    assert_eq!(relative_slash("/p", "/p/src/a.rs").expect("inside"), "src/a.rs");
    assert_eq!(relative_slash("/p/", "/p//src/./a.rs/").expect("inside"), "src/./a.rs");
    assert_eq!(relative_slash("/p", "/p").expect("root"), "");
    assert_eq!(relative_slash("/p", "/pq/a").expect_err("outside").message(), "/pq/a escapes project root");
}

#[test]
fn evidence_paths_are_normalized_and_checked() {
    let policy = blocked_set(&config().blocked_paths).expect("policy");
    assert_eq!(check_relative(&policy, "//src\\a.rs").expect("normal"), "src/a.rs");
    assert_eq!(
        check_relative(&policy, "../etc/passwd").expect_err("unsafe").message(),
        "Unsafe evidence path: \"../etc/passwd\""
    );
    assert_eq!(check_relative(&policy, "/").expect_err("empty").message(), "Unsafe evidence path: \"/\"");
    assert_eq!(
        check_relative(&policy, "docs/My-Secret.md").expect_err("blocked").message(),
        "Evidence path is blocked by project policy: docs/My-Secret.md"
    );
    assert_eq!(
        check_resolved(&policy, "/p", "a.rs", "a.rs", None).expect_err("gone").message(),
        "Evidence source does not exist: a.rs"
    );
    assert_eq!(
        check_resolved(&policy, "/p", "a.rs", "a.rs", Some("/elsewhere/a.rs")).expect_err("escape").message(),
        "Evidence path escapes project root: \"a.rs\""
    );
    assert!(check_resolved(&policy, "/p", "a.rs", "a.rs", Some("/p/a.rs")).is_ok());
}

#[test]
fn invalid_blocked_globs_are_reported() {
    let error = blocked_set(&strings(&["ok/**", "a[b"])).err().expect("bad glob");
    assert!(error.message().starts_with("invalid blocked path glob: error parsing glob 'a[b'"));
}

#[test]
fn configurations_need_a_project_and_vocabularies() {
    assert!(check_config(&config()).is_ok());
    let mut blank = config();
    blank.project = "  ".to_string();
    assert_eq!(check_config(&blank).unwrap_err().message(), "config project must be non-empty");
    let mut types = config();
    types.node_types.clear();
    assert_eq!(check_config(&types).unwrap_err().message(), "config node_types must be a non-empty list");
    let mut predicates = config();
    predicates.predicates.clear();
    assert_eq!(check_config(&predicates).unwrap_err().message(), "config predicates must be a non-empty list");
}

#[test]
fn validation_reports_each_rule_with_its_location() {
    let mut bad_review = node("n:bad", "Component", "bad");
    if let Record::Node(n) = &mut bad_review {
        n.review = "maybe".to_string();
        let mut cited = evidence("a.rs", Some("x"), None);
        cited.method = Some("guess".to_string());
        n.evidence.push(cited);
    }
    let records = loaded(vec![
        node("n:a", "Component", "a"),
        node("n:a", "Gizmo", " "),
        node("-bad", "Component", "x"),
        edge("e:1", "n:a", "n:missing", Vec::new()),
        alias("Same", "n:nowhere"),
        alias("SAME", "n:a"),
        bad_review,
    ]);
    let errors = validate_records(&config(), &records, None);
    let expected = [
        "a.jsonl:2: duplicate node id \"n:a\"",
        "a.jsonl:2: unknown node type \"Gizmo\"",
        "a.jsonl:2: node name must be non-empty",
        "a.jsonl:3: invalid or missing id",
        "a.jsonl:4: edge requires evidence",
        "a.jsonl:6: duplicate alias \"SAME\"",
        "a.jsonl:7: invalid review state \"maybe\"",
        "a.jsonl:7: evidence[0] invalid method \"guess\"",
        "a.jsonl:7: evidence[0] invalid review state \"maybe\"",
        "a.jsonl:4: edge \"e:1\" references missing target node \"n:missing\"",
    ];
    assert_eq!(errors, expected);
}

#[test]
fn quoted_values_escape_quotes_in_messages() {
    let records = loaded(vec![node("n:a", "Component", "a"), alias("say \"hi\"", "n:b")]);
    let errors = validate_records(&config(), &records, None);
    assert_eq!(errors, ["a.jsonl:2: alias \"say \\\"hi\\\"\" references missing node \"n:b\""]);
}

#[test]
fn locks_need_a_clean_worktree_when_asked() {
    let clean = Some(GitContext { head: "h".into(), tree: "t".into(), branch: None, worktree_clean: true });
    let dirty = Some(GitContext { head: "h".into(), tree: "t".into(), branch: None, worktree_clean: false });
    assert!(check_clean_worktree(&clean, true).is_ok());
    assert!(check_clean_worktree(&dirty, false).is_ok());
    let message = "cannot lock: --require-clean-worktree requires a clean Git worktree";
    assert_eq!(check_clean_worktree(&dirty, true).unwrap_err().message(), message);
    assert_eq!(check_clean_worktree(&None, true).unwrap_err().message(), message);
    let records = loaded(vec![node("n:a", "Component", "a")]);
    let error = lock_evidence(&records, &Vec::new(), None, true, "now".into()).unwrap_err();
    assert_eq!(error.message(), message);
}

#[test]
fn lock_versions_up_to_the_current_one_are_read() {
    assert!(check_lock_version("lock.json", 3).is_ok());
    assert_eq!(
        check_lock_version("lock.json", 4).unwrap_err().message(),
        "lock.json: lock version 4 is newer than this binary supports (3); upgrade project-graph"
    );
}

#[test]
fn git_outputs_are_trimmed_and_decoded() {
    assert_eq!(git_output_text(true, b" abc\n"), Some("abc".to_string()));
    assert_eq!(git_output_text(false, b"abc"), None);
    assert_eq!(git_output_text(true, &[0xff]), None);
    let context = git_context(
        Some("true".into()),
        Some("h".into()),
        Some("t".into()),
        Some(String::new()),
        Some(String::new()),
    )
    .expect("inside");
    assert_eq!(context.branch, None);
    assert!(context.worktree_clean);
    assert!(git_context(Some("false".into()), Some("h".into()), Some("t".into()), None, None).is_none());
    assert!(git_context(Some("true".into()), None, Some("t".into()), None, None).is_none());
    let dirty = git_context(Some("true".into()), Some("h".into()), Some("t".into()), Some("main".into()), Some("M a".into()))
        .expect("inside");
    assert_eq!(dirty.branch, Some("main".to_string()));
    assert!(!dirty.worktree_clean);
    assert!(!git_context(Some("true".into()), Some("h".into()), Some("t".into()), None, None).unwrap().worktree_clean);
}

fn row(status: &str) -> AuditRow {
    AuditRow {
        subject_kind: "edge".into(),
        subject_id: "e".into(),
        lock_status: status.into(),
        outcome: Err(("a.rs".into(), "gone".into())),
    }
}

#[test]
fn status_counts_are_listed_in_status_order() {
    let rows = vec![row("unresolved"), row("fresh"), row("stale"), row("fresh"), row("unlocked")];
    assert_eq!(
        status_counts(&rows),
        vec![("fresh".to_string(), 2), ("stale".to_string(), 1), ("unlocked".to_string(), 1), ("unresolved".to_string(), 1)]
    );
}

#[test]
fn verification_lists_each_failed_requirement() {
    let rows = vec![row("fresh"), row("stale")];
    let dirty = Some(GitContext { head: "h".into(), tree: "t".into(), branch: None, worktree_clean: false });
    let report = verify_lock(&rows, &None, &dirty, true, true, true);
    assert!(!report.valid);
    assert_eq!(report.nonfresh, 1);
    assert_eq!(report.git_status, "not_recorded");
    assert_eq!(
        report.failures,
        strings(&[
            "evidence is not fresh",
            "Git HEAD differs from the lock or was not recorded",
            "current Git worktree is not clean"
        ])
    );
    let relaxed = verify_lock(&rows, &None, &dirty, false, false, false);
    assert!(relaxed.valid);
    assert_eq!(verify_lock(&rows, &dirty, &None, false, false, false).git_status, "unavailable");
}

#[test]
fn search_terms_become_quoted_words() {
    assert_eq!(fts_query("send NOT serve").as_deref(), Some("\"send\" AND \"NOT\" AND \"serve\""));
    assert_eq!(fts_query("NEAR(send)").as_deref(), Some("\"NEAR\" AND \"send\""));
    assert_eq!(fts_query("café_bar").as_deref(), Some("\"café\" AND \"bar\""));
    assert_eq!(fts_query("--- !!"), None);
    let many = (1..=20).map(|n| format!("w{n}")).collect::<Vec<_>>().join(" ");
    let query = fts_query(&many).expect("words");
    assert_eq!(query.matches(" AND ").count(), 15);
    assert!(query.ends_with("\"w16\""));
    assert_eq!(like_pattern("a_b%c\\d"), "%a\\_b\\%c\\\\d%");
}

#[test]
fn directions_and_node_resolution() {
    assert_eq!(parse_direction("in").unwrap(), Direction::In);
    assert_eq!(parse_direction("both").unwrap(), Direction::Both);
    assert_eq!(parse_direction("up").unwrap_err().message(), "direction must be in, out, or both");
    assert_eq!(choose_node("x", Some("n:x".into()), Some("n:y".into()), &Vec::new()).unwrap(), "n:x");
    assert_eq!(choose_node("x", None, Some("n:y".into()), &Vec::new()).unwrap(), "n:y");
    assert_eq!(choose_node("x", None, None, &strings(&["n:z"])).unwrap(), "n:z");
    let many: Vec<String> = (0..11).map(|n| format!("n:{n:02}")).collect();
    assert_eq!(
        choose_node("n:", None, None, &many).unwrap_err().message(),
        "Ambiguous node \"n:\"; matches: n:00, n:01, n:02, n:03, n:04, n:05, n:06, n:07, n:08, n:09"
    );
}

#[test]
fn paths_between_nodes_respect_the_hop_limit() {
    let edges = vec![
        GraphEdge { id: "e1".into(), source: "a".into(), target: "b".into(), predicate: "P".into() },
        GraphEdge { id: "e2".into(), source: "b".into(), target: "c".into(), predicate: "P".into() },
    ];
    let path = path_between(&edges, "a", "c", 2, Direction::Out).expect("two hops");
    assert_eq!(path, vec![("b".to_string(), 0), ("c".to_string(), 1)]);
    assert_eq!(
        path_between(&edges, "a", "c", 1, Direction::Out).unwrap_err().message(),
        "No path from a to c within 1 hops"
    );
    assert!(path_between(&edges, "c", "a", 5, Direction::Out).is_err());
    assert_eq!(path_between(&edges, "c", "a", 5, Direction::In).unwrap().len(), 2);
    assert_eq!(select_ids(&strings(&["a", "b", "c"]), &strings(&["c", "a"])), vec![0, 2]);
}

#[test]
fn ties_between_shortest_paths_follow_row_order() {
    let edge = |id: &str, source: &str, target: &str| GraphEdge {
        id: id.into(),
        source: source.into(),
        target: target.into(),
        predicate: "P".into(),
    };
    let edges = vec![
        edge("e0", "b", "d"),
        edge("e1", "a", "c"),
        edge("e2", "a", "b"),
        edge("e3", "c", "d"),
    ];
    let path = path_between(&edges, "a", "d", 3, Direction::Out).expect("two hops");
    assert_eq!(path, vec![("c".to_string(), 1), ("d".to_string(), 3)]);
    let back = path_between(&edges, "d", "a", 3, Direction::Both).expect("two hops back");
    assert_eq!(back, vec![("b".to_string(), 0), ("a".to_string(), 2)]);
}

#[test]
fn mermaid_labels_are_escaped() {
    assert_eq!(mermaid_escape("a\\b \"c\"\nd"), "a\\\\b &quot;c&quot;<br/>d");
}

#[test]
fn jsonl_lines_skip_blanks_and_comments() {
    let entries = jsonl_entries("# header\n\n  {\"kind\":\"node\"}  \r\n#x\n{}");
    assert_eq!(entries, vec![(3, "{\"kind\":\"node\"}".to_string()), (5, "{}".to_string())]);
}

#[test]
fn project_names_fall_back_to_the_directory() {
    assert_eq!(project_name(Some("given".into()), Some("dir".into())), "given");
    assert_eq!(project_name(None, Some("dir".into())), "dir");
    assert_eq!(project_name(None, None), "project");
}

#[test]
fn cited_sources_are_listed_once() {
    let records = loaded(vec![
        edge("e:1", "a", "b", vec![evidence("src\\a.rs", Some("x"), None), evidence("b.rs", Some("y"), None)]),
        edge("e:2", "a", "b", vec![evidence("src/a.rs", Some("z"), None)]),
    ]);
    assert_eq!(source_paths(&records), strings(&["src/a.rs", "b.rs"]));
}

#[test]
fn paths_sort_by_component() {
    let sorted = sort_paths(&strings(&["/r/a-c", "/r/a/b", "/r//a/b", "/r/a"]));
    assert_eq!(sorted, strings(&["/r/a", "/r/a/b", "/r/a-c"]));
    let first_kept = sort_paths(&strings(&["/r//a/b", "/r/a/b/", "/r/a/b"]));
    assert_eq!(first_kept, strings(&["/r//a/b"]));
}

#[test]
fn gold_questions_are_checked_before_they_run() {
    let question = |text: &str, seeds: &[&str], direction: &str| GoldQuestion {
        question: text.to_string(),
        seeds: strings(seeds),
        depth: 2,
        direction: direction.to_string(),
        predicates: None,
        expected_nodes: strings(&["n:a"]),
    };
    assert_eq!(
        plan_gold_question(1, &question(" ", &["s"], "out")).unwrap_err().message(),
        ".project-graph/gold-questions.json: question 2 requires a non-empty question"
    );
    assert_eq!(plan_gold_question(0, &question("q", &[], "sideways")).unwrap(), GoldPlan::Skip);
    assert_eq!(
        plan_gold_question(0, &question("q", &["s"], "sideways")).unwrap_err().message(),
        ".project-graph/gold-questions.json: question 1 direction must be in, out, or both"
    );
    assert_eq!(plan_gold_question(0, &question("q", &["s"], "in")).unwrap(), GoldPlan::Run(Direction::In));
}

#[test]
fn search_rows_describe_edges_with_their_endpoint_names() {
    let records = loaded(vec![
        node("n:a", "Component", "Alpha"),
        edge("e:ab", "n:a", "n:b", Vec::new()),
        alias("A", "n:a"),
    ]);
    let rows = graph_rows(&records);
    let texts: Vec<_> = rows.search.iter().map(|row| (row.kind.as_str(), row.graph_id.as_str(), row.text.as_str())).collect();
    assert_eq!(
        texts,
        vec![
            ("node", "n:a", "n:a Component Alpha "),
            ("alias", "n:a", "A"),
            ("edge", "e:ab", "e:ab SENDS sends n:a Alpha n:b "),
        ]
    );
    let selector = EvidenceSelector {
        start_anchor: "a".into(),
        end_anchor: "b\"".into(),
        start_occurrence: Some(2),
        end_occurrence: None,
    };
    assert_eq!(
        stored_selector(&selector),
        "{\"start_anchor\":\"a\",\"end_anchor\":\"b\\\"\",\"start_occurrence\":2,\"end_occurrence\":null}"
    );
}

fn part(digest: &mut Sha256, label: &str, value: &[u8]) {
    digest.update(label.as_bytes());
    digest.update([0]);
    digest.update((value.len() as u64).to_le_bytes());
    digest.update(value);
    digest.update([0]);
}

#[test]
fn fingerprints_cover_schema_config_assertions_snapshots_and_lock() {
    let files = table(&[("a.rs", "fn a() {}\n")]);
    let records = loaded(vec![
        node("n:a", "Component", "a"),
        edge("e:1", "n:a", "n:a", vec![evidence("a.rs", Some("fn a"), None)]),
    ]);
    let lock = lock_evidence(&records, &files, None, false, "now".into()).expect("lock");
    let snapshots = project_knowledge_graph::lock::collect_snapshots(&records, &files).expect("snapshots");
    let assertions = vec![("core.jsonl".to_string(), b"{}".to_vec())];
    let mut digest = Sha256::new();
    part(&mut digest, "schema", SCHEMA_SQL.as_bytes());
    part(&mut digest, "config", b"cfg");
    part(&mut digest, "assertion:core.jsonl", b"{}");
    for (key, snapshot) in &snapshots {
        part(&mut digest, &format!("snapshot:{key}"), snapshot.file_sha256.as_bytes());
        part(&mut digest, &format!("span:{key}"), snapshot.span_sha256.as_bytes());
    }
    for (key, locked) in &lock.evidence {
        part(&mut digest, &format!("lock:{key}"), locked.span_sha256.as_bytes());
    }
    assert_eq!(build_fingerprint(b"cfg", &assertions, &snapshots, &lock), format!("{:x}", digest.finalize()));
    let empty = EvidenceLock { version: 3, updated_at: None, git: None, evidence: Vec::new() };
    assert_ne!(
        build_fingerprint(b"cfg", &assertions, &snapshots, &lock),
        build_fingerprint(b"cfg", &assertions, &snapshots, &empty)
    );
}

#[test]
fn errors_render_their_text() {
    assert_eq!(GraphError::MissingFile("/p/x".into()).message(), "Missing file: /p/x");
    assert_eq!(
        GraphError::JsonLine { path: "a.jsonl".into(), line: 12, message: "bad".into() }.message(),
        "a.jsonl:12: invalid JSON: bad"
    );
}
