use project_knowledge_graph::evidence::{source_text, SourceTable};
use project_knowledge_graph::export::{mermaid, EdgeSummary, NodeSummary};
use project_knowledge_graph::gold::{gold_check, plan_gold_question, GoldPlan};
use project_knowledge_graph::graph::{shortest_path, traverse, GraphEdge};
use project_knowledge_graph::index::{build_fingerprint, check_build_records, index_rows, SCHEMA_SQL};
use project_knowledge_graph::lock::{
    audit_evidence, check_lock_version, collect_snapshots, git_lock_status, lock_evidence,
    verify_lock,
};
use project_knowledge_graph::model::{
    Alias, Config, Direction, Edge, Evidence, GitContext, GoldQuestion, LoadedRecord, Node, Record,
    SchemaVersion,
};
use project_knowledge_graph::paths::{blocked_set, check_relative, check_resolved};
use project_knowledge_graph::query::{choose_node, fts_query, like_pattern, walk_ids};
use project_knowledge_graph::validate::{canonical_records, validate_records};

const CLIENT: &str = "function send() {\n  socket.send('serve');\n}\n";

fn strings(values: &[&str]) -> Vec<String> {
    values.iter().map(|value| value.to_string()).collect()
}

fn config() -> Config {
    Config {
        schema_version: SchemaVersion::Text("1.0".to_string()),
        project: "fixture".to_string(),
        database: ".project-graph/cache/graph.sqlite".to_string(),
        assertion_globs: strings(&[".project-graph/assertions/*.jsonl"]),
        require_edge_evidence: true,
        node_types: strings(&[
            "Component", "File", "Symbol", "Interface", "State", "DataStore", "Invariant", "Flow",
            "Decision", "Incident", "Release", "Verification",
        ]),
        predicates: strings(&[
            "DEFINES", "CALLS", "SENDS", "HANDLES", "TRANSITIONS_TO", "READS", "WRITES",
            "DEPENDS_ON", "IMPLEMENTS", "GUARDED_BY", "DOCUMENTED_IN", "VERIFIED_BY", "VIOLATES",
            "FIXED_BY", "SHIPPED_IN",
        ]),
        impact_predicates: strings(&[
            "CALLS", "SENDS", "HANDLES", "READS", "WRITES", "DEPENDS_ON", "IMPLEMENTS",
            "GUARDED_BY", "VERIFIED_BY",
        ]),
        blocked_paths: strings(&[
            ".git/**", "**/.git/**", ".secrets/**", "**/.secrets/**", "*secret*", "**/*secret*",
            "*credential*", "**/*credential*", "*.tfstate", "*.tfstate.*", "**/*.tfstate",
            "**/*.tfstate.*", "*.tfplan", "**/*.tfplan", ".env", ".env.*", "**/.env", "**/.env.*",
            "ovh.txt", "**/ovh.txt",
        ]),
    }
}

fn evidence(path: &str, start: &str, end: Option<&str>) -> Evidence {
    Evidence {
        path: path.to_string(),
        start_anchor: Some(start.to_string()),
        anchor: None,
        end_anchor: end.map(str::to_string),
        start_occurrence: None,
        end_occurrence: None,
        method: None,
        review: None,
        extractor_version: None,
        extra: Vec::new(),
    }
}

fn node(id: &str, node_type: &str, name: &str, review: &str) -> Record {
    Record::Node(Node {
        id: id.to_string(),
        node_type: node_type.to_string(),
        name: name.to_string(),
        description: String::new(),
        review: review.to_string(),
        evidence: Vec::new(),
        attributes: "{}".to_string(),
        extra: Vec::new(),
    })
}

fn edge(id: &str, source: &str, predicate: &str, target: &str, evidence: Vec<Evidence>) -> Record {
    Record::Edge(Edge {
        id: id.to_string(),
        source: source.to_string(),
        predicate: predicate.to_string(),
        target: target.to_string(),
        description: String::new(),
        review: "reviewed".to_string(),
        confidence_bits: None,
        valid_from: None,
        valid_to: None,
        evidence,
        attributes: "{}".to_string(),
        extra: Vec::new(),
    })
}

fn alias(alias: &str, node: &str) -> Record {
    Record::Alias(Alias {
        alias: alias.to_string(),
        node: node.to_string(),
        review: "reviewed".to_string(),
        evidence: Vec::new(),
        extra: Vec::new(),
    })
}

fn loaded(records: Vec<Record>, origin: &str) -> Vec<LoadedRecord> {
    records
        .into_iter()
        .enumerate()
        .map(|(index, record)| LoadedRecord { record, origin: origin.to_string(), line: index + 1 })
        .collect()
}

fn fixture_records() -> Vec<LoadedRecord> {
    let mut send_serve = evidence("client.js", "function send() {", Some("}"));
    send_serve.method = Some("deterministic".to_string());
    send_serve.review = Some("reviewed".to_string());
    loaded(
        vec![
            node("symbol:send", "Symbol", "send", "reviewed"),
            node("interface:serve", "Interface", "serve", "reviewed"),
            edge("edge:send-serve", "symbol:send", "SENDS", "interface:serve", vec![send_serve]),
            alias("OP_SERVE", "interface:serve"),
        ],
        ".project-graph/assertions/core.jsonl",
    )
}

fn table(files: &[(&str, &str)]) -> SourceTable {
    files
        .iter()
        .map(|(path, content)| (path.to_string(), source_text(content.as_bytes().to_vec(), path)))
        .collect()
}

fn graph_edges(records: &[LoadedRecord]) -> Vec<GraphEdge> {
    records
        .iter()
        .filter_map(|loaded| match &loaded.record {
            Record::Edge(edge) => Some(GraphEdge {
                id: edge.id.clone(),
                source: edge.source.clone(),
                target: edge.target.clone(),
                predicate: edge.predicate.clone(),
            }),
            _ => None,
        })
        .collect()
}

/// Resolves a value as the index does: exact node id, alias without case,
/// then a unique node whose id or name contains it.
fn resolve(records: &[LoadedRecord], value: &str) -> Result<String, String> {
    let exact = records.iter().find_map(|loaded| match &loaded.record {
        Record::Node(node) if node.id == value => Some(node.id.clone()),
        _ => None,
    });
    let alias = records.iter().find_map(|loaded| match &loaded.record {
        Record::Alias(alias) if alias.alias.to_lowercase() == value.to_lowercase() => {
            Some(alias.node.clone())
        }
        _ => None,
    });
    let mut fuzzy: Vec<String> = records
        .iter()
        .filter_map(|loaded| match &loaded.record {
            Record::Node(node) if node.id.contains(value) || node.name.contains(value) => {
                Some(node.id.clone())
            }
            _ => None,
        })
        .collect();
    fuzzy.sort();
    fuzzy.truncate(11);
    choose_node(value, exact, alias, &fuzzy).map_err(|error| error.message())
}

/// An in-memory index built from the library's rows, queried as the command
/// line queries it.
fn search_counts(records: &Vec<LoadedRecord>, files: &SourceTable, term: &str) -> (usize, usize) {
    let config = config();
    let snapshots = collect_snapshots(records, files).expect("snapshots");
    let lock = lock_evidence(records, files, None, false, "now".to_string()).expect("lock");
    let plan = index_rows(&config, records, &lock, &snapshots, "fingerprint", "now").expect("rows");
    let connection = rusqlite::Connection::open_in_memory().expect("memory database");
    connection.execute_batch(SCHEMA_SQL).expect("schema");
    for row in &plan.graph.nodes {
        connection
            .execute(
                "INSERT INTO nodes VALUES (?1, ?2, ?3, ?4, ?5, ?6)",
                (&row.id, &row.node_type, &row.name, &row.description, &row.review, &row.attributes_json),
            )
            .expect("node");
    }
    for row in &plan.graph.edges {
        connection
            .execute(
                "INSERT INTO edges VALUES (?1, ?2, ?3, ?4, ?5, ?6, NULL, ?7, ?8, ?9)",
                (
                    &row.id, &row.source_id, &row.predicate, &row.target_id, &row.description, &row.review,
                    &row.valid_from, &row.valid_to, &row.attributes_json,
                ),
            )
            .expect("edge");
    }
    for row in &plan.graph.search {
        connection
            .execute(
                "INSERT INTO search_index (kind, graph_id, text) VALUES (?1, ?2, ?3)",
                (&row.kind, &row.graph_id, &row.text),
            )
            .expect("search row");
    }
    let count = |sql: &str, param: &str| -> usize {
        let mut statement = connection.prepare(sql).expect("prepare");
        statement
            .query_map((param,), |_| Ok(()))
            .expect("query")
            .count()
    };
    match fts_query(term) {
        Some(query) => (
            count(
                "SELECT DISTINCT n.id FROM search_index si JOIN nodes n ON n.id = si.graph_id
                 WHERE search_index MATCH ?1 AND si.kind IN ('node', 'alias') AND n.review = 'reviewed'",
                &query,
            ),
            count(
                "SELECT DISTINCT e.id FROM search_index si JOIN edges e ON e.id = si.graph_id
                 WHERE search_index MATCH ?1 AND si.kind = 'edge' AND e.review = 'reviewed'",
                &query,
            ),
        ),
        None => {
            let like = like_pattern(term);
            (
                count(
                    r"SELECT id FROM nodes WHERE review = 'reviewed'
                      AND (id LIKE ?1 ESCAPE '\' OR name LIKE ?1 ESCAPE '\')",
                    &like,
                ),
                count(
                    r"SELECT id FROM edges WHERE review = 'reviewed'
                      AND (id LIKE ?1 ESCAPE '\' OR predicate LIKE ?1 ESCAPE '\')",
                    &like,
                ),
            )
        }
    }
}

#[test]
fn builds_queries_aliases_and_finds_paths() {
    let config = config();
    let records = fixture_records();
    let files = table(&[("client.js", CLIENT)]);
    assert!(validate_records(&config, &records, Some(&files)).is_empty());
    let lock = lock_evidence(&records, &files, None, false, "now".to_string()).expect("lock");
    let edges = graph_edges(&records);

    let start = resolve(&records, "symbol:send").expect("start");
    let goal = resolve(&records, "OP_SERVE").expect("goal");
    let path = shortest_path(&edges, &start, &goal, 8, Direction::Both).expect("path");
    assert_eq!(walk_ids(&start, &path), ["symbol:send", "interface:serve"]);

    let center = resolve(&records, "OP_SERVE").expect("center");
    let neighborhood = traverse(&edges, &center, 1, Direction::Both, None);
    assert_eq!(neighborhood.edges.len(), 1);
    let (nodes, edge_hits) = search_counts(&records, &files, "serve");
    assert_eq!(nodes, 1);
    assert_eq!(edge_hits, 1);
    let audit = audit_evidence(&records, &files, &lock);
    assert!(audit.iter().all(|row| row.lock_status == "fresh"));
}

#[test]
fn status_reports_a_usable_unlocked_graph_and_a_ready_index() {
    let config = config();
    let records = fixture_records();
    let files = table(&[("client.js", CLIENT)]);
    let empty = project_knowledge_graph::model::EvidenceLock {
        version: 3,
        updated_at: None,
        git: None,
        evidence: Vec::new(),
    };
    let audit = audit_evidence(&records, &files, &empty);
    let counts = project_knowledge_graph::lock::status_counts(&audit);
    assert_eq!(counts, vec![("unlocked".to_string(), 1)]);

    let snapshots = collect_snapshots(&records, &files).expect("snapshots");
    let plan = index_rows(&config, &records, &empty, &snapshots, "fingerprint", "now").expect("build unlocked graph");
    assert_eq!(plan.counts.nodes, 2);
    assert_eq!(plan.evidence[0].lock_status, "unlocked");
}

#[test]
fn canonical_lock_and_build_reject_unreviewed_records_without_replacing_the_index() {
    let config = config();
    let files = table(&[("client.js", CLIENT)]);
    let mut records = fixture_records();
    assert!(lock_evidence(&records, &files, None, false, "now".to_string()).is_ok());
    records.extend(loaded(
        vec![node("component:coverage-draft", "Component", "coverage draft", "candidate")],
        ".project-graph/assertions/unreviewed.jsonl",
    ));
    assert!(validate_records(&config, &records, Some(&files)).is_empty());

    let lock_error = lock_evidence(&records, &files, None, false, "now".to_string())
        .expect_err("candidate records must not enter the evidence lock");
    assert!(lock_error.message().contains("only reviewed records"));
    let build_error = check_build_records(&config, &records, &files)
        .expect_err("candidate records must not enter the SQLite index");
    assert!(build_error.message().contains("only reviewed records"));
    assert_eq!(
        canonical_records(&records).expect_err("refusal").message(),
        ".project-graph/assertions/unreviewed.jsonl:1: node \"component:coverage-draft\" is \"candidate\"; canonical lock/build accepts only reviewed records"
    );
}

#[test]
fn reviewed_records_cannot_cite_unreviewed_evidence() {
    let config = config();
    let files = table(&[("client.js", CLIENT)]);
    let mut records = fixture_records();
    let mut cited = evidence("client.js", "function send() {", Some("}"));
    cited.method = Some("deterministic".to_string());
    cited.review = Some("candidate".to_string());
    let mut bad = node("component:bad-evidence", "Component", "bad evidence", "reviewed");
    if let Record::Node(node) = &mut bad {
        node.evidence.push(cited);
    }
    records.extend(loaded(vec![bad], ".project-graph/assertions/bad-evidence.jsonl"));
    assert!(validate_records(&config, &records, Some(&files))
        .iter()
        .any(|error| error.contains("reviewed record must be reviewed")));
}

#[test]
fn lock_captures_git_context_without_making_commit_drift_evidence_staleness() {
    let records = fixture_records();
    let files = table(&[("client.js", CLIENT)]);
    let at_lock = GitContext {
        head: "1111111".to_string(),
        tree: "aaaaaaa".to_string(),
        branch: Some("main".to_string()),
        worktree_clean: true,
    };
    let lock = lock_evidence(&records, &files, Some(at_lock.clone()), false, "now".to_string())
        .expect("lock with Git metadata");
    let captured = lock.git.as_ref().expect("captured Git context");
    assert!(captured.worktree_clean);
    assert_eq!(git_lock_status(&lock.git, &Some(at_lock.clone())), "same_commit");

    let later = GitContext { head: "2222222".to_string(), ..at_lock };
    assert_eq!(git_lock_status(&lock.git, &Some(later.clone())), "different_commit");
    let audit = audit_evidence(&records, &files, &lock);
    let report = verify_lock(&audit, &lock.git, &Some(later.clone()), true, false, true);
    assert!(report.valid);
    let strict = verify_lock(&audit, &lock.git, &Some(later), true, true, true);
    assert!(!strict.valid);
}

#[test]
fn moving_an_intact_span_is_fresh_but_changing_it_is_stale() {
    let records = fixture_records();
    let files = table(&[("client.js", CLIENT)]);
    let lock = lock_evidence(&records, &files, None, false, "now".to_string()).expect("lock");
    let moved = table(&[("client.js", "\n\n// preface\nfunction send() {\n  socket.send('serve');\n}\n")]);
    let audit = audit_evidence(&records, &moved, &lock);
    assert_eq!(audit[0].lock_status, "fresh");
    assert_eq!(audit[0].outcome.as_ref().expect("resolved").0.line_start, 4);

    let changed = table(&[("client.js", "function send() {\n  socket.send('changed');\n}\n")]);
    let audit = audit_evidence(&records, &changed, &lock);
    assert_eq!(audit[0].lock_status, "stale");
}

#[test]
fn missing_and_ambiguous_anchors_are_reported() {
    let config = config();
    let records = fixture_records();
    let files = table(&[("client.js", CLIENT)]);
    let lock = lock_evidence(&records, &files, None, false, "now".to_string()).expect("lock");
    let renamed = table(&[("client.js", "function renamed() {}\n")]);
    let audit = audit_evidence(&records, &renamed, &lock);
    assert_eq!(audit[0].lock_status, "unresolved");

    let ambiguous = table(&[("client.js", "socket one\nsocket two\n}\n")]);
    let mut records = fixture_records();
    if let Record::Edge(edge) = &mut records[2].record {
        edge.evidence[0].start_anchor = Some("socket".to_string());
    }
    let errors = validate_records(&config, &records, Some(&ambiguous));
    assert!(errors.iter().any(|error| error.contains("ambiguous")));
}

#[test]
fn blocked_source_is_rejected() {
    let policy = blocked_set(&config().blocked_paths).expect("policy");
    let error = check_relative(&policy, "ovh.txt").expect_err("blocked");
    assert!(error.message().contains("blocked"));
    let config = config();
    let mut records = fixture_records();
    if let Record::Edge(edge) = &mut records[2].record {
        edge.evidence[0].path = "ovh.txt".to_string();
    }
    let files: SourceTable = vec![("ovh.txt".to_string(), Err(error))];
    assert!(validate_records(&config, &records, Some(&files))
        .iter()
        .any(|error| error.contains("blocked")));
}

#[test]
fn gold_questions_check_bounded_retrieval() {
    let records = fixture_records();
    let question = GoldQuestion {
        question: "What does send reach?".to_string(),
        seeds: strings(&["symbol:send"]),
        depth: 1,
        direction: "out".to_string(),
        predicates: None,
        expected_nodes: strings(&["symbol:send", "OP_SERVE"]),
    };
    let direction = match plan_gold_question(0, &question).expect("plan") {
        GoldPlan::Run(direction) => direction,
        GoldPlan::Skip => panic!("an executable question"),
    };
    let seeds: Vec<String> = question.seeds.iter().map(|seed| resolve(&records, seed).expect("seed")).collect();
    let expected: Vec<String> = question
        .expected_nodes
        .iter()
        .map(|node| resolve(&records, node).expect("expected"))
        .collect();
    let check = gold_check(&graph_edges(&records), &seeds, &expected, question.depth, direction, None);
    assert!(check.missing.is_empty());
    let coverage = (check.expected.len() - check.missing.len()) as f64 / check.expected.len() as f64;
    assert_eq!(coverage, 1.0);
}

#[test]
fn build_reuses_the_index_only_when_assertions_evidence_and_lock_are_unchanged() {
    let records = fixture_records();
    let files = table(&[("client.js", CLIENT)]);
    let lock = lock_evidence(&records, &files, None, false, "now".to_string()).expect("lock");
    let assertions = vec![(".project-graph/assertions/core.jsonl".to_string(), b"records".to_vec())];
    let snapshots = collect_snapshots(&records, &files).expect("snapshots");
    let initial = build_fingerprint(b"config", &assertions, &snapshots, &lock);
    let unchanged = build_fingerprint(b"config", &assertions, &snapshots, &lock);
    assert_eq!(initial, unchanged);

    let changed = table(&[("client.js", "function send() {\n  socket.send('serve again');\n}\n")]);
    let snapshots = collect_snapshots(&records, &changed).expect("snapshots");
    let rebuilt = build_fingerprint(b"config", &assertions, &snapshots, &lock);
    assert_ne!(initial, rebuilt);
}

#[test]
fn fts_operator_words_are_plain_search_terms() {
    let records = fixture_records();
    let files = table(&[("client.js", CLIENT)]);
    for term in ["OR", "AND", "NOT", "send NOT serve", "NEAR(send)"] {
        search_counts(&records, &files, term);
    }
    let (nodes, _) = search_counts(&records, &files, "send");
    assert_eq!(nodes, 1);
}

#[test]
fn like_wildcards_are_literal_in_fuzzy_resolution() {
    let records = fixture_records();
    let error = resolve(&records, "____").expect_err("underscores must not be wildcards");
    assert!(error.contains("No node matches"));
    let error = resolve(&records, "%").expect_err("percent is literal");
    assert!(error.contains("No node matches"));
    assert_eq!(like_pattern("____"), "%\\_\\_\\_\\_%");
    assert_eq!(like_pattern("%"), "%\\%%");
}

#[test]
fn alias_and_edge_ids_cannot_shadow_node_ids() {
    let config = config();
    let mut records = fixture_records();
    records.extend(loaded(
        vec![
            alias("symbol:send", "interface:serve"),
            edge(
                "interface:serve",
                "symbol:send",
                "SENDS",
                "interface:serve",
                vec![evidence("client.js", "function send() {", None)],
            ),
        ],
        ".project-graph/assertions/shadow.jsonl",
    ));
    let errors = validate_records(&config, &records, None);
    assert!(errors.iter().any(|error| error.contains("alias \"symbol:send\" collides")));
    assert!(errors.iter().any(|error| error.contains("edge id \"interface:serve\" collides")));
}

#[test]
fn newer_lock_versions_are_rejected() {
    let error = check_lock_version("/fixture/.project-graph/evidence-lock.json", 99)
        .expect_err("future lock version must be refused");
    assert!(error.message().contains("newer than this binary"));
}

#[test]
fn blocked_paths_match_case_insensitively() {
    let policy = blocked_set(&config().blocked_paths).expect("policy");
    let error = check_relative(&policy, "OVH.TXT").expect_err("blocked");
    assert!(error.message().contains("blocked"));
}

#[test]
fn symlink_cannot_alias_a_blocked_source() {
    let policy = blocked_set(&config().blocked_paths).expect("policy");
    let normalized = check_relative(&policy, "innocent.txt").expect("innocent name");
    let error = check_resolved(&policy, "/fixture", "innocent.txt", &normalized, Some("/fixture/ovh.txt"))
        .expect_err("blocked");
    assert!(error.message().contains("blocked"));
}

#[test]
fn evidence_selector_typos_are_rejected() {
    let config = config();
    let mut records = fixture_records();
    if let Record::Edge(edge) = &mut records[2].record {
        edge.evidence[0].extra.push(("start_occurence".to_string(), "2".to_string()));
    }
    assert!(validate_records(&config, &records, None)
        .iter()
        .any(|error| error.contains("resembles a selector field")));
}

#[test]
fn undirected_neighborhoods_return_the_induced_edge_set() {
    let cite = || vec![evidence("client.js", "function send() {", None)];
    let records = loaded(
        vec![
            node("node:a", "Component", "a", "reviewed"),
            node("node:b", "Component", "b", "reviewed"),
            node("node:c", "Component", "c", "reviewed"),
            edge("edge:ab", "node:a", "DEPENDS_ON", "node:b", cite()),
            edge("edge:ac", "node:a", "DEPENDS_ON", "node:c", cite()),
            edge("edge:bc", "node:b", "DEPENDS_ON", "node:c", cite()),
        ],
        ".project-graph/assertions/core.jsonl",
    );
    let edges = graph_edges(&records);
    // b and c are both discovered at depth 1 from a; edge b->c joins two
    // final-level nodes and must still be present in the undirected result.
    let neighborhood = traverse(&edges, "node:a", 1, Direction::Both, None);
    assert_eq!(neighborhood.nodes.len(), 3);
    assert_eq!(neighborhood.edges.len(), 3);
    // A directed traversal keeps discovery edges only.
    let directed = traverse(&edges, "node:a", 1, Direction::Out, None);
    assert_eq!(directed.edges.len(), 2);
}

#[test]
fn export_draws_one_subgraph_per_type() {
    let nodes = vec![
        NodeSummary { id: "interface:serve".into(), name: "serve".into(), node_type: "Interface".into() },
        NodeSummary { id: "symbol:send".into(), name: "send".into(), node_type: "Symbol".into() },
    ];
    let edges = vec![EdgeSummary {
        source_id: "symbol:send".into(),
        target_id: "interface:serve".into(),
        predicate: "SENDS".into(),
    }];
    let text = mermaid(&nodes, &edges, None);
    assert_eq!(
        text,
        "flowchart LR\n    subgraph G1[\"Interface\"]\n        N1[\"serve<br/><small>interface:serve</small>\"]\n    end\n    subgraph G2[\"Symbol\"]\n        N2[\"send<br/><small>symbol:send</small>\"]\n    end\n    N2 -->|\"SENDS\"| N1\n"
    );
}
