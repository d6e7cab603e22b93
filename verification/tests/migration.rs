use rusqlite::Connection;
use zeroclaw_runtime::migration::entry::{
    dedup_entries, normalize_key, parse_category, MemoryCategory, SourceEntry,
};
use zeroclaw_runtime::migration::files::{backup_dir_name, is_markdown_file, markdown_stem};
use zeroclaw_runtime::migration::import::{AgentAliasMap, ImportAction, ImportRun};
use zeroclaw_runtime::migration::markdown::{parse_markdown_file, parse_structured_memory_line};
use zeroclaw_runtime::migration::sqlite::{
    agents_from_rows, agents_select_sql, entries_from_rows, memories_select_sql,
    pick_column_expr, pick_optional_column_expr, AgentRow, MemoryRow,
};
use zeroclaw_runtime::text::ascii_lowercase;

/// Reads the memories of `conn` the way the importer does: column names,
/// the query built for them, and the rows turned into entries.
fn read_entries(conn: &Connection) -> Vec<SourceEntry> {
    let mut stmt = conn.prepare("PRAGMA table_info(memories)").unwrap();
    let cols: Vec<String> = stmt
        .query_map([], |row| row.get::<_, String>(1))
        .unwrap()
        .map(|c| ascii_lowercase(&c.unwrap()))
        .collect();
    let sql = memories_select_sql(&cols).unwrap();
    let mut stmt = conn.prepare(&sql).unwrap();
    let mut rows = stmt.query([]).unwrap();
    let mut out = Vec::new();
    while let Some(row) = rows.next().unwrap() {
        out.push(MemoryRow {
            key: row.get::<_, String>(0).ok(),
            content: row.get::<_, String>(1).ok(),
            category: row.get::<_, String>(2).ok(),
            agent_id: row.get::<_, Option<String>>(3).ok().flatten(),
            session_id: row.get::<_, Option<String>>(4).ok().flatten(),
            namespace: row.get::<_, Option<String>>(5).ok().flatten(),
            importance_bits: row.get::<_, Option<f64>>(6).ok().flatten().map(f64::to_bits),
        });
    }
    entries_from_rows(&out)
}

fn read_agents(conn: &Connection) -> Vec<(String, String)> {
    let mut stmt = conn.prepare("PRAGMA table_info(agents)").unwrap();
    let cols: Vec<String> = stmt
        .query_map([], |row| row.get::<_, String>(1))
        .unwrap()
        .map(|c| ascii_lowercase(&c.unwrap()))
        .collect();
    let sql = agents_select_sql(&cols);
    let mut stmt = conn.prepare(&sql).unwrap();
    let mut rows = stmt.query([]).unwrap();
    let mut out = Vec::new();
    while let Some(row) = rows.next().unwrap() {
        out.push(AgentRow {
            id: row.get::<_, String>(0).ok(),
            alias: row.get::<_, String>(1).ok(),
        });
    }
    agents_from_rows(&out)
}

#[test]
fn parse_structured_markdown_line() {
    let line = "**user_pref**: likes Rust";
    let parsed = parse_structured_memory_line(line).unwrap();
    assert_eq!(parsed.0, "user_pref");
    assert_eq!(parsed.1, "likes Rust");
}

#[test]
fn parse_unstructured_markdown_generates_key() {
    let entries = parse_markdown_file("- plain note", MemoryCategory::Core, "core");
    assert_eq!(entries.len(), 1);
    assert!(entries[0].key.starts_with("openclaw_core_"));
    assert_eq!(entries[0].content, "plain note");
}

#[test]
fn sqlite_reader_supports_legacy_value_column() {
    let conn = Connection::open_in_memory().unwrap();
    conn.execute_batch("CREATE TABLE memories (key TEXT, value TEXT, type TEXT);")
        .unwrap();
    conn.execute(
        "INSERT INTO memories (key, value, type) VALUES (?1, ?2, ?3)",
        ("legacy_key", "legacy_value", "daily"),
    )
    .unwrap();

    let rows = read_entries(&conn);
    assert_eq!(rows.len(), 1);
    assert_eq!(rows[0].key, "legacy_key");
    assert_eq!(rows[0].content, "legacy_value");
    assert_eq!(rows[0].category, MemoryCategory::Daily);
}

#[test]
fn parse_category_handles_all_variants() {
    assert_eq!(parse_category("core"), MemoryCategory::Core);
    assert_eq!(parse_category("daily"), MemoryCategory::Daily);
    assert_eq!(parse_category("conversation"), MemoryCategory::Conversation);
    assert_eq!(parse_category(""), MemoryCategory::Core);
    assert_eq!(
        parse_category("custom_type"),
        MemoryCategory::Custom("custom_type".to_string())
    );
}

#[test]
fn parse_category_case_insensitive() {
    assert_eq!(parse_category("CORE"), MemoryCategory::Core);
    assert_eq!(parse_category("Daily"), MemoryCategory::Daily);
    assert_eq!(parse_category("CONVERSATION"), MemoryCategory::Conversation);
}

#[test]
fn parse_category_trims_and_lowercases_custom_names() {
    assert_eq!(
        parse_category("  My_Kind \t"),
        MemoryCategory::Custom("my_kind".to_string())
    );
    assert_eq!(parse_category("   "), MemoryCategory::Core);
}

#[test]
fn normalize_key_handles_empty_string() {
    let key = normalize_key("", 42);
    assert_eq!(key, "openclaw_42");
}

#[test]
fn normalize_key_trims_whitespace() {
    let key = normalize_key("  my_key  ", 0);
    assert_eq!(key, "my_key");
}

#[test]
fn normalize_key_is_stable() {
    let once = normalize_key(" \u{3000}", 7);
    assert_eq!(once, "openclaw_7");
    assert_eq!(normalize_key(&once, 99), once);
}

#[test]
fn parse_structured_markdown_rejects_empty_key() {
    assert!(parse_structured_memory_line("****:value").is_none());
}

#[test]
fn parse_structured_markdown_rejects_empty_value() {
    assert!(parse_structured_memory_line("**key**:").is_none());
}

#[test]
fn parse_structured_markdown_rejects_no_stars() {
    assert!(parse_structured_memory_line("key: value").is_none());
}

#[test]
fn structured_line_uses_first_closing_marker() {
    let parsed = parse_structured_memory_line("** a **: b **: c").unwrap();
    assert_eq!(parsed, ("a", "b **: c"));
    assert!(parse_structured_memory_line("**never closed").is_none());
}

#[test]
fn structured_line_round_trips() {
    let line = format!("**{}**: {}", "user_pref", "likes Rust");
    assert_eq!(parse_structured_memory_line(&line), Some(("user_pref", "likes Rust")));
}

#[test]
fn markdown_file_lines_headings_and_structured_entries() {
    let content = "# Title\r\n\r\n- **lang**: Rust\r\nfree text\n   \n- \n**k**:\nlast";
    let entries = parse_markdown_file(content, MemoryCategory::Daily, "2024-01-02");
    let got: Vec<(&str, &str)> = entries
        .iter()
        .map(|e| (e.key.as_str(), e.content.as_str()))
        .collect();
    assert_eq!(
        got,
        vec![
            ("lang", "Rust"),
            ("openclaw_2024-01-02_4", "free text"),
            // "- " trims to "-", which is not a bullet but a one-character note.
            ("openclaw_2024-01-02_6", "-"),
            ("openclaw_2024-01-02_7", "**k**:"),
            ("openclaw_2024-01-02_8", "last"),
        ]
    );
    assert!(entries.iter().all(|e| e.category == MemoryCategory::Daily));
    assert!(entries.iter().all(|e| e.agent_id.is_none() && e.importance_bits.is_none()));
}

#[test]
fn markdown_trailing_newline_adds_no_line() {
    assert_eq!(parse_markdown_file("a\n", MemoryCategory::Core, "s").len(), 1);
    assert_eq!(parse_markdown_file("", MemoryCategory::Core, "s").len(), 0);
}

#[test]
fn migration_skips_empty_content() {
    let conn = Connection::open_in_memory().unwrap();
    conn.execute_batch("CREATE TABLE memories (key TEXT, content TEXT, category TEXT);")
        .unwrap();
    conn.execute(
        "INSERT INTO memories (key, content, category) VALUES (?1, ?2, ?3)",
        ("empty_key", "   ", "core"),
    )
    .unwrap();

    let rows = read_entries(&conn);
    assert_eq!(
        rows.len(),
        0,
        "entries with empty/whitespace content must be skipped"
    );
}

#[test]
fn read_openclaw_sqlite_entries_preserves_v3_metadata() {
    let conn = Connection::open_in_memory().unwrap();
    conn.execute_batch(
        "CREATE TABLE memories (\n\
         key TEXT, content TEXT, category TEXT,\n\
         agent_id TEXT, session_id TEXT, namespace TEXT, importance REAL);",
    )
    .unwrap();
    conn.execute(
        "INSERT INTO memories (key, content, category, agent_id, session_id, namespace, importance)\n\
         VALUES (?1, ?2, ?3, ?4, ?5, ?6, ?7)",
        ("k1", "content one", "daily", "agent-rocky", "sess-7", "ns-rocky", 0.8),
    )
    .unwrap();
    conn.execute(
        "INSERT INTO memories (key, content, category, agent_id, session_id, namespace, importance)\n\
         VALUES (?1, ?2, ?3, NULL, NULL, NULL, NULL)",
        ("k2", "content two", "core"),
    )
    .unwrap();

    let rows = read_entries(&conn);
    assert_eq!(rows.len(), 2, "both V3 rows must be read");

    let r1 = rows.iter().find(|r| r.key == "k1").expect("k1 present");
    assert_eq!(r1.content, "content one");
    assert_eq!(r1.category, MemoryCategory::Daily);
    assert_eq!(r1.agent_id.as_deref(), Some("agent-rocky"));
    assert_eq!(r1.session_id.as_deref(), Some("sess-7"));
    assert_eq!(r1.namespace.as_deref(), Some("ns-rocky"));
    assert_eq!(r1.importance_bits.map(f64::from_bits), Some(0.8));

    let r2 = rows.iter().find(|r| r.key == "k2").expect("k2 present");
    assert_eq!(r2.agent_id, None);
    assert_eq!(r2.session_id, None);
    assert_eq!(r2.namespace, None);
    assert_eq!(r2.importance_bits, None);
}

#[test]
fn read_openclaw_sqlite_entries_legacy_schema_yields_none_metadata() {
    let conn = Connection::open_in_memory().unwrap();
    conn.execute_batch("CREATE TABLE memories (key TEXT, content TEXT, category TEXT);")
        .unwrap();
    conn.execute(
        "INSERT INTO memories (key, content, category) VALUES (?1, ?2, ?3)",
        ("legacy", "value", "core"),
    )
    .unwrap();

    let rows = read_entries(&conn);
    assert_eq!(rows.len(), 1);
    assert_eq!(rows[0].key, "legacy");
    assert_eq!(rows[0].agent_id, None);
    assert_eq!(rows[0].session_id, None);
    assert_eq!(rows[0].namespace, None);
    assert_eq!(rows[0].importance_bits, None);
}

#[test]
fn read_openclaw_sqlite_agents_reads_id_and_alias() {
    let conn = Connection::open_in_memory().unwrap();
    conn.execute_batch(
        "CREATE TABLE agents (id TEXT PRIMARY KEY, alias TEXT NOT NULL UNIQUE, created_at TEXT);",
    )
    .unwrap();
    conn.execute(
        "INSERT INTO agents (id, alias, created_at) VALUES (?1, ?2, 'now')",
        ("src-rocky-id", "rocky"),
    )
    .unwrap();
    conn.execute(
        "INSERT INTO agents (id, alias, created_at) VALUES (?1, ?2, 'now')",
        ("src-coder-id", "codereviewer"),
    )
    .unwrap();

    let agents = read_agents(&conn);
    assert_eq!(agents.len(), 2);
    assert!(agents.iter().any(|(id, alias)| id == "src-rocky-id" && alias == "rocky"));
    assert!(agents
        .iter()
        .any(|(id, alias)| id == "src-coder-id" && alias == "codereviewer"));
}

#[test]
fn select_sql_picks_columns_by_preference() {
    let cols: Vec<String> = ["id", "memory", "text", "kind", "session"]
        .iter()
        .map(|s| s.to_string())
        .collect();
    assert_eq!(
        memories_select_sql(&cols).unwrap(),
        "SELECT id AS key, text AS content, kind AS category, NULL AS agent_id, session AS session_id, NULL AS namespace, NULL AS importance FROM memories"
    );
    let none: Vec<String> = vec!["key".to_string()];
    assert_eq!(
        memories_select_sql(&none).unwrap_err(),
        "OpenClaw memories table found but no content-like column was detected"
    );
    assert_eq!(
        agents_select_sql(&["name".to_string()]),
        "SELECT '' AS id, name AS alias FROM agents"
    );
    assert_eq!(pick_optional_column_expr(&cols, &["zzz"]), None);
    assert_eq!(pick_column_expr(&cols, &["zzz", "kind"], "'x'"), "kind");
    assert_eq!(pick_column_expr(&cols, &["zzz"], "'x'"), "'x'");
}

#[test]
fn rows_fall_back_for_unreadable_keys_and_categories() {
    let rows = vec![
        MemoryRow {
            key: None,
            content: Some("  first  ".to_string()),
            category: None,
            agent_id: None,
            session_id: None,
            namespace: None,
            importance_bits: None,
        },
        MemoryRow {
            key: Some("x".to_string()),
            content: None,
            category: Some("daily".to_string()),
            agent_id: None,
            session_id: None,
            namespace: None,
            importance_bits: None,
        },
        MemoryRow {
            key: None,
            content: Some("second".to_string()),
            category: Some("Notes".to_string()),
            agent_id: None,
            session_id: None,
            namespace: None,
            importance_bits: None,
        },
    ];
    let entries = entries_from_rows(&rows);
    assert_eq!(entries.len(), 2);
    assert_eq!(entries[0].key, "openclaw_sqlite_0");
    assert_eq!(entries[0].content, "first");
    assert_eq!(entries[0].category, MemoryCategory::Core);
    assert_eq!(entries[1].key, "openclaw_sqlite_1");
    assert_eq!(entries[1].category, MemoryCategory::Custom("notes".to_string()));
}

#[test]
fn agent_rows_without_id_or_alias_are_skipped() {
    let rows = vec![
        AgentRow { id: Some("a".to_string()), alias: Some(String::new()) },
        AgentRow { id: None, alias: Some("b".to_string()) },
        AgentRow { id: Some("c".to_string()), alias: Some("d".to_string()) },
    ];
    assert_eq!(agents_from_rows(&rows), vec![("c".to_string(), "d".to_string())]);
}

fn entry(key: &str, content: &str, category: MemoryCategory) -> SourceEntry {
    SourceEntry {
        key: key.to_string(),
        content: content.to_string(),
        category,
        agent_id: None,
        session_id: None,
        namespace: None,
        importance_bits: None,
    }
}

#[test]
fn dedup_keeps_first_of_each_exact_duplicate() {
    let es = vec![
        entry("a", "x", MemoryCategory::Core),
        entry("a", "x", MemoryCategory::Daily),
        entry("a", "x", MemoryCategory::Core),
        entry("b", "x", MemoryCategory::Core),
        entry("a", "x", MemoryCategory::Custom("daily".to_string())),
    ];
    let d = dedup_entries(es);
    let got: Vec<(String, MemoryCategory)> =
        d.iter().map(|e| (e.key.clone(), e.category.duplicate())).collect();
    assert_eq!(
        got,
        vec![
            ("a".to_string(), MemoryCategory::Core),
            ("a".to_string(), MemoryCategory::Daily),
            ("b".to_string(), MemoryCategory::Core),
        ]
    );
    let again = dedup_entries(d);
    assert_eq!(again.len(), 3);
}

#[test]
fn file_names_and_backup_dir() {
    assert!(is_markdown_file("2024-01-01.md"));
    assert!(!is_markdown_file(".md"));
    assert!(!is_markdown_file("notes.MD"));
    assert!(!is_markdown_file("brain.db"));
    assert!(is_markdown_file("a.b.md"));
    assert_eq!(markdown_stem(Some("2024-01-01.md")), "2024-01-01");
    assert_eq!(markdown_stem(Some("a.b.md")), "a.b");
    assert_eq!(markdown_stem(Some(".hidden")), ".hidden");
    assert_eq!(markdown_stem(None), "openclaw_daily");
    assert_eq!(backup_dir_name("20240102-030405"), "openclaw-20240102-030405");
}

#[test]
fn alias_map_keeps_latest_mapping() {
    let mut m = AgentAliasMap::new();
    assert_eq!(m.get("src"), None);
    m.insert("src".to_string(), "live-1".to_string());
    m.insert("other".to_string(), "live-2".to_string());
    m.insert("src".to_string(), "live-3".to_string());
    assert_eq!(m.get("src").as_deref(), Some("live-3"));
    assert_eq!(m.get("other").as_deref(), Some("live-2"));
}

/// Runs an import against an in-memory target (a list of key/content pairs).
fn run_import(
    entries: Vec<SourceEntry>,
    agents: AgentAliasMap,
    target: &mut Vec<(String, String, Option<String>)>,
) -> ImportRun {
    let mut run = ImportRun::new(entries, agents);
    loop {
        match run.next_action() {
            ImportAction::Lookup(key) => {
                let existing = target.iter().find(|(k, _, _)| *k == key).map(|(_, c, _)| c.clone());
                run.on_lookup(existing.as_deref());
            }
            ImportAction::Store(req) => {
                target.push((req.key, req.content, req.agent_id));
                run.on_stored();
            }
            ImportAction::NoFreeKey(base) => panic!("no free key for {base}"),
            ImportAction::Finished => return run,
        }
    }
}

#[test]
fn migration_renames_conflicting_key() {
    let mut target = vec![("k".to_string(), "new value".to_string(), None)];
    let run = run_import(
        vec![entry("k", "old value", MemoryCategory::Core)],
        AgentAliasMap::new(),
        &mut target,
    );
    assert!(target.iter().any(|(k, c, _)| k == "k" && c == "new value"));
    assert!(target
        .iter()
        .any(|(k, c, _)| k.starts_with("k__openclaw_") && c == "old value"));
    let stats = run.stats();
    assert_eq!((stats.imported, stats.skipped_unchanged, stats.renamed_conflicts), (1, 0, 1));
}

#[test]
fn import_skips_unchanged_and_maps_agents() {
    let mut target = vec![
        ("same".to_string(), "  same text ".to_string(), None),
        ("dup".to_string(), "a".to_string(), None),
        ("dup__openclaw_1".to_string(), "b".to_string(), None),
    ];
    let mut agents = AgentAliasMap::new();
    agents.insert("src-rocky".to_string(), "live-rocky".to_string());
    let mut with_agent = entry("  ", "fresh", MemoryCategory::Core);
    with_agent.agent_id = Some("src-rocky".to_string());
    let mut unknown_agent = entry("u", "unknown", MemoryCategory::Core);
    unknown_agent.agent_id = Some("src-ghost".to_string());
    let run = run_import(
        vec![
            entry("same", "same text", MemoryCategory::Core),
            entry("dup", "c", MemoryCategory::Core),
            with_agent,
            unknown_agent,
        ],
        agents,
        &mut target,
    );
    let stats = run.stats();
    assert_eq!((stats.imported, stats.skipped_unchanged, stats.renamed_conflicts), (3, 1, 1));
    assert!(target.iter().any(|(k, c, _)| k == "dup__openclaw_2" && c == "c"));
    assert!(target
        .iter()
        .any(|(k, c, a)| k == "openclaw_2" && c == "fresh" && a.as_deref() == Some("live-rocky")));
    assert!(target.iter().any(|(k, _, a)| k == "u" && a.is_none()));
}

#[test]
fn import_of_nothing_finishes_at_once() {
    let run = ImportRun::new(Vec::new(), AgentAliasMap::new());
    assert!(matches!(run.next_action(), ImportAction::Finished));
}
