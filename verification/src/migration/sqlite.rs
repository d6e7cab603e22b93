//! The OpenClaw sqlite store (`memory/brain.db`): choosing the columns to
//! read from whatever schema version the store has, and turning the rows
//! read into memory entries and agent records.
use vstd::prelude::*;

use crate::migration::entry::{
    lemma_normalized_key_stable,
    category_of, normalize_key, normalized_key, opt_view, parse_category, copy_opt, EntryView,
    SourceEntry, entry_views,
};
use crate::text::{decimal, lemma_trim_idempotent, push_decimal, trim, trim_str};

verus! {

/// The views of a sequence of strings.
pub open spec fn string_views(s: Seq<String>) -> Seq<Seq<char>> {
    s.map_values(|c: String| c@)
}

/// The views of a sequence of string slices.
pub open spec fn str_seq_views(s: Seq<&str>) -> Seq<Seq<char>> {
    s.map_values(|c: &str| c@)
}

/// `name` is one of `columns`.
pub open spec fn has_column(columns: Seq<Seq<char>>, name: Seq<char>) -> bool {
    exists|i: int| 0 <= i < columns.len() && columns[i] == name
}

/// The first of `candidates` that is one of `columns`.
pub open spec fn first_present(columns: Seq<Seq<char>>, candidates: Seq<Seq<char>>) -> Option<
    Seq<char>,
>
    decreases candidates.len(),
{
    if candidates.len() == 0 {
        None
    } else if has_column(columns, candidates[0]) {
        Some(candidates[0])
    } else {
        first_present(columns, candidates.drop_first())
    }
}

/// The first present candidate, else `fallback`.
pub open spec fn present_or(columns: Seq<Seq<char>>, candidates: Seq<Seq<char>>, fallback: Seq<
    char,
>) -> Seq<char> {
    match first_present(columns, candidates) {
        Some(c) => c,
        None => fallback,
    }
}

fn has_column_exec(columns: &[String], name: &String) -> (r: bool)
    ensures
        r == has_column(string_views(columns@), name@),
{
    let ghost cv = string_views(columns@);
    let mut i: usize = 0;
    while i < columns.len()
        invariant
            cv == string_views(columns@),
            i <= columns@.len(),
            forall|k: int| 0 <= k < i ==> cv[k] != name@,
        decreases columns.len() - i,
    {
        if columns[i] == *name {
            assert(cv[i as int] == name@);
            return true;
        }
        i = i + 1;
    }
    false
}

/// The first of `candidates` that names one of the (lower-cased) table
/// `columns`.
pub fn pick_optional_column_expr(columns: &[String], candidates: &[&str]) -> (r: Option<String>)
    ensures
        opt_view(r) == first_present(string_views(columns@), str_seq_views(candidates@)),
{
    let ghost cv = string_views(columns@);
    let ghost all = str_seq_views(candidates@);
    let mut j: usize = 0;
    assert(all.skip(0) == all);
    while j < candidates.len()
        invariant
            cv == string_views(columns@),
            all == str_seq_views(candidates@),
            j <= candidates@.len(),
            first_present(cv, all) == first_present(cv, all.skip(j as int)),
        decreases candidates.len() - j,
    {
        let cand = String::from_str(candidates[j]);
        assert(all.skip(j as int)[0] == cand@);
        assert(all.skip(j as int).drop_first() == all.skip(j + 1));
        if has_column_exec(columns, &cand) {
            return Some(cand);
        }
        j = j + 1;
    }
    None
}

/// The first candidate column present, else `fallback`.
pub fn pick_column_expr(columns: &[String], candidates: &[&str], fallback: &str) -> (r: String)
    ensures
        r@ == present_or(string_views(columns@), str_seq_views(candidates@), fallback@),
{
    match pick_optional_column_expr(columns, candidates) {
        Some(c) => c,
        None => String::from_str(fallback),
    }
}

/// Columns that may hold a memory's key, in order of preference.
pub open spec fn key_columns() -> Seq<Seq<char>> {
    seq!["key"@, "id"@, "name"@]
}

/// Columns that may hold a memory's content, in order of preference.
pub open spec fn content_columns() -> Seq<Seq<char>> {
    seq!["content"@, "value"@, "text"@, "memory"@]
}

/// Columns that may hold a memory's category, in order of preference.
pub open spec fn category_columns() -> Seq<Seq<char>> {
    seq!["category"@, "kind"@, "type"@]
}

/// Columns that may hold a memory's session, in order of preference.
pub open spec fn session_columns() -> Seq<Seq<char>> {
    seq!["session_id"@, "session"@]
}

/// The query reading the memories of a `memories` table with `columns`:
/// every field comes from its first present column, with `rowid` as key,
/// `'core'` as category and `NULL` for the metadata when absent. `None`
/// when no content column is present.
pub open spec fn memories_query(columns: Seq<Seq<char>>) -> Option<Seq<char>> {
    match first_present(columns, content_columns()) {
        None => None,
        Some(content) => Some(
            "SELECT "@ + present_or(columns, key_columns(), "CAST(rowid AS TEXT)"@)
                + " AS key, "@ + content + " AS content, "@ + present_or(
                columns,
                category_columns(),
                "'core'"@,
            ) + " AS category, "@ + present_or(columns, seq!["agent_id"@], "NULL"@)
                + " AS agent_id, "@ + present_or(columns, session_columns(), "NULL"@)
                + " AS session_id, "@ + present_or(columns, seq!["namespace"@], "NULL"@)
                + " AS namespace, "@ + present_or(columns, seq!["importance"@], "NULL"@)
                + " AS importance FROM memories"@,
        ),
    }
}

/// Error when the `memories` table has no content column.
pub open spec fn no_content_column_message() -> Seq<char> {
    "OpenClaw memories table found but no content-like column was detected"@
}

/// The query reading the `agents` table with `columns`: `id` and `alias`
/// (or `name`), an empty string where absent.
pub open spec fn agents_query(columns: Seq<Seq<char>>) -> Seq<char> {
    "SELECT "@ + present_or(columns, seq!["id"@], "''"@) + " AS id, "@ + present_or(
        columns,
        seq!["alias"@, "name"@],
        "''"@,
    ) + " AS alias FROM agents"@
}

/// Builds the query that reads the memories of a `memories` table with the
/// given (lower-cased) `columns`, or reports that it has no content column.
pub fn memories_select_sql(columns: &[String]) -> (r: Result<String, String>)
    ensures
        r matches Ok(q) ==> memories_query(string_views(columns@)) == Some(q@),
        r matches Err(e) ==> memories_query(string_views(columns@)) is None && e@
            == no_content_column_message(),
        has_column(string_views(columns@), "key"@) ==> (r matches Ok(q) ==> exists|rest: Seq<
            char,
        >| q@ == "SELECT "@ + "key"@ + " AS key, "@ + rest),
{
    proof {
        lemma_memory_key_column(string_views(columns@));
    }
    let ghost cv = string_views(columns@);
    let key_c = ["key", "id", "name"];
    let content_c = ["content", "value", "text", "memory"];
    let category_c = ["category", "kind", "type"];
    let agent_c = ["agent_id"];
    let session_c = ["session_id", "session"];
    let namespace_c = ["namespace"];
    let importance_c = ["importance"];
    assert(str_seq_views(key_c@) =~= key_columns());
    assert(str_seq_views(content_c@) =~= content_columns());
    assert(str_seq_views(category_c@) =~= category_columns());
    assert(str_seq_views(agent_c@) =~= seq!["agent_id"@]);
    assert(str_seq_views(session_c@) =~= session_columns());
    assert(str_seq_views(namespace_c@) =~= seq!["namespace"@]);
    assert(str_seq_views(importance_c@) =~= seq!["importance"@]);
    let key_expr = pick_column_expr(columns, key_c.as_slice(), "CAST(rowid AS TEXT)");
    let content_expr = match pick_optional_column_expr(columns, content_c.as_slice()) {
        Some(c) => c,
        None => {
            return Err(
                String::from_str(
                    "OpenClaw memories table found but no content-like column was detected",
                ),
            );
        },
    };
    let category_expr = pick_column_expr(columns, category_c.as_slice(), "'core'");
    let agent_id_expr = pick_column_expr(columns, agent_c.as_slice(), "NULL");
    let session_id_expr = pick_column_expr(columns, session_c.as_slice(), "NULL");
    let namespace_expr = pick_column_expr(columns, namespace_c.as_slice(), "NULL");
    let importance_expr = pick_column_expr(columns, importance_c.as_slice(), "NULL");
    let mut q = String::from_str("SELECT ");
    q.append(key_expr.as_str());
    q.append(" AS key, ");
    q.append(content_expr.as_str());
    q.append(" AS content, ");
    q.append(category_expr.as_str());
    q.append(" AS category, ");
    q.append(agent_id_expr.as_str());
    q.append(" AS agent_id, ");
    q.append(session_id_expr.as_str());
    q.append(" AS session_id, ");
    q.append(namespace_expr.as_str());
    q.append(" AS namespace, ");
    q.append(importance_expr.as_str());
    q.append(" AS importance FROM memories");
    Ok(q)
}

/// Builds the query that reads the `agents` table with the given
/// (lower-cased) `columns`.
pub fn agents_select_sql(columns: &[String]) -> (r: String)
    ensures
        r@ == agents_query(string_views(columns@)),
{
    let id_c = ["id"];
    let alias_c = ["alias", "name"];
    assert(str_seq_views(id_c@) =~= seq!["id"@]);
    assert(str_seq_views(alias_c@) =~= seq!["alias"@, "name"@]);
    let id_expr = pick_column_expr(columns, id_c.as_slice(), "''");
    let alias_expr = pick_column_expr(columns, alias_c.as_slice(), "''");
    let mut q = String::from_str("SELECT ");
    q.append(id_expr.as_str());
    q.append(" AS id, ");
    q.append(alias_expr.as_str());
    q.append(" AS alias FROM agents");
    q
}

/// One row of the memories query, each field `None` where the value could
/// not be read as that type (NULL, or another SQL type). `importance_bits`
/// is the bit pattern (`f64::to_bits`) of a REAL importance.
pub struct MemoryRow {
    pub key: Option<String>,
    pub content: Option<String>,
    pub category: Option<String>,
    pub agent_id: Option<String>,
    pub session_id: Option<String>,
    pub namespace: Option<String>,
    pub importance_bits: Option<u64>,
}

/// One row of the agents query, each field `None` where it could not be
/// read as text.
pub struct AgentRow {
    pub id: Option<String>,
    pub alias: Option<String>,
}

/// The text of an optional string, empty when absent.
pub open spec fn text_or_empty(o: Option<String>) -> Seq<char> {
    match o {
        Some(s) => s@,
        None => Seq::empty(),
    }
}

/// The entries of the memories rows `rows`, in order: rows whose content is
/// blank are skipped; every other row gives an entry whose key is its key
/// (`openclaw_sqlite_<n>` when unreadable, `n` counting the entries before
/// it) normalised, whose content is trimmed, and whose category is parsed
/// (`core` when unreadable).
pub open spec fn sqlite_entries(rows: Seq<MemoryRow>) -> Seq<EntryView>
    decreases rows.len(),
{
    if rows.len() == 0 {
        Seq::empty()
    } else {
        let prev = sqlite_entries(rows.drop_last());
        let r = rows.last();
        let idx = prev.len();
        let content = text_or_empty(r.content);
        if trim(content).len() == 0 {
            prev
        } else {
            let key = match r.key {
                Some(k) => k@,
                None => "openclaw_sqlite_"@ + decimal(idx),
            };
            let raw_category = match r.category {
                Some(c) => c@,
                None => "core"@,
            };
            prev.push(
                EntryView {
                    key: normalized_key(key, idx),
                    content: trim(content),
                    category: category_of(raw_category),
                    agent_id: opt_view(r.agent_id),
                    session_id: opt_view(r.session_id),
                    namespace: opt_view(r.namespace),
                    importance_bits: r.importance_bits,
                },
            )
        }
    }
}

/// The `(id, alias)` pairs of the agents rows whose id and alias are both
/// present and non-empty, in order.
pub open spec fn agent_pairs(rows: Seq<AgentRow>) -> Seq<(Seq<char>, Seq<char>)>
    decreases rows.len(),
{
    if rows.len() == 0 {
        Seq::empty()
    } else {
        let prev = agent_pairs(rows.drop_last());
        let id = text_or_empty(rows.last().id);
        let alias = text_or_empty(rows.last().alias);
        if id.len() > 0 && alias.len() > 0 {
            prev.push((id, alias))
        } else {
            prev
        }
    }
}

/// The views of pairs of strings.
pub open spec fn pair_views(ps: Seq<(String, String)>) -> Seq<(Seq<char>, Seq<char>)> {
    ps.map_values(|p: (String, String)| (p.0@, p.1@))
}

fn row_entry(r: &MemoryRow, idx: usize) -> (e: Option<SourceEntry>)
    ensures
        e is None <==> trim(text_or_empty(r.content)).len() == 0,
        e matches Some(e) ==> e@ == ({
            let key = match r.key {
                Some(k) => k@,
                None => "openclaw_sqlite_"@ + decimal(idx as nat),
            };
            let raw_category = match r.category {
                Some(c) => c@,
                None => "core"@,
            };
            EntryView {
                key: normalized_key(key, idx as nat),
                content: trim(text_or_empty(r.content)),
                category: category_of(raw_category),
                agent_id: opt_view(r.agent_id),
                session_id: opt_view(r.session_id),
                namespace: opt_view(r.namespace),
                importance_bits: r.importance_bits,
            }
        }),
{
    let content = match &r.content {
        Some(c) => trim_str(c.as_str()),
        None => {
            assert(trim(Seq::<char>::empty()) =~= Seq::<char>::empty());
            return None;
        },
    };
    if content.unicode_len() == 0 {
        return None;
    }
    let key = match &r.key {
        Some(k) => normalize_key(k.as_str(), idx),
        None => {
            let mut k = String::from_str("openclaw_sqlite_");
            push_decimal(&mut k, idx as u64);
            normalize_key(k.as_str(), idx)
        },
    };
    let category = match &r.category {
        Some(c) => parse_category(c.as_str()),
        None => parse_category("core"),
    };
    Some(
        SourceEntry {
            key,
            content: String::from_str(content),
            category,
            agent_id: copy_opt(&r.agent_id),
            session_id: copy_opt(&r.session_id),
            namespace: copy_opt(&r.namespace),
            importance_bits: r.importance_bits,
        },
    )
}

/// The memory entries of the rows read from a `memories` table.
pub fn entries_from_rows(rows: &[MemoryRow]) -> (r: Vec<SourceEntry>)
    ensures
        entry_views(r@) == sqlite_entries(rows@),
{
    let mut out: Vec<SourceEntry> = Vec::new();
    for i in 0..rows.len()
        invariant
            entry_views(out@) == sqlite_entries(rows@.take(i as int)),
    {
        assert(rows@.take(i + 1).drop_last() == rows@.take(i as int));
        assert(rows@.take(i + 1).last() == rows@[i as int]);
        let ghost before = out@;
        match row_entry(&rows[i], out.len()) {
            Some(e) => {
                out.push(e);
                assert(out@.drop_last() == before);
                assert(entry_views(out@) == entry_views(before).push(e@));
            },
            None => {},
        }
    }
    assert(rows@.take(rows@.len() as int) == rows@);
    out
}

/// The `(id, alias)` pairs of the rows read from an `agents` table,
/// skipping rows without a usable id or alias.
pub fn agents_from_rows(rows: &[AgentRow]) -> (r: Vec<(String, String)>)
    ensures
        pair_views(r@) == agent_pairs(rows@),
{
    let mut out: Vec<(String, String)> = Vec::new();
    for i in 0..rows.len()
        invariant
            pair_views(out@) == agent_pairs(rows@.take(i as int)),
    {
        assert(rows@.take(i + 1).drop_last() == rows@.take(i as int));
        assert(rows@.take(i + 1).last() == rows@[i as int]);
        let id = match &rows[i].id {
            Some(s) => s.clone(),
            None => String::new(),
        };
        let alias = match &rows[i].alias {
            Some(s) => s.clone(),
            None => String::new(),
        };
        if id.as_str().unicode_len() > 0 && alias.as_str().unicode_len() > 0 {
            let ghost before = out@;
            out.push((id, alias));
            assert(out@.drop_last() == before);
            assert(pair_views(out@) == pair_views(before).push((id@, alias@)));
        }
    }
    assert(rows@.take(rows@.len() as int) == rows@);
    out
}

/// Law: every memory read from the sqlite store has a non-empty key and a
/// non-empty, trimmed content; rows with blank content are the only ones
/// dropped.
pub proof fn lemma_sqlite_entries_well_formed(rows: Seq<MemoryRow>)
    ensures
        sqlite_entries(rows).len() <= rows.len(),
        forall|i: int|
            0 <= i < sqlite_entries(rows).len() ==> {
                let e = #[trigger] sqlite_entries(rows)[i];
                &&& e.key.len() > 0
                &&& e.content.len() > 0
                &&& trim(e.content) == e.content
            },
    decreases rows.len(),
{
    if rows.len() > 0 {
        lemma_sqlite_entries_well_formed(rows.drop_last());
        let prev = sqlite_entries(rows.drop_last());
        let all = sqlite_entries(rows);
        let r = rows.last();
        let content = text_or_empty(r.content);
        lemma_trim_idempotent(content);
        let key = match r.key {
            Some(k) => k@,
            None => "openclaw_sqlite_"@ + decimal(prev.len()),
        };
        lemma_normalized_key_stable(key, prev.len(), prev.len());
        assert forall|i: int| 0 <= i < all.len() implies {
            let e = #[trigger] all[i];
            &&& e.key.len() > 0
            &&& e.content.len() > 0
            &&& trim(e.content) == e.content
        } by {
            if i < prev.len() {
                assert(all[i] == prev[i]);
            }
        }
    }
}

/// Law: the memories query reads a memory's key from the `key` column when
/// the table has one, else from `id`, else from `name`, else from the row id;
/// and it exists exactly when a content column (`content`, `value`, `text`
/// or `memory`) does.
pub proof fn lemma_memory_key_column(cols: Seq<Seq<char>>)
    ensures
        memories_query(cols) is Some <==> (has_column(cols, "content"@) || has_column(
            cols,
            "value"@,
        ) || has_column(cols, "text"@) || has_column(cols, "memory"@)),
        has_column(cols, "key"@) && memories_query(cols) is Some ==> exists|rest: Seq<char>|
            memories_query(cols)->0 == "SELECT "@ + "key"@ + " AS key, "@ + rest,
        !has_column(cols, "key"@) && has_column(cols, "id"@) && memories_query(cols) is Some
            ==> exists|rest: Seq<char>| memories_query(cols)->0 == "SELECT "@ + "id"@ + " AS key, "@
            + rest,
        !has_column(cols, "key"@) && !has_column(cols, "id"@) && has_column(cols, "name"@)
            && memories_query(cols) is Some ==> exists|rest: Seq<char>| memories_query(cols)->0
            == "SELECT "@ + "name"@ + " AS key, "@ + rest,
        !has_column(cols, "key"@) && !has_column(cols, "id"@) && !has_column(cols, "name"@)
            && memories_query(cols) is Some ==> exists|rest: Seq<char>| memories_query(cols)->0
            == "SELECT "@ + "CAST(rowid AS TEXT)"@ + " AS key, "@ + rest,
{
    let kc = key_columns();
    assert(kc.drop_first() =~= seq!["id"@, "name"@]);
    assert(kc.drop_first().drop_first() =~= seq!["name"@]);
    assert(kc.drop_first().drop_first().drop_first() =~= Seq::<Seq<char>>::empty());
    let cc = content_columns();
    assert(cc.drop_first() =~= seq!["value"@, "text"@, "memory"@]);
    assert(cc.drop_first().drop_first() =~= seq!["text"@, "memory"@]);
    assert(cc.drop_first().drop_first().drop_first() =~= seq!["memory"@]);
    assert(cc.drop_first().drop_first().drop_first().drop_first() =~= Seq::<Seq<char>>::empty());
    assert(kc[0] == "key"@ && kc.drop_first()[0] == "id"@ && kc.drop_first().drop_first()[0]
        == "name"@);
    assert(cc[0] == "content"@ && cc.drop_first()[0] == "value"@ && cc.drop_first().drop_first()[0]
        == "text"@ && cc.drop_first().drop_first().drop_first()[0] == "memory"@);
    reveal_with_fuel(first_present, 5);
    if memories_query(cols) is Some {
        let q = memories_query(cols)->0;
        let key = present_or(cols, kc, "CAST(rowid AS TEXT)"@);
        let rest = q.skip(("SELECT "@ + key + " AS key, "@).len() as int);
        assert(q =~= "SELECT "@ + key + " AS key, "@ + rest);
        if has_column(cols, "key"@) {
            assert(key == "key"@);
        } else if has_column(cols, "id"@) {
            assert(first_present(cols, kc) == first_present(cols, kc.drop_first()));
            assert(key == "id"@);
        } else if has_column(cols, "name"@) {
            assert(first_present(cols, kc) == first_present(cols, kc.drop_first()));
            assert(first_present(cols, kc.drop_first()) == first_present(
                cols,
                kc.drop_first().drop_first(),
            ));
            assert(key == "name"@);
        } else {
            assert(first_present(cols, kc) == first_present(cols, kc.drop_first()));
            assert(first_present(cols, kc.drop_first()) == first_present(
                cols,
                kc.drop_first().drop_first(),
            ));
            assert(key == "CAST(rowid AS TEXT)"@);
        }
    }
}

proof fn lemma_present_or_1(cols: Seq<Seq<char>>, a: Seq<char>, fb: Seq<char>)
    ensures
        present_or(cols, seq![a], fb) == if has_column(cols, a) {
            a
        } else {
            fb
        },
{
    assert(seq![a].drop_first() =~= Seq::<Seq<char>>::empty());
    reveal_with_fuel(first_present, 2);
}

proof fn lemma_present_or_2(cols: Seq<Seq<char>>, a: Seq<char>, b: Seq<char>, fb: Seq<char>)
    ensures
        present_or(cols, seq![a, b], fb) == if has_column(cols, a) {
            a
        } else if has_column(cols, b) {
            b
        } else {
            fb
        },
{
    assert(seq![a, b].drop_first() =~= seq![b]);
    lemma_present_or_1(cols, b, fb);
}

proof fn lemma_present_or_3(
    cols: Seq<Seq<char>>,
    a: Seq<char>,
    b: Seq<char>,
    c: Seq<char>,
    fb: Seq<char>,
)
    ensures
        present_or(cols, seq![a, b, c], fb) == if has_column(cols, a) {
            a
        } else if has_column(cols, b) {
            b
        } else if has_column(cols, c) {
            c
        } else {
            fb
        },
{
    assert(seq![a, b, c].drop_first() =~= seq![b, c]);
    lemma_present_or_2(cols, b, c, fb);
}

proof fn lemma_present_or_4(
    cols: Seq<Seq<char>>,
    a: Seq<char>,
    b: Seq<char>,
    c: Seq<char>,
    d: Seq<char>,
    fb: Seq<char>,
)
    ensures
        present_or(cols, seq![a, b, c, d], fb) == if has_column(cols, a) {
            a
        } else if has_column(cols, b) {
            b
        } else if has_column(cols, c) {
            c
        } else if has_column(cols, d) {
            d
        } else {
            fb
        },
{
    assert(seq![a, b, c, d].drop_first() =~= seq![b, c, d]);
    lemma_present_or_3(cols, b, c, d, fb);
}

/// Law: when the `memories` table has a content column, the query selects,
/// in this order, the key from `key`, else `id`, else `name`, else the row
/// id; the content from `content`, else `value`, else `text`, else
/// `memory`; the category from `category`, else `kind`, else `type`, else
/// `'core'`; the agent from `agent_id`; the session from `session_id`, else
/// `session`; the namespace from `namespace`; the importance from
/// `importance` (each metadata field `NULL` when its column is absent).
pub proof fn lemma_memories_query_columns(cols: Seq<Seq<char>>)
    requires
        has_column(cols, "content"@) || has_column(cols, "value"@) || has_column(cols, "text"@)
            || has_column(cols, "memory"@),
    ensures
        memories_query(cols) == Some(
            "SELECT "@ + (if has_column(cols, "key"@) {
                "key"@
            } else if has_column(cols, "id"@) {
                "id"@
            } else if has_column(cols, "name"@) {
                "name"@
            } else {
                "CAST(rowid AS TEXT)"@
            }) + " AS key, "@ + (if has_column(cols, "content"@) {
                "content"@
            } else if has_column(cols, "value"@) {
                "value"@
            } else if has_column(cols, "text"@) {
                "text"@
            } else {
                "memory"@
            }) + " AS content, "@ + (if has_column(cols, "category"@) {
                "category"@
            } else if has_column(cols, "kind"@) {
                "kind"@
            } else if has_column(cols, "type"@) {
                "type"@
            } else {
                "'core'"@
            }) + " AS category, "@ + (if has_column(cols, "agent_id"@) {
                "agent_id"@
            } else {
                "NULL"@
            }) + " AS agent_id, "@ + (if has_column(cols, "session_id"@) {
                "session_id"@
            } else if has_column(cols, "session"@) {
                "session"@
            } else {
                "NULL"@
            }) + " AS session_id, "@ + (if has_column(cols, "namespace"@) {
                "namespace"@
            } else {
                "NULL"@
            }) + " AS namespace, "@ + (if has_column(cols, "importance"@) {
                "importance"@
            } else {
                "NULL"@
            }) + " AS importance FROM memories"@,
        ),
{
    lemma_memory_key_column(cols);
    lemma_present_or_3(cols, "key"@, "id"@, "name"@, "CAST(rowid AS TEXT)"@);
    lemma_present_or_4(cols, "content"@, "value"@, "text"@, "memory"@, "none"@);
    lemma_present_or_3(cols, "category"@, "kind"@, "type"@, "'core'"@);
    lemma_present_or_1(cols, "agent_id"@, "NULL"@);
    lemma_present_or_2(cols, "session_id"@, "session"@, "NULL"@);
    lemma_present_or_1(cols, "namespace"@, "NULL"@);
    lemma_present_or_1(cols, "importance"@, "NULL"@);
}

/// Law: the agents query selects the id from `id` and the alias from
/// `alias`, else `name`, each an empty string when its column is absent.
pub proof fn lemma_agents_query_columns(cols: Seq<Seq<char>>)
    ensures
        agents_query(cols) == "SELECT "@ + (if has_column(cols, "id"@) {
            "id"@
        } else {
            "''"@
        }) + " AS id, "@ + (if has_column(cols, "alias"@) {
            "alias"@
        } else if has_column(cols, "name"@) {
            "name"@
        } else {
            "''"@
        }) + " AS alias FROM agents"@,
{
    lemma_present_or_1(cols, "id"@, "''"@);
    lemma_present_or_2(cols, "alias"@, "name"@, "''"@);
}


} // verus!
