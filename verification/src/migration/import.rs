//! Importing entries into the target memory, one decision at a time. The
//! caller performs each [`ImportAction`] against the target backend and
//! reports back; [`ImportRun`] decides which key each entry is stored
//! under, which entries are skipped as unchanged, and keeps the counts.
use vstd::prelude::*;

use crate::migration::entry::{
    copy_opt, entry_views, normalize_key, normalized_key, opt_view, EntryView,
    MemoryCategory, SourceEntry,
};
use crate::migration::sqlite::pair_views;
use crate::text::{chars_eq, chars_of, decimal, push_decimal, trim, trim_str};

verus! {

/// The map given by `(key, value)` pairs, later pairs overriding earlier
/// ones.
pub open spec fn pairs_map(ps: Seq<(Seq<char>, Seq<char>)>) -> Map<Seq<char>, Seq<char>>
    decreases ps.len(),
{
    if ps.len() == 0 {
        Map::empty()
    } else {
        pairs_map(ps.drop_last()).insert(ps.last().0, ps.last().1)
    }
}

/// Source agent id to live target agent id.
pub struct AgentAliasMap {
    pairs: Vec<(String, String)>,
}

impl View for AgentAliasMap {
    type V = Map<Seq<char>, Seq<char>>;

    closed spec fn view(&self) -> Map<Seq<char>, Seq<char>> {
        pairs_map(pair_views(self.pairs@))
    }
}

impl AgentAliasMap {
    /// The empty map.
    pub fn new() -> (m: Self)
        ensures
            m@ == Map::<Seq<char>, Seq<char>>::empty(),
    {
        let m = AgentAliasMap { pairs: Vec::new() };
        assert(pair_views(m.pairs@) =~= Seq::empty());
        m
    }

    /// Maps `source_id` to `live_id`, replacing an earlier mapping.
    pub fn insert(&mut self, source_id: String, live_id: String)
        ensures
            final(self)@ == old(self)@.insert(source_id@, live_id@),
    {
        let ghost before = self.pairs@;
        self.pairs.push((source_id, live_id));
        assert(pair_views(self.pairs@).drop_last() == pair_views(before));
    }

    /// The live id mapped to `source_id`, if any.
    pub fn get(&self, source_id: &str) -> (r: Option<String>)
        ensures
            r is Some <==> self@.contains_key(source_id@),
            r matches Some(l) ==> self@[source_id@] == l@,
    {
        let ghost pv = pair_views(self.pairs@);
        let key = chars_of(source_id);
        let mut j = self.pairs.len();
        assert(pv.take(j as int) == pv);
        while j > 0
            invariant
                j <= self.pairs@.len(),
                pv == pair_views(self.pairs@),
                key@ == source_id@,
                pairs_map(pv).contains_key(key@) == pairs_map(pv.take(j as int)).contains_key(key@),
                pairs_map(pv).contains_key(key@) ==> pairs_map(pv)[key@] == pairs_map(
                    pv.take(j as int),
                )[key@],
            decreases j,
        {
            let k = chars_of(self.pairs[j - 1].0.as_str());
            assert(pv.take(j as int).drop_last() == pv.take(j - 1));
            assert(pv.take(j as int).last() == pv[j - 1]);
            if chars_eq(k.as_slice(), key.as_slice()) {
                return Some(self.pairs[j - 1].1.clone());
            }
            j = j - 1;
        }
        assert(pv.take(0) =~= Seq::<(Seq<char>, Seq<char>)>::empty());
        None
    }
}

/// How many keys are tried for an entry whose key is taken in the target.
pub const MAX_KEY_ATTEMPTS: u32 = 10000;

/// A store to perform in the target memory.
pub struct StoreRequest {
    pub key: String,
    pub content: String,
    pub category: MemoryCategory,
    pub session_id: Option<String>,
    pub namespace: Option<String>,
    pub importance_bits: Option<u64>,
    /// The live target agent the memory belongs to; `None` for the
    /// target's default agent.
    pub agent_id: Option<String>,
}

/// What the caller does next.
pub enum ImportAction {
    /// Look up whether the target holds a memory under this key, and
    /// report its content with [`ImportRun::on_lookup`].
    Lookup(String),
    /// Store this memory, then call [`ImportRun::on_stored`].
    Store(StoreRequest),
    /// No free key was found for the entry whose key is this one; the
    /// import fails.
    NoFreeKey(String),
    /// Every entry was handled.
    Finished,
}

/// Counts of an import.
pub struct ImportStats {
    pub imported: usize,
    pub skipped_unchanged: usize,
    pub renamed_conflicts: usize,
}

struct Progress {
    pos: usize,
    base: String,
    attempt: u32,
    storing: bool,
    imported: usize,
    skipped_unchanged: usize,
    renamed_conflicts: usize,
}

/// The state of an import, entry by entry.
pub struct ImportRun {
    entries: Vec<SourceEntry>,
    agents: AgentAliasMap,
    progress: Progress,
}

/// Mathematical form of an [`ImportRun`].
pub struct ImportState {
    pub entries: Seq<EntryView>,
    pub agents: Map<Seq<char>, Seq<char>>,
    /// The entry being handled.
    pub pos: nat,
    /// Its key before any renaming.
    pub base: Seq<char>,
    /// 0 while its own key is checked; `i >= 1` while `<key>__openclaw_<i>`
    /// is checked.
    pub attempt: nat,
    /// A free key was found and the store is under way.
    pub storing: bool,
    pub imported: nat,
    pub skipped_unchanged: nat,
    pub renamed_conflicts: nat,
}

impl View for ImportRun {
    type V = ImportState;

    closed spec fn view(&self) -> ImportState {
        ImportState {
            entries: entry_views(self.entries@),
            agents: self.agents@,
            pos: self.progress.pos as nat,
            base: self.progress.base@,
            attempt: self.progress.attempt as nat,
            storing: self.progress.storing,
            imported: self.progress.imported as nat,
            skipped_unchanged: self.progress.skipped_unchanged as nat,
            renamed_conflicts: self.progress.renamed_conflicts as nat,
        }
    }
}

/// `__openclaw_`
pub open spec fn rename_infix() -> Seq<char> {
    "__openclaw_"@
}

/// The key tried at `attempt` for an entry with key `base`.
pub open spec fn probe_key(base: Seq<char>, attempt: nat) -> Seq<char> {
    if attempt == 0 {
        base
    } else {
        base + rename_infix() + decimal(attempt)
    }
}

/// The key entry `pos` starts from.
pub open spec fn entry_base(entries: Seq<EntryView>, pos: nat) -> Seq<char> {
    if pos < entries.len() {
        normalized_key(entries[pos as int].key, pos)
    } else {
        Seq::empty()
    }
}

/// The live target agent of a memory from source agent `source`: the one
/// its alias was mapped to, else the default agent.
pub open spec fn live_agent(agents: Map<Seq<char>, Seq<char>>, source: Option<Seq<char>>) -> Option<
    Seq<char>,
> {
    match source {
        Some(a) => if agents.contains_key(a) {
            Some(agents[a])
        } else {
            None
        },
        None => None,
    }
}

/// The state well-formed imports are in: the counts add up to the entries
/// handled, and the entry being handled starts from its normalised key.
pub open spec fn import_inv(s: ImportState) -> bool {
    &&& s.pos <= s.entries.len()
    &&& s.imported + s.skipped_unchanged == s.pos
    &&& s.renamed_conflicts <= s.imported + if s.storing && s.attempt > 0 {
        1nat
    } else {
        0nat
    }
    &&& s.base == entry_base(s.entries, s.pos)
    &&& s.attempt <= MAX_KEY_ATTEMPTS + 1
    &&& s.storing ==> s.attempt <= MAX_KEY_ATTEMPTS
    &&& s.pos == s.entries.len() ==> !s.storing && s.attempt == 0
}

/// The state once the current entry is done.
pub open spec fn advanced(s: ImportState) -> ImportState {
    ImportState {
        pos: s.pos + 1,
        base: entry_base(s.entries, s.pos + 1),
        attempt: 0,
        storing: false,
        ..s
    }
}

/// The state after a lookup reported `existing` (the content under the
/// probed key, if any). A free key is stored under; under its own key, an
/// entry whose (trimmed) content is already there is skipped as unchanged,
/// and a different content makes the next keys be tried.
pub open spec fn after_lookup(s: ImportState, existing: Option<Seq<char>>) -> ImportState {
    if s.pos >= s.entries.len() || s.storing || s.attempt > MAX_KEY_ATTEMPTS {
        s
    } else {
        match existing {
            None => ImportState {
                storing: true,
                renamed_conflicts: if s.attempt > 0 {
                    s.renamed_conflicts + 1
                } else {
                    s.renamed_conflicts
                },
                ..s
            },
            Some(c) => if s.attempt == 0 && trim(c) == trim(s.entries[s.pos as int].content) {
                ImportState { skipped_unchanged: s.skipped_unchanged + 1, ..advanced(s) }
            } else {
                ImportState { attempt: s.attempt + 1, ..s }
            },
        }
    }
}

/// The state after the store under way completed.
pub open spec fn after_store(s: ImportState) -> ImportState {
    if s.storing && s.pos < s.entries.len() {
        ImportState { imported: s.imported + 1, ..advanced(s) }
    } else {
        s
    }
}

/// `r` is the store of the current entry under the probed key.
pub open spec fn is_store_of(s: ImportState, r: StoreRequest) -> bool {
    let e = s.entries[s.pos as int];
    &&& r.key@ == probe_key(s.base, s.attempt)
    &&& r.content@ == e.content
    &&& r.category@ == e.category
    &&& opt_view(r.session_id) == e.session_id
    &&& opt_view(r.namespace) == e.namespace
    &&& r.importance_bits == e.importance_bits
    &&& opt_view(r.agent_id) == live_agent(s.agents, e.agent_id)
}

fn probe_key_string(base: &String, attempt: u32) -> (r: String)
    ensures
        r@ == probe_key(base@, attempt as nat),
{
    let mut r = base.clone();
    if attempt > 0 {
        r.append("__openclaw_");
        push_decimal(&mut r, attempt as u64);
    }
    r
}

fn trimmed_eq(a: &str, b: &str) -> (r: bool)
    ensures
        r == (trim(a@) == trim(b@)),
{
    let av = chars_of(trim_str(a));
    let bv = chars_of(trim_str(b));
    chars_eq(av.as_slice(), bv.as_slice())
}

impl ImportRun {
    #[verifier::type_invariant]
    spec fn run_inv(self) -> bool {
        import_inv(self@)
    }

    /// An import of `entries`, mapping source agents with `agents`.
    pub fn new(entries: Vec<SourceEntry>, agents: AgentAliasMap) -> (r: Self)
        ensures
            r@.entries == entry_views(entries@),
            r@.agents == agents@,
            r@.pos == 0,
            r@.attempt == 0,
            !r@.storing,
            r@.imported == 0 && r@.skipped_unchanged == 0 && r@.renamed_conflicts == 0,
            import_inv(r@),
    {
        let base = if entries.len() > 0 {
            normalize_key(entries[0].key.as_str(), 0)
        } else {
            String::new()
        };
        ImportRun {
            entries,
            agents,
            progress: Progress {
                pos: 0,
                base,
                attempt: 0,
                storing: false,
                imported: 0,
                skipped_unchanged: 0,
                renamed_conflicts: 0,
            },
        }
    }

    /// The counts so far.
    pub fn stats(&self) -> (r: ImportStats)
        ensures
            r.imported == self@.imported,
            r.skipped_unchanged == self@.skipped_unchanged,
            r.renamed_conflicts == self@.renamed_conflicts,
            import_inv(self@),
    {
        proof {
            use_type_invariant(self);
        }
        ImportStats {
            imported: self.progress.imported,
            skipped_unchanged: self.progress.skipped_unchanged,
            renamed_conflicts: self.progress.renamed_conflicts,
        }
    }

    /// What to do next: finish once every entry is handled; store the
    /// current entry once a free key is found; else look up the next key to
    /// try, or fail when all were taken.
    pub fn next_action(&self) -> (r: ImportAction)
        ensures
            self@.pos == self@.entries.len() <==> r is Finished,
            self@.pos < self@.entries.len() && self@.storing ==> (r matches ImportAction::Store(
                req,
            ) && is_store_of(self@, req)),
            self@.pos < self@.entries.len() && !self@.storing && self@.attempt
                <= MAX_KEY_ATTEMPTS ==> (r matches ImportAction::Lookup(k) && k@ == probe_key(
                self@.base,
                self@.attempt,
            )),
            self@.pos < self@.entries.len() && !self@.storing && self@.attempt
                > MAX_KEY_ATTEMPTS ==> (r matches ImportAction::NoFreeKey(k) && k@ == self@.base),
            r matches ImportAction::Store(req) ==> {
                &&& req.category@ == self@.entries[self@.pos as int].category
                &&& req.content@ == self@.entries[self@.pos as int].content
                &&& opt_view(req.session_id) == self@.entries[self@.pos as int].session_id
                &&& opt_view(req.namespace) == self@.entries[self@.pos as int].namespace
                &&& req.importance_bits == self@.entries[self@.pos as int].importance_bits
            },
            import_inv(self@),
    {
        proof {
            use_type_invariant(self);
        }
        let p = &self.progress;
        if p.pos >= self.entries.len() {
            return ImportAction::Finished;
        }
        let key = probe_key_string(&p.base, p.attempt);
        if p.storing {
            let e = &self.entries[p.pos];
            let agent_id = match &e.agent_id {
                Some(a) => self.agents.get(a.as_str()),
                None => None,
            };
            return ImportAction::Store(
                StoreRequest {
                    key,
                    content: e.content.clone(),
                    category: e.category.duplicate(),
                    session_id: copy_opt(&e.session_id),
                    namespace: copy_opt(&e.namespace),
                    importance_bits: e.importance_bits,
                    agent_id,
                },
            );
        }
        if p.attempt <= MAX_KEY_ATTEMPTS {
            ImportAction::Lookup(key)
        } else {
            ImportAction::NoFreeKey(p.base.clone())
        }
    }

    /// Reports the content the target holds under the key of the last
    /// [`ImportAction::Lookup`] (`None` when the key is free). Outside a
    /// lookup this changes nothing.
    pub fn on_lookup(&mut self, existing: Option<&str>)
        ensures
            final(self)@ == after_lookup(
                old(self)@,
                match existing {
                    Some(c) => Some(c@),
                    None => None,
                },
            ),
            import_inv(final(self)@),
    {
        proof {
            use_type_invariant(&*self);
        }
        let n = self.entries.len();
        let p = &self.progress;
        if p.pos >= n || p.storing || p.attempt > MAX_KEY_ATTEMPTS {
            return;
        }
        let next = match existing {
            None => Progress {
                pos: p.pos,
                base: p.base.clone(),
                attempt: p.attempt,
                storing: true,
                imported: p.imported,
                skipped_unchanged: p.skipped_unchanged,
                renamed_conflicts: if p.attempt > 0 {
                    p.renamed_conflicts + 1
                } else {
                    p.renamed_conflicts
                },
            },
            Some(c) => {
                if p.attempt == 0 && trimmed_eq(c, self.entries[p.pos].content.as_str()) {
                    let np = p.pos + 1;
                    let base = if np < n {
                        normalize_key(self.entries[np].key.as_str(), np)
                    } else {
                        String::new()
                    };
                    Progress {
                        pos: np,
                        base,
                        attempt: 0,
                        storing: false,
                        imported: p.imported,
                        skipped_unchanged: p.skipped_unchanged + 1,
                        renamed_conflicts: p.renamed_conflicts,
                    }
                } else {
                    Progress {
                        pos: p.pos,
                        base: p.base.clone(),
                        attempt: p.attempt + 1,
                        storing: false,
                        imported: p.imported,
                        skipped_unchanged: p.skipped_unchanged,
                        renamed_conflicts: p.renamed_conflicts,
                    }
                }
            },
        };
        self.progress = next;
    }

    /// Reports that the store of the last [`ImportAction::Store`]
    /// completed. Outside a store this changes nothing.
    pub fn on_stored(&mut self)
        ensures
            final(self)@ == after_store(old(self)@),
            import_inv(final(self)@),
    {
        proof {
            use_type_invariant(&*self);
        }
        let n = self.entries.len();
        let p = &self.progress;
        if !p.storing || p.pos >= n {
            return;
        }
        let np = p.pos + 1;
        let base = if np < n {
            normalize_key(self.entries[np].key.as_str(), np)
        } else {
            String::new()
        };
        self.progress = Progress {
            pos: np,
            base,
            attempt: 0,
            storing: false,
            imported: p.imported + 1,
            skipped_unchanged: p.skipped_unchanged,
            renamed_conflicts: p.renamed_conflicts,
        };
    }
}

/// Work left in an import: entries not yet handled, weighted above the
/// keys still to try for the current entry.
pub open spec fn remaining_work(s: ImportState) -> int {
    (s.entries.len() - s.pos) * (MAX_KEY_ATTEMPTS + 3) + (MAX_KEY_ATTEMPTS + 2 - s.attempt) - if s.storing {
        1int
    } else {
        0int
    }
}

/// Law: an entry is stored only under the key whose lookup just reported it
/// free: a free key switches the import to storing, and the store then asked
/// for is under that same key.
pub proof fn lemma_store_goes_to_free_key(s: ImportState)
    requires
        import_inv(s),
        s.pos < s.entries.len(),
        !s.storing,
        s.attempt <= MAX_KEY_ATTEMPTS,
    ensures
        after_lookup(s, None).storing,
        after_lookup(s, None).pos == s.pos,
        probe_key(after_lookup(s, None).base, after_lookup(s, None).attempt) == probe_key(
            s.base,
            s.attempt,
        ),
{
}

/// Law: what a lookup decides. Under the entry's own key, content equal to
/// the entry's (both trimmed) skips the entry as unchanged, storing nothing;
/// other content there makes the import try `<key>__openclaw_1`; any
/// content under a renamed key makes it try the next number; a free key is
/// stored under, counting a renamed conflict when the key was renamed.
pub proof fn lemma_lookup_decides(s: ImportState, existing: Option<Seq<char>>)
    requires
        import_inv(s),
        s.pos < s.entries.len(),
        !s.storing,
        s.attempt <= MAX_KEY_ATTEMPTS,
    ensures
        existing matches Some(c) && s.attempt == 0 && trim(c) == trim(
            s.entries[s.pos as int].content,
        ) ==> {
            let t = after_lookup(s, existing);
            &&& t.pos == s.pos + 1
            &&& !t.storing
            &&& t.attempt == 0
            &&& t.skipped_unchanged == s.skipped_unchanged + 1
            &&& t.imported == s.imported
            &&& t.renamed_conflicts == s.renamed_conflicts
        },
        existing matches Some(c) && (s.attempt > 0 || trim(c) != trim(
            s.entries[s.pos as int].content,
        )) ==> {
            let t = after_lookup(s, existing);
            &&& t.pos == s.pos
            &&& !t.storing
            &&& t.attempt == s.attempt + 1
            &&& t.skipped_unchanged == s.skipped_unchanged
            &&& t.imported == s.imported
        },
        existing is None ==> {
            let t = after_lookup(s, existing);
            &&& t.pos == s.pos
            &&& t.storing
            &&& t.attempt == s.attempt
            &&& t.renamed_conflicts == s.renamed_conflicts + if s.attempt > 0 {
                1int
            } else {
                0int
            }
        },
{
}

/// Law: a store carries the current entry's own content, category,
/// session, namespace and importance unchanged, under the entry's own
/// (normalised) key when that was free and otherwise under
/// `<key>__openclaw_<n>`; its agent is the live agent mapped from the
/// entry's source agent, or the default agent when there is none.
pub proof fn lemma_store_keeps_entry(s: ImportState, r: StoreRequest)
    requires
        import_inv(s),
        s.pos < s.entries.len(),
        is_store_of(s, r),
    ensures
        r.content@ == s.entries[s.pos as int].content,
        r.category@ == s.entries[s.pos as int].category,
        opt_view(r.session_id) == s.entries[s.pos as int].session_id,
        opt_view(r.namespace) == s.entries[s.pos as int].namespace,
        r.importance_bits == s.entries[s.pos as int].importance_bits,
        s.attempt == 0 ==> r.key@ == normalized_key(s.entries[s.pos as int].key, s.pos),
        s.attempt > 0 ==> r.key@ == normalized_key(s.entries[s.pos as int].key, s.pos)
            + "__openclaw_"@ + decimal(s.attempt),
        s.entries[s.pos as int].agent_id matches Some(a) ==> (s.agents.contains_key(a) ==> opt_view(
            r.agent_id,
        ) == Some(s.agents[a])),
        s.entries[s.pos as int].agent_id matches Some(a) ==> (!s.agents.contains_key(a)
            ==> r.agent_id is None),
        s.entries[s.pos as int].agent_id is None ==> r.agent_id is None,
{
}

/// Law: every step keeps an import well-formed.
pub proof fn lemma_steps_keep_invariant(s: ImportState, existing: Option<Seq<char>>)
    requires
        import_inv(s),
    ensures
        import_inv(after_lookup(s, existing)),
        import_inv(after_store(s)),
{
}

/// Law: once an import is finished, every entry was either imported or
/// skipped as unchanged (none is dropped), and no more keys were renamed
/// than entries imported.
pub proof fn lemma_finished_accounts_for_every_entry(s: ImportState)
    requires
        import_inv(s),
        s.pos == s.entries.len(),
    ensures
        s.imported + s.skipped_unchanged == s.entries.len(),
        s.renamed_conflicts <= s.imported,
{
}

/// Law: each step an import asks for makes progress, so an import ends
/// (with [`ImportAction::Finished`], or [`ImportAction::NoFreeKey`] once
/// every candidate key of an entry is taken).
pub proof fn lemma_steps_make_progress(s: ImportState, existing: Option<Seq<char>>)
    requires
        import_inv(s),
        s.pos < s.entries.len(),
    ensures
        0 <= remaining_work(s),
        s.storing ==> remaining_work(after_store(s)) < remaining_work(s),
        !s.storing && s.attempt <= MAX_KEY_ATTEMPTS ==> remaining_work(after_lookup(s, existing))
            < remaining_work(s),
{
    let w = MAX_KEY_ATTEMPTS + 3;
    assert((s.entries.len() - s.pos) * w == (s.entries.len() - (s.pos + 1)) * w + w) by (nonlinear_arith);
    assert((s.entries.len() - (s.pos + 1)) * w >= 0) by (nonlinear_arith)
        requires
            s.pos + 1 <= s.entries.len(),
            w > 0,
    ;
}

} // verus!
