//! Memory entries read from an OpenClaw workspace, their categories and
//! keys, and the de-duplication applied before import.
use vstd::prelude::*;

use crate::text::{
    ascii_lowercase, chars_eq, chars_of, decimal, lemma_decimal_value, lemma_trim_clean,
    lemma_trim_idempotent, lemma_trim_lower, lower_seq, push_char, push_decimal, trim, trim_str,
    is_digit,
};

verus! {

/// Category of a memory entry.
#[derive(Debug, PartialEq, Eq)]
pub enum MemoryCategory {
    Core,
    Daily,
    Conversation,
    Custom(String),
}

/// Mathematical form of a [`MemoryCategory`].
pub enum CategoryView {
    Core,
    Daily,
    Conversation,
    Custom(Seq<char>),
}

impl View for MemoryCategory {
    type V = CategoryView;

    open spec fn view(&self) -> CategoryView {
        match self {
            MemoryCategory::Core => CategoryView::Core,
            MemoryCategory::Daily => CategoryView::Daily,
            MemoryCategory::Conversation => CategoryView::Conversation,
            MemoryCategory::Custom(name) => CategoryView::Custom(name@),
        }
    }
}

/// The category's name as it is displayed: `core`, `daily`,
/// `conversation`, or the custom name.
pub open spec fn category_name(c: CategoryView) -> Seq<char> {
    match c {
        CategoryView::Core => "core"@,
        CategoryView::Daily => "daily"@,
        CategoryView::Conversation => "conversation"@,
        CategoryView::Custom(name) => name,
    }
}

/// The category named by a raw category string: trimmed and ASCII
/// lower-cased, `core` or empty is [`MemoryCategory::Core`], `daily` and
/// `conversation` their categories, anything else a custom category of
/// that (normalised) name.
pub open spec fn category_of(raw: Seq<char>) -> CategoryView {
    let n = lower_seq(trim(raw));
    if n == "core"@ || n.len() == 0 {
        CategoryView::Core
    } else if n == "daily"@ {
        CategoryView::Daily
    } else if n == "conversation"@ {
        CategoryView::Conversation
    } else {
        CategoryView::Custom(n)
    }
}

/// The views of optional strings.
pub open spec fn opt_view(o: Option<String>) -> Option<Seq<char>> {
    match o {
        Some(s) => Some(s@),
        None => None,
    }
}

/// A memory entry read from the source workspace. `importance_bits` is the
/// bit pattern (`f64::to_bits`) of the entry's importance score.
#[derive(Debug)]
pub struct SourceEntry {
    pub key: String,
    pub content: String,
    pub category: MemoryCategory,
    pub agent_id: Option<String>,
    pub session_id: Option<String>,
    pub namespace: Option<String>,
    pub importance_bits: Option<u64>,
}

/// Mathematical form of a [`SourceEntry`].
pub struct EntryView {
    pub key: Seq<char>,
    pub content: Seq<char>,
    pub category: CategoryView,
    pub agent_id: Option<Seq<char>>,
    pub session_id: Option<Seq<char>>,
    pub namespace: Option<Seq<char>>,
    pub importance_bits: Option<u64>,
}

impl View for SourceEntry {
    type V = EntryView;

    open spec fn view(&self) -> EntryView {
        EntryView {
            key: self.key@,
            content: self.content@,
            category: self.category@,
            agent_id: opt_view(self.agent_id),
            session_id: opt_view(self.session_id),
            namespace: opt_view(self.namespace),
            importance_bits: self.importance_bits,
        }
    }
}

/// The views of a sequence of entries.
pub open spec fn entry_views(es: Seq<SourceEntry>) -> Seq<EntryView> {
    es.map_values(|e: SourceEntry| e@)
}

/// `openclaw_`
pub open spec fn openclaw_prefix() -> Seq<char> {
    "openclaw_"@
}

/// The key under which an entry is imported: its trimmed key, or
/// `openclaw_<idx>` when that is empty.
pub open spec fn normalized_key(key: Seq<char>, idx: nat) -> Seq<char> {
    if trim(key).len() == 0 {
        openclaw_prefix() + decimal(idx)
    } else {
        trim(key)
    }
}

impl MemoryCategory {
    /// A copy of the category.
    pub fn duplicate(&self) -> (r: MemoryCategory)
        ensures
            r@ == self@,
    {
        match self {
            MemoryCategory::Core => MemoryCategory::Core,
            MemoryCategory::Daily => MemoryCategory::Daily,
            MemoryCategory::Conversation => MemoryCategory::Conversation,
            MemoryCategory::Custom(name) => MemoryCategory::Custom(name.clone()),
        }
    }

    /// The category's displayed name.
    pub fn name(&self) -> (r: String)
        ensures
            r@ == category_name(self@),
    {
        match self {
            MemoryCategory::Core => String::from_str("core"),
            MemoryCategory::Daily => String::from_str("daily"),
            MemoryCategory::Conversation => String::from_str("conversation"),
            MemoryCategory::Custom(name) => name.clone(),
        }
    }
}

/// A copy of an optional string.
pub fn copy_opt(o: &Option<String>) -> (r: Option<String>)
    ensures
        opt_view(r) == opt_view(*o),
{
    match o {
        Some(s) => Some(s.clone()),
        None => None,
    }
}

impl SourceEntry {
    /// A copy of the entry.
    pub fn duplicate(&self) -> (r: SourceEntry)
        ensures
            r@ == self@,
    {
        SourceEntry {
            key: self.key.clone(),
            content: self.content.clone(),
            category: self.category.duplicate(),
            agent_id: copy_opt(&self.agent_id),
            session_id: copy_opt(&self.session_id),
            namespace: copy_opt(&self.namespace),
            importance_bits: self.importance_bits,
        }
    }
}

/// Parses a raw category string (case- and whitespace-insensitive).
pub fn parse_category(raw: &str) -> (r: MemoryCategory)
    ensures
        r@ == category_of(raw@),
{
    let n = ascii_lowercase(trim_str(raw));
    let nv = chars_of(n.as_str());
    let core = chars_of("core");
    let daily = chars_of("daily");
    let conversation = chars_of("conversation");
    if chars_eq(nv.as_slice(), core.as_slice()) || nv.len() == 0 {
        MemoryCategory::Core
    } else if chars_eq(nv.as_slice(), daily.as_slice()) {
        MemoryCategory::Daily
    } else if chars_eq(nv.as_slice(), conversation.as_slice()) {
        MemoryCategory::Conversation
    } else {
        MemoryCategory::Custom(n)
    }
}

/// The key for an entry: `key` trimmed, or `openclaw_<fallback_idx>` when
/// it is empty after trimming.
pub fn normalize_key(key: &str, fallback_idx: usize) -> (r: String)
    ensures
        r@ == normalized_key(key@, fallback_idx as nat),
{
    let trimmed = trim_str(key);
    if trimmed.unicode_len() == 0 {
        let mut r = String::from_str("openclaw_");
        push_decimal(&mut r, fallback_idx as u64);
        return r;
    }
    String::from_str(trimmed)
}

/// The identity of an entry for de-duplication: key, content and category
/// name, separated by NUL characters.
pub open spec fn entry_signature(e: EntryView) -> Seq<char> {
    e.key + seq!['\0'] + e.content + seq!['\0'] + category_name(e.category)
}

/// Whether an entry before index `i` has the same signature as entry `i`.
pub open spec fn seen_before(es: Seq<EntryView>, i: int) -> bool {
    exists|j: int| 0 <= j < i && #[trigger] entry_signature(es[j]) == entry_signature(es[i])
}

/// `es` with every entry dropped whose signature occurred earlier; the
/// first occurrence of each signature stays, in order.
pub open spec fn dedup_views(es: Seq<EntryView>) -> Seq<EntryView>
    decreases es.len(),
{
    if es.len() == 0 {
        Seq::empty()
    } else {
        let prev = dedup_views(es.drop_last());
        if seen_before(es, es.len() - 1) {
            prev
        } else {
            prev.push(es.last())
        }
    }
}

fn signature(e: &SourceEntry) -> (r: String)
    ensures
        r@ == entry_signature(e@),
{
    let mut r = e.key.clone();
    push_char(&mut r, '\0');
    r.append(e.content.as_str());
    push_char(&mut r, '\0');
    let name = e.category.name();
    r.append(name.as_str());
    r
}

/// Removes duplicates, keeping the first occurrence of each, so that
/// re-running an import is deterministic. Entries are compared by their
/// signature: key, content and category name joined with NUL characters
/// (so a key or content holding a NUL can make distinct entries compare
/// equal).
pub fn dedup_entries(entries: Vec<SourceEntry>) -> (r: Vec<SourceEntry>)
    ensures
        entry_views(r@) == dedup_views(entry_views(entries@)),
{
    let ghost ev = entry_views(entries@);
    let mut seen: Vec<String> = Vec::new();
    let mut out: Vec<SourceEntry> = Vec::new();
    for i in 0..entries.len()
        invariant
            ev == entry_views(entries@),
            seen@.len() == i,
            forall|j: int| 0 <= j < i ==> (#[trigger] seen@[j])@ == entry_signature(ev[j]),
            entry_views(out@) == dedup_views(ev.take(i as int)),
    {
        let sig = signature(&entries[i]);
        let mut dup = false;
        let mut j: usize = 0;
        while j < seen.len()
            invariant
                j <= seen@.len() == i < ev.len(),
                ev == entry_views(entries@),
                sig@ == entry_signature(ev[i as int]),
                forall|k: int| 0 <= k < i ==> (#[trigger] seen@[k])@ == entry_signature(ev[k]),
                dup <==> exists|k: int| 0 <= k < j && entry_signature(#[trigger] ev[k]) == sig@,
            decreases seen.len() - j,
        {
            if seen[j] == sig {
                dup = true;
            }
            j = j + 1;
        }
        let ghost t = ev.take(i + 1);
        assert(t.drop_last() == ev.take(i as int));
        assert(t.last() == ev[i as int]);
        assert(seen_before(t, i as int) <==> dup) by {
            if dup {
                let k = choose|k: int| 0 <= k < i && entry_signature(#[trigger] ev[k]) == sig@;
                assert(t[k] == ev[k]);
            }
            if seen_before(t, i as int) {
                let k = choose|k: int|
                    0 <= k < i && #[trigger] entry_signature(t[k]) == entry_signature(t[i as int]);
                assert(t[k] == ev[k]);
            }
        }
        if !dup {
            let ghost before = out@;
            let e = entries[i].duplicate();
            out.push(e);
            assert(out@.drop_last() == before);
            assert(entry_views(out@) == entry_views(before).push(e@));
        }
        seen.push(sig);
    }
    assert(ev.take(ev.len() as int) == ev);
    out
}

/// Law: an import key is never empty, and normalising it again (under any
/// fallback index) gives it back unchanged.
pub proof fn lemma_normalized_key_stable(key: Seq<char>, i: nat, j: nat)
    ensures
        normalized_key(key, i).len() > 0,
        normalized_key(normalized_key(key, i), j) == normalized_key(key, i),
{
    lemma_trim_idempotent(key);
    if trim(key).len() == 0 {
        let k = openclaw_prefix() + decimal(i);
        reveal_strlit("openclaw_");
        lemma_decimal_value(i);
        assert(k[0] == 'o');
        assert(k.last() == decimal(i).last());
        assert(is_digit(decimal(i)[decimal(i).len() - 1]));
        lemma_trim_clean(k);
    }
}

/// Law: category names are case-insensitive.
pub proof fn lemma_category_case_insensitive(raw: Seq<char>)
    ensures
        category_of(lower_seq(raw)) == category_of(raw),
{
    lemma_trim_lower(raw);
    lemma_trim_lower(trim(raw));
}

/// Law: the displayed name of any category read from raw text reads back
/// as that same category, so distinct categories have distinct names.
pub proof fn lemma_category_name_round_trip(raw: Seq<char>)
    ensures
        category_of(category_name(category_of(raw))) == category_of(raw),
{
    reveal_strlit("core");
    reveal_strlit("daily");
    reveal_strlit("conversation");
    match category_of(raw) {
        CategoryView::Core => {
            lemma_trim_clean("core"@);
            assert(lower_seq("core"@) =~= "core"@);
        },
        CategoryView::Daily => {
            lemma_trim_clean("daily"@);
            assert(lower_seq("daily"@) =~= "daily"@);
        },
        CategoryView::Conversation => {
            lemma_trim_clean("conversation"@);
            assert(lower_seq("conversation"@) =~= "conversation"@);
        },
        CategoryView::Custom(n) => {
            lemma_trim_idempotent(raw);
            lemma_trim_lower(trim(raw));
            assert(trim(n) == n);
            assert(lower_seq(n) == n);
        },
    }
}

/// Law: de-duplication leaves no two entries with the same signature (key,
/// content and category name joined with NUL), keeps every signature that
/// occurs in its input, and keeps only entries of its input.
#[verifier::spinoff_prover]
#[verifier::rlimit(50)]
pub proof fn lemma_dedup(es: Seq<EntryView>)
    ensures
        forall|i: int, j: int|
            0 <= i < j < dedup_views(es).len() ==> entry_signature(#[trigger] dedup_views(es)[i])
                != entry_signature(#[trigger] dedup_views(es)[j]),
        forall|k: int|
            0 <= k < es.len() ==> exists|i: int|
                0 <= i < dedup_views(es).len() && #[trigger] entry_signature(dedup_views(es)[i])
                    == entry_signature(#[trigger] es[k]),
        forall|i: int|
            0 <= i < dedup_views(es).len() ==> exists|k: int|
                0 <= k < es.len() && #[trigger] es[k] == #[trigger] dedup_views(es)[i],
    decreases es.len(),
{
    if es.len() > 0 {
        let init = es.drop_last();
        lemma_dedup(init);
        let p = dedup_views(init);
        let d = dedup_views(es);
        let n = es.len() - 1;
        assert forall|k: int| 0 <= k < n implies #[trigger] init[k] == es[k] by {}
        if seen_before(es, n) {
            assert(d == p);
            assert forall|k: int| 0 <= k < es.len() implies exists|i: int|
                0 <= i < d.len() && #[trigger] entry_signature(d[i]) == entry_signature(
                    #[trigger] es[k],
                ) by {
                if k < n {
                    assert(init[k] == es[k]);
                } else {
                    let j = choose|j: int|
                        0 <= j < n && #[trigger] entry_signature(es[j]) == entry_signature(es[n]);
                    assert(init[j] == es[j]);
                }
            }
            assert forall|i: int| 0 <= i < d.len() implies exists|k: int|
                0 <= k < es.len() && #[trigger] es[k] == #[trigger] d[i] by {
                let k = choose|k: int| 0 <= k < init.len() && #[trigger] init[k] == p[i];
                assert(es[k] == init[k]);
            }
        } else {
            assert(d == p.push(es[n]));
            assert forall|i: int, j: int| 0 <= i < j < d.len() implies entry_signature(
                #[trigger] d[i],
            ) != entry_signature(#[trigger] d[j]) by {
                if j == d.len() - 1 {
                    assert(d[i] == p[i]);
                    let k = choose|k: int| 0 <= k < init.len() && #[trigger] init[k] == p[i];
                    assert(es[k] == init[k]);
                    if entry_signature(d[i]) == entry_signature(d[j]) {
                        assert(entry_signature(es[k]) == entry_signature(es[n]));
                        assert(seen_before(es, n));
                    }
                } else {
                    assert(d[i] == p[i] && d[j] == p[j]);
                }
            }
            assert forall|k: int| 0 <= k < es.len() implies exists|i: int|
                0 <= i < d.len() && #[trigger] entry_signature(d[i]) == entry_signature(
                    #[trigger] es[k],
                ) by {
                if k < n {
                    assert(init[k] == es[k]);
                    let i = choose|i: int|
                        0 <= i < p.len() && #[trigger] entry_signature(p[i]) == entry_signature(
                            init[k],
                        );
                    assert(d[i] == p[i]);
                } else {
                    assert(d[d.len() - 1] == es[k]);
                }
            }
            assert forall|i: int| 0 <= i < d.len() implies exists|k: int|
                0 <= k < es.len() && #[trigger] es[k] == #[trigger] d[i] by {
                if i < p.len() {
                    let k = choose|k: int| 0 <= k < init.len() && #[trigger] init[k] == p[i];
                    assert(es[k] == init[k]);
                    assert(d[i] == p[i]);
                } else {
                    assert(d[i] == es[n]);
                }
            }
        }
    }
}

/// Law: de-duplicating again changes nothing, so re-running an import
/// collection is deterministic.
pub proof fn lemma_dedup_idempotent(es: Seq<EntryView>)
    ensures
        dedup_views(dedup_views(es)) == dedup_views(es),
{
    lemma_dedup(es);
    lemma_dedup_of_distinct(dedup_views(es));
}

proof fn lemma_dedup_of_distinct(es: Seq<EntryView>)
    requires
        forall|i: int, j: int|
            0 <= i < j < es.len() ==> entry_signature(#[trigger] es[i]) != entry_signature(
                #[trigger] es[j],
            ),
    ensures
        dedup_views(es) == es,
    decreases es.len(),
{
    if es.len() > 0 {
        let init = es.drop_last();
        assert forall|i: int, j: int| 0 <= i < j < init.len() implies entry_signature(
            #[trigger] init[i],
        ) != entry_signature(#[trigger] init[j]) by {
            assert(init[i] == es[i] && init[j] == es[j]);
        }
        lemma_dedup_of_distinct(init);
        assert(!seen_before(es, es.len() - 1));
        assert(init.push(es.last()) =~= es);
    }
}

/// `s` holds no NUL character.
pub open spec fn has_no_nul(s: Seq<char>) -> bool {
    forall|i: int| 0 <= i < s.len() ==> s[i] != '\0'
}

proof fn lemma_split_at_nul(x: Seq<char>, y: Seq<char>, x2: Seq<char>, y2: Seq<char>)
    requires
        has_no_nul(x),
        has_no_nul(x2),
        x + seq!['\0'] + y == x2 + seq!['\0'] + y2,
    ensures
        x == x2,
        y == y2,
{
    let l = x + seq!['\0'] + y;
    let r = x2 + seq!['\0'] + y2;
    if x.len() < x2.len() {
        assert(l[x.len() as int] == '\0');
        assert(r[x.len() as int] == x2[x.len() as int]);
    }
    if x2.len() < x.len() {
        assert(r[x2.len() as int] == '\0');
        assert(l[x2.len() as int] == x[x2.len() as int]);
    }
    assert(x.len() == x2.len());
    assert(x =~= l.take(x.len() as int));
    assert(x2 =~= r.take(x.len() as int));
    assert(y =~= l.skip(x.len() + 1int));
    assert(y2 =~= r.skip(x.len() + 1int));
}

/// Law: for keys and contents without NUL, the signature determines the
/// key, the content and the category name: entries that differ in any of
/// them have different signatures.
pub proof fn lemma_signature_determines_entry(a: EntryView, b: EntryView)
    requires
        has_no_nul(a.key),
        has_no_nul(a.content),
        has_no_nul(b.key),
        has_no_nul(b.content),
        entry_signature(a) == entry_signature(b),
    ensures
        a.key == b.key,
        a.content == b.content,
        category_name(a.category) == category_name(b.category),
{
    let ra = a.content + seq!['\0'] + category_name(a.category);
    let rb = b.content + seq!['\0'] + category_name(b.category);
    assert(entry_signature(a) =~= a.key + seq!['\0'] + ra);
    assert(entry_signature(b) =~= b.key + seq!['\0'] + rb);
    lemma_split_at_nul(a.key, ra, b.key, rb);
    lemma_split_at_nul(a.content, category_name(a.category), b.content, category_name(b.category));
}

proof fn lemma_dedup_keeps_unseen(es: Seq<EntryView>, k: int)
    requires
        0 <= k < es.len(),
        !seen_before(es, k),
    ensures
        exists|i: int| 0 <= i < dedup_views(es).len() && dedup_views(es)[i] == es[k],
    decreases es.len(),
{
    let init = es.drop_last();
    let p = dedup_views(init);
    if k == es.len() - 1 {
        assert(dedup_views(es) == p.push(es[k]));
        assert(dedup_views(es)[p.len() as int] == es[k]);
    } else {
        assert(!seen_before(init, k)) by {
            if seen_before(init, k) {
                let j = choose|j: int|
                    0 <= j < k && #[trigger] entry_signature(init[j]) == entry_signature(init[k]);
                assert(init[j] == es[j] && init[k] == es[k]);
                assert(entry_signature(es[j]) == entry_signature(es[k]));
            }
        }
        lemma_dedup_keeps_unseen(init, k);
        let i = choose|i: int| 0 <= i < p.len() && p[i] == init[k];
        assert(init[k] == es[k]);
        if seen_before(es, es.len() - 1) {
            assert(dedup_views(es)[i] == es[k]);
        } else {
            assert(dedup_views(es) == p.push(es.last()));
            assert(dedup_views(es)[i] == es[k]);
        }
    }
}

/// Law: when keys and contents hold no NUL, de-duplication keeps every entry
/// whose key, content or category differs from every earlier entry's: only
/// exact repeats are dropped.
pub proof fn lemma_dedup_keeps_distinct_entries(es: Seq<EntryView>, k: int)
    requires
        0 <= k < es.len(),
        forall|i: int| 0 <= i < es.len() ==> has_no_nul(#[trigger] es[i].key) && has_no_nul(
            es[i].content,
        ),
        forall|j: int|
            0 <= j < k ==> !(#[trigger] es[j].key == es[k].key && es[j].content == es[k].content
                && category_name(es[j].category) == category_name(es[k].category)),
    ensures
        exists|i: int| 0 <= i < dedup_views(es).len() && dedup_views(es)[i] == es[k],
{
    assert(!seen_before(es, k)) by {
        if seen_before(es, k) {
            let j = choose|j: int|
                0 <= j < k && #[trigger] entry_signature(es[j]) == entry_signature(es[k]);
            lemma_signature_determines_entry(es[j], es[k]);
        }
    }
    lemma_dedup_keeps_unseen(es, k);
}

} // verus!
