//! Markdown notes of an OpenClaw workspace (`MEMORY.md` and
//! `memory/*.md`): one memory per non-empty, non-heading line, either
//! structured as `**key**: value` or free text with a generated key.
use vstd::prelude::*;

use crate::migration::entry::{
    lemma_normalized_key_stable,
    normalize_key, normalized_key, openclaw_prefix, CategoryView, EntryView, MemoryCategory,
    SourceEntry, entry_views,
};
use crate::text::{
    chars_of, decimal, has_prefix, push_char, push_decimal, split_at_char, string_of_range, trim,
    trim_range, trim_str, is_ws, lemma_trim_idempotent,
};

verus! {

/// `**`
pub open spec fn bold_open() -> Seq<char> {
    seq!['*', '*']
}

/// `**:`
pub open spec fn key_close() -> Seq<char> {
    seq!['*', '*', ':']
}

/// `p` occurs in `s` at index `i`.
pub open spec fn occurs_at(s: Seq<char>, p: Seq<char>, i: int) -> bool {
    0 <= i && i + p.len() <= s.len() && s.subrange(i, i + p.len()) == p
}

/// The index of the first occurrence of `p` in `s` (`str::find`).
pub open spec fn first_occurrence(s: Seq<char>, p: Seq<char>) -> Option<int> {
    if exists|i: int| occurs_at(s, p, i) {
        Some(
            choose|i: int|
                occurs_at(s, p, i) && forall|j: int| 0 <= j < i ==> !occurs_at(s, p, j),
        )
    } else {
        None
    }
}

/// Key and value of a structured line `**key**: value`: the line starts
/// with `**`, the key runs up to the first `**:` after it, and both key and
/// value, trimmed, are non-empty.
pub open spec fn structured_parts(line: Seq<char>) -> Option<(Seq<char>, Seq<char>)> {
    if has_prefix(line, bold_open()) {
        let rest = line.skip(2);
        match first_occurrence(rest, key_close()) {
            Some(k) => {
                let key = trim(rest.take(k));
                let value = trim(rest.skip(k + 3));
                if key.len() > 0 && value.len() > 0 {
                    Some((key, value))
                } else {
                    None
                }
            },
            None => None,
        }
    } else {
        None
    }
}

proof fn lemma_first_occurrence(s: Seq<char>, p: Seq<char>, i: int)
    requires
        occurs_at(s, p, i),
        forall|j: int| 0 <= j < i ==> !occurs_at(s, p, j),
    ensures
        first_occurrence(s, p) == Some(i),
{
    let c = choose|c: int| occurs_at(s, p, c) && forall|j: int| 0 <= j < c ==> !occurs_at(s, p, j);
    assert(occurs_at(s, p, c) && forall|j: int| 0 <= j < c ==> !occurs_at(s, p, j));
    if c < i {
        assert(!occurs_at(s, p, c));
    }
    if i < c {
        assert(!occurs_at(s, p, i));
    }
}

/// Parses a structured memory line `**key**: value` into its trimmed key
/// and value; `None` when the line is not of that form or either part is
/// empty.
pub fn parse_structured_memory_line(line: &str) -> (r: Option<(&str, &str)>)
    ensures
        r is None <==> structured_parts(line@) is None,
        r matches Some(kv) ==> structured_parts(line@) == Some((kv.0@, kv.1@)),
{
    let v = chars_of(line);
    let n = v.len();
    if n < 2 || v[0] != '*' || v[1] != '*' {
        proof {
            if has_prefix(line@, bold_open()) {
                assert(line@.take(2)[0] == '*' && line@.take(2)[1] == '*');
            }
        }
        return None;
    }
    assert(v@.take(2) =~= bold_open());
    let ghost rest = v@.skip(2);
    let mut k: usize = 2;
    while n - k >= 3 && !(v[k] == '*' && v[k + 1] == '*' && v[k + 2] == ':')
        invariant
            2 <= k <= n == v@.len(),
            rest == v@.skip(2),
            forall|j: int| 0 <= j < k - 2 ==> !occurs_at(rest, key_close(), j),
        decreases n - k,
    {
        assert(!occurs_at(rest, key_close(), k - 2)) by {
            if occurs_at(rest, key_close(), k - 2) {
                let w = rest.subrange(k - 2, k + 1);
                assert(w[0] == v@[k as int] && w[1] == v@[k + 1] && w[2] == v@[k + 2]);
            }
        }
        k = k + 1;
    }
    if n - k < 3 {
        assert(!exists|i: int| occurs_at(rest, key_close(), i)) by {
            assert forall|i: int| !occurs_at(rest, key_close(), i) by {
                if 0 <= i && i < k - 2 {
                } else if occurs_at(rest, key_close(), i) {
                    assert(i + 3 <= rest.len());
                }
            }
        }
        return None;
    }
    assert(occurs_at(rest, key_close(), k - 2)) by {
        assert(rest.subrange(k - 2, k + 1) =~= key_close());
    }
    proof {
        lemma_first_occurrence(rest, key_close(), k - 2);
        assert(rest.take(k - 2) =~= v@.subrange(2, k as int));
        assert(rest.skip(k + 1) =~= v@.subrange(k + 3, n as int));
    }
    let (ka, kb) = trim_range(v.as_slice(), 2, k);
    let (va, vb) = trim_range(v.as_slice(), k + 3, n);
    if kb == ka || vb == va {
        return None;
    }
    Some((line.substring_char(ka, kb), line.substring_char(va, vb)))
}

/// `- `
pub open spec fn bullet() -> Seq<char> {
    seq!['-', ' ']
}

/// The key of a free-text line: `openclaw_<stem>_<line number>`, with line
/// numbers counted from 1.
pub open spec fn generated_key(stem: Seq<char>, idx: nat) -> Seq<char> {
    openclaw_prefix() + stem + seq!['_'] + decimal(idx + 1)
}

/// The memory (key and text) of line `idx` (counted from 0) of a markdown
/// file: blank lines and headings give none; a leading `- ` is dropped; a
/// structured line gives its key and value, any other line a generated key
/// and the line itself; an empty text gives none.
pub open spec fn line_entry(raw: Seq<char>, idx: nat, stem: Seq<char>) -> Option<
    (Seq<char>, Seq<char>),
> {
    let t = trim(raw);
    if t.len() == 0 || t[0] == '#' {
        None
    } else {
        let line = if has_prefix(t, bullet()) {
            t.skip(2)
        } else {
            t
        };
        let kv = match structured_parts(line) {
            Some(p) => (normalized_key(p.0, idx), trim(p.1)),
            None => (generated_key(stem, idx), trim(line)),
        };
        if kv.1.len() == 0 {
            None
        } else {
            Some(kv)
        }
    }
}

/// The lines of `s` (`str::lines`, before trimming): the pieces between
/// newlines, without the empty piece after a final newline. (A carriage
/// return before a newline stays at the end of its line; every line is
/// trimmed before use, which removes it.)
pub open spec fn text_lines(s: Seq<char>) -> Seq<Seq<char>> {
    let p = split_at_char(s, '\n');
    if p.last().len() == 0 {
        p.drop_last()
    } else {
        p
    }
}

/// The entries of a markdown file with lines `lines`, all in category
/// `cat`.
pub open spec fn markdown_entries(lines: Seq<Seq<char>>, stem: Seq<char>, cat: CategoryView) -> Seq<
    EntryView,
>
    decreases lines.len(),
{
    if lines.len() == 0 {
        Seq::empty()
    } else {
        let prev = markdown_entries(lines.drop_last(), stem, cat);
        match line_entry(lines.last(), (lines.len() - 1) as nat, stem) {
            Some(kv) => prev.push(
                EntryView {
                    key: kv.0,
                    content: kv.1,
                    category: cat,
                    agent_id: None,
                    session_id: None,
                    namespace: None,
                    importance_bits: None,
                },
            ),
            None => prev,
        }
    }
}

/// `t` without a leading `- `.
fn strip_bullet(t: &str) -> (r: &str)
    ensures
        r@ == if has_prefix(t@, bullet()) {
            t@.skip(2)
        } else {
            t@
        },
{
    let tv = chars_of(t);
    if tv.len() >= 2 && tv[0] == '-' && tv[1] == ' ' {
        assert(t@.take(2) =~= bullet());
        t.substring_char(2, tv.len())
    } else {
        proof {
            if has_prefix(t@, bullet()) {
                assert(t@.take(2)[0] == '-' && t@.take(2)[1] == ' ');
            }
            assert(t@.subrange(0, t@.len() as int) == t@);
        }
        t
    }
}

/// `openclaw_<stem>_<idx + 1>`
fn generated_key_string(stem: &str, idx: usize) -> (r: String)
    requires
        idx < usize::MAX,
    ensures
        r@ == generated_key(stem@, idx as nat),
{
    let mut key = String::from_str("openclaw_");
    key.append(stem);
    push_char(&mut key, '_');
    push_decimal(&mut key, (idx + 1) as u64);
    key
}

/// The memory of one markdown line, numbered `idx` from 0.
pub fn markdown_line_entry(raw: &str, idx: usize, stem: &str) -> (r: Option<(String, String)>)
    requires
        idx < usize::MAX,
    ensures
        r matches Some(kv) ==> line_entry(raw@, idx as nat, stem@) == Some((kv.0@, kv.1@)),
        r is None ==> line_entry(raw@, idx as nat, stem@) is None,
        trim(raw@).len() > 0 && trim(raw@)[0] == '#' ==> r is None,
{
    let t = trim_str(raw);
    let tv = chars_of(t);
    if tv.len() == 0 || tv[0] == '#' {
        return None;
    }
    let line = strip_bullet(t);
    let (key, text) = match parse_structured_memory_line(line) {
        Some((k, v)) => (normalize_key(k, idx), String::from_str(trim_str(v))),
        None => (generated_key_string(stem, idx), String::from_str(trim_str(line))),
    };
    if text.as_str().unicode_len() == 0 {
        return None;
    }
    Some((key, text))
}

/// The memories in a markdown file's `content`, in line order, all in
/// `default_category`; free-text lines get keys `openclaw_<stem>_<n>`.
pub fn parse_markdown_file(content: &str, default_category: MemoryCategory, stem: &str) -> (r: Vec<
    SourceEntry,
>)
    ensures
        entry_views(r@) == markdown_entries(text_lines(content@), stem@, default_category@),
{
    let v = chars_of(content);
    let n = v.len();
    let ghost cat = default_category@;
    let mut out: Vec<SourceEntry> = Vec::new();
    let mut line_start: usize = 0;
    let mut idx: usize = 0;
    let ghost mut done: Seq<Seq<char>> = Seq::empty();
    assert(v@.take(0) =~= Seq::<char>::empty());
    assert(v@.subrange(0, 0) =~= Seq::<char>::empty());
    assert(split_at_char(Seq::<char>::empty(), '\n') == done.push(Seq::<char>::empty()));
    for i in 0..n
        invariant
            n == v@.len(),
            v@ == content@,
            cat == default_category@,
            line_start <= i,
            idx <= line_start,
            idx == done.len(),
            idx <= i,
            split_at_char(v@.take(i as int), '\n') == done.push(v@.subrange(line_start as int, i as int)),
            entry_views(out@) == markdown_entries(done, stem@, cat),
    {
        let ghost cur = v@.subrange(line_start as int, i as int);
        assert(v@.take(i + 1).drop_last() == v@.take(i as int));
        assert(v@.take(i + 1).last() == v@[i as int]);
        if v[i] == '\n' {
            let line = string_of_range(v.as_slice(), line_start, i);
            let ghost before = out@;
            match markdown_line_entry(line.as_str(), idx, stem) {
                Some((key, text)) => {
                    let e = SourceEntry {
                        key,
                        content: text,
                        category: default_category.duplicate(),
                        agent_id: None,
                        session_id: None,
                        namespace: None,
                        importance_bits: None,
                    };
                    out.push(e);
                    assert(out@.drop_last() == before);
                    assert(entry_views(out@) == entry_views(before).push(e@));
                },
                None => {},
            }
            proof {
                let nd = done.push(cur);
                assert(nd.drop_last() == done);
                assert(nd.last() == cur);
                done = nd;
                assert(v@.subrange(i + 1, i + 1) =~= Seq::<char>::empty());
            }
            line_start = i + 1;
            idx = idx + 1;
        } else {
            proof {
                let p = done.push(cur);
                assert(p.last() == cur);
                assert(cur.push(v@[i as int]) =~= v@.subrange(line_start as int, i + 1));
                assert(p.update(p.len() - 1, p.last().push(v@[i as int])) =~= done.push(
                    v@.subrange(line_start as int, i + 1),
                ));
            }
        }
    }
    assert(v@.take(n as int) == v@);
    let ghost cur = v@.subrange(line_start as int, n as int);
    if line_start < n {
        let line = string_of_range(v.as_slice(), line_start, n);
        let ghost before = out@;
        match markdown_line_entry(line.as_str(), idx, stem) {
            Some((key, text)) => {
                let e = SourceEntry {
                    key,
                    content: text,
                    category: default_category.duplicate(),
                    agent_id: None,
                    session_id: None,
                    namespace: None,
                    importance_bits: None,
                };
                out.push(e);
                assert(out@.drop_last() == before);
                assert(entry_views(out@) == entry_views(before).push(e@));
            },
            None => {},
        }
        proof {
            let nd = done.push(cur);
            assert(nd.drop_last() == done);
            assert(nd.last() == cur);
        }
    } else {
        assert(done.push(cur).drop_last() == done);
    }
    out
}

proof fn lemma_no_close_in_key(key: Seq<char>, tail: Seq<char>, j: int)
    requires
        forall|i: int| !#[trigger] occurs_at(key, key_close(), i),
        0 <= j < key.len(),
    ensures
        !occurs_at(key + key_close() + tail, key_close(), j),
{
    let rest = key + key_close() + tail;
    let k = key.len() as int;
    if occurs_at(rest, key_close(), j) {
        let w = rest.subrange(j, j + 3);
        assert(w[2] == rest[j + 2]);
        if j + 3 <= k {
            assert(w =~= key.subrange(j, j + 3));
            assert(occurs_at(key, key_close(), j));
        } else {
            assert(rest[j + 2] == '*');
        }
    }
}

proof fn lemma_close_after_key(key: Seq<char>, tail: Seq<char>)
    requires
        forall|i: int| !#[trigger] occurs_at(key, key_close(), i),
    ensures
        first_occurrence(key + key_close() + tail, key_close()) == Some(key.len() as int),
{
    let rest = key + key_close() + tail;
    let k = key.len() as int;
    assert(rest.subrange(k, k + 3) =~= key_close());
    assert forall|j: int| 0 <= j < k implies !#[trigger] occurs_at(rest, key_close(), j) by {
        lemma_no_close_in_key(key, tail, j);
    }
    lemma_first_occurrence(rest, key_close(), k);
}

proof fn lemma_trim_after_space(value: Seq<char>)
    ensures
        trim(seq![' '] + value) == trim(value),
{
    let tail = seq![' '] + value;
    assert(is_ws(tail[0]));
    assert(tail.drop_first() =~= value);
    assert(crate::text::trim_start(tail) == crate::text::trim_start(value));
}

/// Law: a line `**<key>**: <value>` built from a trimmed, non-empty key
/// without `**:` and a trimmed, non-empty value parses back into exactly
/// that key and value.
#[verifier::spinoff_prover]
#[verifier::rlimit(40)]
pub proof fn lemma_structured_line_round_trip(key: Seq<char>, value: Seq<char>)
    requires
        key.len() > 0,
        trim(key) == key,
        value.len() > 0,
        trim(value) == value,
        forall|j: int| !#[trigger] occurs_at(key, key_close(), j),
    ensures
        structured_parts(bold_open() + key + key_close() + seq![' '] + value) == Some((key, value)),
{
    let tail = seq![' '] + value;
    let line = bold_open() + key + key_close() + tail;
    let rest = key + key_close() + tail;
    let k = key.len() as int;
    assert(bold_open() + key + key_close() + seq![' '] + value =~= line);
    assert(line.take(2) =~= bold_open());
    assert(line.skip(2) =~= rest);
    lemma_close_after_key(key, tail);
    assert(rest.take(k) =~= key);
    assert(rest.skip(k + 3) =~= tail);
    lemma_trim_after_space(value);
}

/// Law: every memory read from a markdown file has a non-empty key and a
/// non-empty, trimmed content, in the file's category.
pub proof fn lemma_markdown_entries_well_formed(
    lines: Seq<Seq<char>>,
    stem: Seq<char>,
    cat: CategoryView,
)
    ensures
        forall|i: int|
            0 <= i < markdown_entries(lines, stem, cat).len() ==> {
                let e = #[trigger] markdown_entries(lines, stem, cat)[i];
                &&& e.key.len() > 0
                &&& e.content.len() > 0
                &&& trim(e.content) == e.content
                &&& e.category == cat
            },
    decreases lines.len(),
{
    if lines.len() > 0 {
        lemma_markdown_entries_well_formed(lines.drop_last(), stem, cat);
        let prev = markdown_entries(lines.drop_last(), stem, cat);
        let all = markdown_entries(lines, stem, cat);
        let idx = (lines.len() - 1) as nat;
        let raw = lines.last();
        if let Some(kv) = line_entry(raw, idx, stem) {
            let t = trim(raw);
            let line = if has_prefix(t, bullet()) {
                t.skip(2)
            } else {
                t
            };
            match structured_parts(line) {
                Some(p) => {
                    lemma_normalized_key_stable(p.0, idx, idx);
                    lemma_trim_idempotent(p.1);
                },
                None => {
                    reveal_strlit("openclaw_");
                    assert(generated_key(stem, idx).len() > 0);
                    lemma_trim_idempotent(line);
                },
            }
            assert forall|i: int| 0 <= i < all.len() implies {
                let e = #[trigger] all[i];
                &&& e.key.len() > 0
                &&& e.content.len() > 0
                &&& trim(e.content) == e.content
                &&& e.category == cat
            } by {
                if i < prev.len() {
                    assert(all[i] == prev[i]);
                }
            }
        }
    }
}

/// Law: a blank line, or a line whose trimmed text starts with `#` (a
/// heading of any level), gives no memory; any other line gives at most
/// one, whose text is non-empty.
pub proof fn lemma_headings_give_no_entry(raw: Seq<char>, idx: nat, stem: Seq<char>)
    ensures
        trim(raw).len() == 0 ==> line_entry(raw, idx, stem) is None,
        trim(raw).len() > 0 && trim(raw)[0] == '#' ==> line_entry(raw, idx, stem) is None,
        line_entry(raw, idx, stem) matches Some(kv) ==> kv.1.len() > 0,
{
}

/// Law: a free-text line (its trimmed text non-empty and starting with
/// neither `#`, `-` nor `*`) gives the memory `openclaw_<stem>_<n>`, `n`
/// the line number counted from 1, holding the trimmed line.
pub proof fn lemma_free_text_line(raw: Seq<char>, idx: nat, stem: Seq<char>)
    requires
        trim(raw).len() > 0,
        trim(raw)[0] != '#',
        trim(raw)[0] != '-',
        trim(raw)[0] != '*',
    ensures
        line_entry(raw, idx, stem) == Some(
            ("openclaw_"@ + stem + "_"@ + decimal(idx + 1), trim(raw)),
        ),
{
    let t = trim(raw);
    reveal_strlit("_");
    assert(!has_prefix(t, bullet())) by {
        if has_prefix(t, bullet()) {
            assert(t.take(2)[0] == '-');
        }
    }
    assert(!has_prefix(t, bold_open())) by {
        if has_prefix(t, bold_open()) {
            assert(t.take(2)[0] == '*');
        }
    }
    lemma_trim_idempotent(raw);
    assert(generated_key(stem, idx) =~= "openclaw_"@ + stem + "_"@ + decimal(idx + 1));
}

/// Law: a bullet line `- <text>`, whose text does not start with `*`,
/// gives the memory `openclaw_<stem>_<n>` holding the trimmed text without
/// the bullet, and none when that text is blank.
pub proof fn lemma_bullet_line(raw: Seq<char>, idx: nat, stem: Seq<char>, text: Seq<char>)
    requires
        trim(raw) == "- "@ + text,
        text.len() == 0 || text[0] != '*',
    ensures
        trim(text).len() > 0 ==> line_entry(raw, idx, stem) == Some(
            ("openclaw_"@ + stem + "_"@ + decimal(idx + 1), trim(text)),
        ),
        trim(text).len() == 0 ==> line_entry(raw, idx, stem) is None,
{
    let t = trim(raw);
    reveal_strlit("- ");
    reveal_strlit("_");
    assert(t[0] == '-');
    assert(t.take(2) =~= bullet());
    assert(t.skip(2) =~= text);
    assert(!has_prefix(text, bold_open())) by {
        if has_prefix(text, bold_open()) {
            assert(text.take(2)[0] == '*');
        }
    }
    assert(generated_key(stem, idx) =~= "openclaw_"@ + stem + "_"@ + decimal(idx + 1));
}

/// Law: a line `**<key>**: <value>`, with a trimmed non-empty key that
/// holds no `**:` and a trimmed non-empty value, gives the memory with
/// exactly that key and value.
pub proof fn lemma_structured_line_entry(
    raw: Seq<char>,
    idx: nat,
    stem: Seq<char>,
    key: Seq<char>,
    value: Seq<char>,
)
    requires
        trim(raw) == "**"@ + key + "**: "@ + value,
        key.len() > 0,
        trim(key) == key,
        value.len() > 0,
        trim(value) == value,
        forall|j: int| !#[trigger] occurs_at(key, "**:"@, j),
    ensures
        line_entry(raw, idx, stem) == Some((key, value)),
{
    let t = trim(raw);
    reveal_strlit("**");
    reveal_strlit("**: ");
    reveal_strlit("**:");
    assert(key_close() =~= "**:"@);
    assert(t =~= bold_open() + key + key_close() + seq![' '] + value);
    assert(t[0] == '*');
    assert(!has_prefix(t, bullet())) by {
        if has_prefix(t, bullet()) {
            assert(t.take(2)[0] == '-');
        }
    }
    lemma_structured_line_round_trip(key, value);
}


} // verus!
