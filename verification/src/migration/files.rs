//! File names met while importing and backing up a workspace: which files
//! are markdown notes, the stem that names a daily note, and the name of a
//! backup directory.
use vstd::prelude::*;

use crate::text::{after_last, chars_of, contains_char, lemma_after_last, string_of_range, chars_eq};

verus! {

/// The extension of a file name (`Path::extension`): the text after the
/// last `.`, unless there is no `.` or the only one starts the name.
pub open spec fn file_extension(name: Seq<char>) -> Option<Seq<char>> {
    if !contains_char(name, '.') {
        None
    } else {
        let ext = after_last(name, '.');
        if name.len() - ext.len() - 1 == 0 {
            None
        } else {
            Some(ext)
        }
    }
}

/// The stem of a file name (`Path::file_stem`): the name without its
/// extension and the `.` before it; the whole name when it has none.
pub open spec fn file_stem(name: Seq<char>) -> Seq<char> {
    match file_extension(name) {
        Some(ext) => name.take(name.len() - ext.len() - 1),
        None => name,
    }
}

/// Index just after the last `.` of `v`, or 0 when there is none.
fn after_last_dot(v: &[char]) -> (j: usize)
    ensures
        j <= v@.len(),
        after_last(v@, '.') == v@.skip(j as int),
        contains_char(v@, '.') <==> j > 0,
        j > 0 ==> v@[j - 1] == '.',
{
    let mut j = v.len();
    while j > 0 && v[j - 1] != '.'
        invariant
            j <= v@.len(),
            forall|k: int| j <= k < v@.len() ==> v@[k] != '.',
        decreases j,
    {
        j = j - 1;
    }
    proof {
        lemma_after_last(v@, '.', j as int);
        if j == 0 {
            assert(!contains_char(v@, '.'));
        }
    }
    j
}

/// Whether a directory entry named `name` is a markdown note: its
/// extension is `md`.
pub fn is_markdown_file(name: &str) -> (r: bool)
    ensures
        r == (file_extension(name@) == Some("md"@)),
{
    let v = chars_of(name);
    let j = after_last_dot(v.as_slice());
    if j <= 1 {
        return false;
    }
    let ext = chars_of(&string_of_range(v.as_slice(), j, v.len()));
    let md = chars_of("md");
    chars_eq(ext.as_slice(), md.as_slice())
}

/// The stem naming the memories of daily note `name`; `openclaw_daily` for
/// a name that is not valid Unicode (`None`) or empty.
pub fn markdown_stem(name: Option<&str>) -> (r: String)
    ensures
        name matches Some(n) ==> (n@.len() > 0 ==> r@ == file_stem(n@)),
        name matches Some(n) ==> (n@.len() == 0 ==> r@ == "openclaw_daily"@),
        name is None ==> r@ == "openclaw_daily"@,
{
    match name {
        Some(n) => {
            let v = chars_of(n);
            if v.len() == 0 {
                return String::from_str("openclaw_daily");
            }
            let j = after_last_dot(v.as_slice());
            if j <= 1 {
                assert(v@.take(v@.len() as int) == v@);
                string_of_range(v.as_slice(), 0, v.len())
            } else {
                string_of_range(v.as_slice(), 0, j - 1)
            }
        },
        None => String::from_str("openclaw_daily"),
    }
}

/// The name of the directory a backup goes to: `openclaw-<timestamp>`.
pub fn backup_dir_name(timestamp: &str) -> (r: String)
    ensures
        r@ == "openclaw-"@ + timestamp@,
{
    let mut r = String::from_str("openclaw-");
    r.append(timestamp);
    r
}

} // verus!
