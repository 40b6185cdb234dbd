//! Records of the collaborators the scanner works with: projects, the scan
//! settings, and project templates.

use vstd::prelude::*;
use crate::text::{chars_of, string_of};

verus! {

/// A project known to the launcher, with the root directory that scans walk.
pub struct Project {
    pub id: i64,
    pub name: String,
    pub client: Option<String>,
    pub path: String,
    pub created_at: String,
    pub updated_at: String,
    pub is_favorite: Option<bool>,
    pub last_accessed: Option<String>,
}

/// The application settings; a watcher's rescan takes its include patterns
/// from here.
pub struct AppSettings {
    pub nuke_executable_path: Option<String>,
    pub ae_executable_path: Option<String>,
    pub default_scan_subdirs: Vec<String>,
    pub default_include_patterns: Vec<String>,
    pub default_exclude_patterns: Vec<String>,
}

/// A folder layout for new projects; entries holding `{` are placeholders
/// and are not created.
pub struct ProjectTemplate {
    pub name: String,
    pub description: Option<String>,
    pub structure: Vec<String>,
}


/// What `str::trim` returns: the text without leading and trailing white
/// space; the result depends on the characters alone.
pub uninterp spec fn trimmed_of(s: Seq<char>) -> Seq<char>;

/// Relies on `str::trim` (std) to clean one item of a stored list.
#[verifier::external_body]
fn trim_text(s: &str) -> (r: String)
    ensures
        r@ == trimmed_of(s@),
{
    s.trim().to_string()
}

/// The comma-separated fields of `s` from position `i` on, `cur` being the
/// field being read.
pub open spec fn comma_fields_from(s: Seq<char>, i: int, cur: Seq<char>) -> Seq<Seq<char>>
    decreases s.len() - i,
{
    if i >= s.len() {
        seq![cur]
    } else if s[i] == ',' {
        seq![cur] + comma_fields_from(s, i + 1, Seq::empty())
    } else {
        comma_fields_from(s, i + 1, cur.push(s[i]))
    }
}

/// The items of a stored list: the text split at each comma, each item
/// trimmed. An empty text is one empty item.
pub open spec fn setting_items(s: Seq<char>) -> Seq<Seq<char>> {
    comma_fields_from(s, 0, Seq::empty()).map_values(|f: Seq<char>| trimmed_of(f))
}

/// The items of a list stored as one comma-separated text (see `setting_items`).
pub fn split_setting_list(s: &str) -> (r: Vec<String>)
    ensures
        r@.map_values(|x: String| x@) == setting_items(s@),
{
    let cs = chars_of(s);
    let mut out: Vec<String> = Vec::new();
    let mut cur: Vec<char> = Vec::new();
    let mut i: usize = 0;
    while i < cs.len()
        invariant
            cs@ == s@,
            i <= cs@.len(),
            out@.map_values(|x: String| x@) + comma_fields_from(s@, i as int, cur@).map_values(
                |f: Seq<char>| trimmed_of(f),
            ) == setting_items(s@),
        decreases cs.len() - i,
    {
        let ghost before = out@.map_values(|x: String| x@);
        let ghost old_cur = cur@;
        if cs[i] == ',' {
            let field = string_of(&cur);
            let item = trim_text(field.as_str());
            out.push(item);
            cur = Vec::new();
            proof {
                let rest = comma_fields_from(s@, i + 1, Seq::empty());
                assert(comma_fields_from(s@, i as int, old_cur) == seq![old_cur] + rest);
                assert((seq![old_cur] + rest).map_values(|f: Seq<char>| trimmed_of(f))
                    =~= seq![trimmed_of(old_cur)] + rest.map_values(|f: Seq<char>| trimmed_of(f)));
                assert(out@.map_values(|x: String| x@) =~= before + seq![trimmed_of(old_cur)]);
                assert(cur@ =~= Seq::<char>::empty());
            }
        } else {
            cur.push(cs[i]);
        }
        i += 1;
    }
    let ghost before = out@.map_values(|x: String| x@);
    let ghost last = cur@;
    let field = string_of(&cur);
    out.push(trim_text(field.as_str()));
    proof {
        assert(seq![last].map_values(|f: Seq<char>| trimmed_of(f)) =~= seq![trimmed_of(last)]);
        assert(out@.map_values(|x: String| x@) =~= before + seq![trimmed_of(last)]);
    }
    out
}

} // verus!
