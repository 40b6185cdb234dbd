//! The record a scan produces for each matching file.

use vstd::prelude::*;
use crate::text::{lower_of, path_join, to_lower, chars_of, string_of, join_path};
use crate::version::{name_parts, version_parts, split_file_name, parse_version};
use crate::shot::{shot_name_of, opt_view, extract_shot_name};
use crate::tree::FileEntry;

verus! {

/// A file found by a scan. `filename` is the stem without its version token,
/// `relative_path` is `parent_folder/name` under the project root (joined
/// with `/`), and `id` is 0 until a store assigns one.
pub struct ProjectFile {
    pub id: i64,
    pub project_id: i64,
    pub filename: String,
    pub version: String,
    pub file_type: String,
    pub path: String,
    pub relative_path: String,
    pub parent_folder: String,
    pub shot_name: Option<String>,
    pub last_modified: String,
    pub created_at: String,
}

/// The value of a `ProjectFile`.
pub struct FileRecord {
    pub id: i64,
    pub project_id: i64,
    pub filename: Seq<char>,
    pub version: Seq<char>,
    pub file_type: Seq<char>,
    pub path: Seq<char>,
    pub relative_path: Seq<char>,
    pub parent_folder: Seq<char>,
    pub shot_name: Option<Seq<char>>,
    pub last_modified: Seq<char>,
    pub created_at: Seq<char>,
}

impl View for ProjectFile {
    type V = FileRecord;

    open spec fn view(&self) -> FileRecord {
        FileRecord {
            id: self.id,
            project_id: self.project_id,
            filename: self.filename@,
            version: self.version@,
            file_type: self.file_type@,
            path: self.path@,
            relative_path: self.relative_path@,
            parent_folder: self.parent_folder@,
            shot_name: opt_view(self.shot_name),
            last_modified: self.last_modified@,
            created_at: self.created_at@,
        }
    }
}

pub open spec fn records_view(s: Seq<ProjectFile>) -> Seq<FileRecord> {
    s.map_values(|f: ProjectFile| f@)
}

/// What chrono prints for a Unix timestamp in UTC without a zone suffix
/// (`NaiveDateTime`'s `Display`), or `None` where chrono cannot represent it.
pub uninterp spec fn utc_timestamp_text(secs: i64) -> Option<Seq<char>>;

/// Relies on `chrono::DateTime::from_timestamp` and the `Display` of
/// `NaiveDateTime` to print a modification time.
#[verifier::external_body]
fn timestamp_text(secs: i64) -> (r: Option<String>)
    ensures
        opt_view(r) == utc_timestamp_text(secs),
{
    chrono::DateTime::from_timestamp(secs, 0).map(|d| d.naive_utc().to_string())
}

/// The text of the Unix epoch, used where a timestamp cannot be represented.
pub open spec fn epoch_text() -> Seq<char> {
    seq!['1', '9', '7', '0', '-', '0', '1', '-', '0', '1', ' ', '0', '0', ':', '0', '0', ':', '0', '0']
}

pub open spec fn modified_text(secs: i64) -> Seq<char> {
    match utc_timestamp_text(secs) {
        Some(t) => t,
        None => epoch_text(),
    }
}

pub open spec fn unknown_type() -> Seq<char> {
    seq!['u', 'n', 'k', 'n', 'o', 'w', 'n']
}

/// The lowered extension of a file name, or `unknown`.
pub open spec fn file_type_of(name: Seq<char>) -> Seq<char> {
    match name_parts(name).1 {
        Some(e) => lower_of(e),
        None => unknown_type(),
    }
}

/// The record for file `f` in folder `rel_dir` (relative to the root `root`).
pub open spec fn record_of(
    project_id: i64,
    root: Seq<char>,
    created_at: Seq<char>,
    rel_dir: Seq<char>,
    f: FileEntry,
) -> FileRecord {
    let name = f.name@;
    let parts = version_parts(name_parts(name).0);
    let rel = path_join(rel_dir, name);
    FileRecord {
        id: 0,
        project_id,
        filename: parts.0,
        version: parts.1,
        file_type: file_type_of(name),
        path: path_join(root, rel),
        relative_path: rel,
        parent_folder: rel_dir,
        shot_name: shot_name_of(rel_dir),
        last_modified: modified_text(f.modified_secs),
        created_at,
    }
}

fn modified_string(secs: i64) -> (r: String)
    ensures
        r@ == modified_text(secs),
{
    match timestamp_text(secs) {
        Some(t) => t,
        None => {
            let e = vec!['1', '9', '7', '0', '-', '0', '1', '-', '0', '1', ' ', '0', '0', ':', '0', '0', ':', '0', '0'];
            string_of(&e)
        },
    }
}

/// The record of one file (see `record_of`).
pub fn make_record(
    project_id: i64,
    root: &Vec<char>,
    created_at: &String,
    rel_dir: &Vec<char>,
    f: &FileEntry,
) -> (r: ProjectFile)
    ensures
        r@ == record_of(project_id, root@, created_at@, rel_dir@, *f),
{
    let (stem, ext) = split_file_name(f.name.as_str());
    let (filename, version) = parse_version(stem.as_str());
    let file_type = match ext {
        Some(e) => to_lower(e.as_str()),
        None => string_of(&vec!['u', 'n', 'k', 'n', 'o', 'w', 'n']),
    };
    let name_chars = chars_of(f.name.as_str());
    let rel = join_path(rel_dir, &name_chars);
    let full = join_path(root, &rel);
    let parent = string_of(rel_dir);
    let shot_name = extract_shot_name(parent.as_str());
    ProjectFile {
        id: 0,
        project_id,
        filename,
        version,
        file_type,
        path: string_of(&full),
        relative_path: string_of(&rel),
        parent_folder: parent,
        shot_name,
        last_modified: modified_string(f.modified_secs),
        created_at: created_at.clone(),
    }
}

} // verus!
