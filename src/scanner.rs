//! The tree walk: which directories are scanned, which are skipped, and the
//! records produced for the files in them.
//!
//! A walk starts at a target directory. A directory holding more than one
//! `.exr` file (render output) contributes nothing, itself or below it. A
//! subdirectory named `render` or `renders` (in any case) is not entered.
//! Every other regular file whose name some include pattern accepts yields
//! one record.

use vstd::prelude::*;
use crate::text::{lower_of, path_join, chars_of, join_path, lower_equals};
use crate::version::name_parts;
use crate::patterns::{PatternSet, accepts_any};
use crate::record::{ProjectFile, FileRecord, record_of, records_view, make_record};
use crate::tree::{DirListing, DirTree, FileEntry};

verus! {

/// What a walk needs besides the tree: the project, its root path, the
/// compiled include patterns and the time stamp given to every record.
pub struct ScanParams {
    pub project_id: i64,
    pub root: Seq<char>,
    pub sources: Seq<Seq<char>>,
    pub created_at: Seq<char>,
}

pub struct ScanContext {
    pub project_id: i64,
    pub root: Vec<char>,
    pub patterns: PatternSet,
    pub created_at: String,
}

impl View for ScanContext {
    type V = ScanParams;

    open spec fn view(&self) -> ScanParams {
        ScanParams {
            project_id: self.project_id,
            root: self.root@,
            sources: self.patterns.view_sources(),
            created_at: self.created_at@,
        }
    }
}

pub open spec fn is_exr(f: FileEntry) -> bool {
    match name_parts(f.name@).1 {
        Some(e) => lower_of(e) == seq!['e', 'x', 'r'],
        None => false,
    }
}

/// Number of `.exr` files (extension compared case-insensitively).
pub open spec fn exr_count(files: Seq<FileEntry>) -> nat
    decreases files.len(),
{
    if files.len() == 0 {
        0
    } else {
        exr_count(files.drop_last()) + if is_exr(files.last()) { 1nat } else { 0nat }
    }
}

/// A directory of rendered frames: more than one `.exr` file directly in it.
pub open spec fn is_render_output(d: DirListing) -> bool {
    exr_count(d.files@) > 1
}

pub open spec fn is_render_name(name: Seq<char>) -> bool {
    lower_of(name) == seq!['r', 'e', 'n', 'd', 'e', 'r']
        || lower_of(name) == seq!['r', 'e', 'n', 'd', 'e', 'r', 's']
}

/// Records of the accepted files among `files`, in order.
pub open spec fn file_records(p: ScanParams, rel: Seq<char>, files: Seq<FileEntry>) -> Seq<FileRecord>
    decreases files.len(),
{
    if files.len() == 0 {
        Seq::empty()
    } else {
        let f = files.last();
        file_records(p, rel, files.drop_last()) + if accepts_any(p.sources, f.name@) {
            seq![record_of(p.project_id, p.root, p.created_at, rel, f)]
        } else {
            Seq::empty()
        }
    }
}

/// The records of a walk from directory `i`, whose path relative to the
/// root is `rel`.
pub open spec fn walk(t: Seq<DirListing>, i: int, rel: Seq<char>, p: ScanParams) -> Seq<FileRecord>
    decreases t.len() - i, 1int, 0int,
{
    if i < 0 || i >= t.len() || is_render_output(t[i]) {
        Seq::empty()
    } else {
        file_records(p, rel, t[i].files@) + walk_children(t, i, t[i].children@.len() as int, rel, p)
    }
}

/// The records of the walks into the first `k` subdirectories of `i`.
pub open spec fn walk_children(t: Seq<DirListing>, i: int, k: int, rel: Seq<char>, p: ScanParams) -> Seq<FileRecord>
    decreases t.len() - i, 0int, k,
{
    if k <= 0 || i < 0 || i >= t.len() || k > t[i].children@.len() {
        Seq::empty()
    } else {
        let c = t[i].children@[k - 1] as int;
        let before = walk_children(t, i, k - 1, rel, p);
        if c <= i || c >= t.len() || is_render_name(t[c].name@) {
            before
        } else {
            before + walk(t, c, path_join(rel, t[c].name@), p)
        }
    }
}

fn is_exr_exec(f: &FileEntry) -> (r: bool)
    ensures
        r == is_exr(*f),
{
    let (_, ext) = crate::version::split_file_name(f.name.as_str());
    match ext {
        Some(e) => {
            proof {
                reveal_strlit("exr");
                assert("exr"@ =~= seq!['e', 'x', 'r']);
            }
            lower_equals(e.as_str(), "exr")
        },
        None => false,
    }
}

/// Whether a directory holds rendered frames (see `is_render_output`); a
/// walk never enters it.
pub fn is_render_output_dir(d: &DirListing) -> (r: bool)
    ensures
        r == is_render_output(*d),
{
    let mut count: usize = 0;
    let mut j: usize = 0;
    while j < d.files.len()
        invariant
            j <= d.files@.len(),
            count == exr_count(d.files@.subrange(0, j as int)),
            count <= j,
        decreases d.files.len() - j,
    {
        proof {
            assert(d.files@.subrange(0, j + 1).drop_last() =~= d.files@.subrange(0, j as int));
        }
        if is_exr_exec(&d.files[j]) {
            count += 1;
        }
        j += 1;
    }
    proof {
        assert(d.files@.subrange(0, d.files@.len() as int) =~= d.files@);
    }
    count > 1
}

/// Whether a directory name is `render` or `renders` in any case; a walk
/// does not enter a subdirectory so named.
pub fn is_render_dir_name(name: &String) -> (r: bool)
    ensures
        r == is_render_name(name@),
{
    proof {
        reveal_strlit("render");
        reveal_strlit("renders");
        assert("render"@ =~= seq!['r', 'e', 'n', 'd', 'e', 'r']);
        assert("renders"@ =~= seq!['r', 'e', 'n', 'd', 'e', 'r', 's']);
    }
    lower_equals(name.as_str(), "render") || lower_equals(name.as_str(), "renders")
}

fn collect_files(ctx: &ScanContext, rel: &Vec<char>, d: &DirListing, out: &mut Vec<ProjectFile>)
    requires
        ctx.patterns.wf(),
    ensures
        records_view(final(out)@) == records_view(old(out)@) + file_records(ctx@, rel@, d.files@),
{
    let ghost start = records_view(out@);
    let mut j: usize = 0;
    while j < d.files.len()
        invariant
            ctx.patterns.wf(),
            j <= d.files@.len(),
            records_view(out@) == start + file_records(ctx@, rel@, d.files@.subrange(0, j as int)),
        decreases d.files.len() - j,
    {
        let ghost before = records_view(out@);
        let f = &d.files[j];
        proof {
            assert(d.files@.subrange(0, j + 1).drop_last() =~= d.files@.subrange(0, j as int));
            assert(d.files@.subrange(0, j + 1).last() == *f);
        }
        if ctx.patterns.matches(f.name.as_str()) {
            let rec = make_record(ctx.project_id, &ctx.root, &ctx.created_at, rel, f);
            out.push(rec);
            assert(records_view(out@) =~= before + seq![rec@]);
        } else {
            assert(records_view(out@) =~= before + Seq::empty());
        }
        j += 1;
    }
    proof {
        assert(d.files@.subrange(0, d.files@.len() as int) =~= d.files@);
    }
}

/// Appends the records of a walk from directory `i` to `out`.
pub(crate) fn walk_dir(t: &DirTree, i: usize, rel: &Vec<char>, ctx: &ScanContext, out: &mut Vec<ProjectFile>)
    requires
        t.wf(),
        i < t.listings().len(),
        ctx.patterns.wf(),
    ensures
        records_view(final(out)@) == records_view(old(out)@) + walk(t.listings(), i as int, rel@, ctx@),
    decreases t.listings().len() - i,
{
    let d = &t.dir(i);
    if is_render_output_dir(d) {
        assert(records_view(out@) =~= records_view(out@) + Seq::empty());
        return;
    }
    let ghost start = records_view(out@);
    collect_files(ctx, rel, d, out);
    let ghost mid = records_view(out@);
    let mut k: usize = 0;
    while k < d.children.len()
        invariant
            t.wf(),
            i < t.listings().len(),
            *d == t.listings()[i as int],
            ctx.patterns.wf(),
            k <= d.children@.len(),
            records_view(out@) == mid + walk_children(t.listings(), i as int, k as int, rel@, ctx@),
        decreases d.children.len() - k,
    {
        let c = d.children[k];
        let ghost before = records_view(out@);
        assert(i < c < t.listings().len());
        let child = &t.dir(c);
        if !is_render_dir_name(&child.name) {
            let name_chars = chars_of(child.name.as_str());
            let sub = join_path(rel, &name_chars);
            walk_dir(t, c, &sub, ctx, out);
            assert(records_view(out@) =~= mid + walk_children(t.listings(), i as int, k + 1, rel@, ctx@));
        }
        k += 1;
    }
    assert(records_view(out@) =~= start + walk(t.listings(), i as int, rel@, ctx@));
}

} // verus!
