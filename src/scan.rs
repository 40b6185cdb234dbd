//! The scan entry points: targets are discovered, each is walked, and when
//! the tree has no target the whole root is walked instead (a slower path,
//! but files are never missed because the expected folders are absent).

use vstd::prelude::*;
use crate::text::{chars_of, string_of, path_join};
use crate::patterns::{compile_patterns, compiled_sources, strings_view, accepts_any};
use crate::record::{ProjectFile, FileRecord, records_view, record_of};
use crate::scanner::{ScanParams, ScanContext, walk, walk_children, file_records, walk_dir, is_render_output, is_render_name};
use crate::distinct::{rel_distinct, lemma_scan_paths_distinct};
use crate::store::{replaced, rows_of, stamped, owned_by, lemma_replace_is_total};
use crate::targets::{Target, targets, outer_targets, root_targets, shot_targets, sub_targets, is_root_target, is_shot_folder, is_shot_subtarget, targets_view, effective_dirs, default_scan_dirs, find_targets, find_outer_targets};
use crate::tree::{DirListing, DirTree, FileEntry, tree_wf, valid_name};

verus! {

/// The records of the walks from each target, in order.
pub open spec fn walk_targets(t: Seq<DirListing>, ts: Seq<Target>, p: ScanParams) -> Seq<FileRecord>
    decreases ts.len(),
{
    if ts.len() == 0 {
        Seq::empty()
    } else {
        walk_targets(t, ts.drop_last(), p) + walk(t, ts.last().0, ts.last().1, p)
    }
}

/// The records of a scan of tree `t` with target names `scan_dirs`.
pub open spec fn scan_records(t: Seq<DirListing>, scan_dirs: Seq<Seq<char>>, p: ScanParams) -> Seq<FileRecord> {
    if targets(t, effective_dirs(scan_dirs)).len() == 0 {
        walk(t, 0, Seq::empty(), p)
    } else {
        walk_targets(t, outer_targets(t, effective_dirs(scan_dirs)), p)
    }
}

pub open spec fn scan_params(
    project_id: i64,
    root: Seq<char>,
    include_patterns: Seq<Seq<char>>,
    created_at: Seq<char>,
) -> ScanParams {
    ScanParams { project_id, root, sources: compiled_sources(include_patterns), created_at }
}

/// Why a scan could not run.
#[derive(PartialEq, Eq, Debug)]
pub enum ScanError {
    /// The project root does not exist or is not a directory.
    InvalidRoot,
}

fn default_dirs() -> (r: Vec<String>)
    ensures
        strings_view(r@) == default_scan_dirs(),
{
    let r = vec![
        string_of(&vec!['p', 'r', 'o', 'j', 'e', 'c', 't']),
        string_of(&vec!['p', 'r', 'o', 'j', 'e', 'c', 't', 's']),
        string_of(&vec!['c', 'o', 'm', 'p']),
        string_of(&vec!['a', 'n', 'i', 'm', 'a', 't', 'i', 'o', 'n']),
        string_of(&vec!['a', 'n', 'i', 'm']),
        string_of(&vec!['0', '5', '_', 'c', 'o', 'm', 'p']),
        string_of(&vec!['0', '4', '_', 'a', 'n', 'i', 'm', 'a', 't', 'i', 'o', 'n']),
    ];
    assert(strings_view(r@) =~= default_scan_dirs());
    r
}

/// Scans a snapshot of a project tree: `created_at` is stamped on every
/// record, `include_patterns` are globs (see `patterns`), `scan_dirs` the
/// target names.
pub fn scan_snapshot(
    project_id: i64,
    project_path: &str,
    tree: &DirTree,
    include_patterns: &Vec<String>,
    scan_dirs: &Vec<String>,
    created_at: &str,
) -> (r: Vec<ProjectFile>)
    requires
        tree.wf(),
    ensures
        records_view(r@) == scan_records(
            tree.listings(),
            strings_view(scan_dirs@),
            scan_params(project_id, project_path@, strings_view(include_patterns@), created_at@),
        ),
        paths_proper(records_view(r@)),
        rel_distinct(records_view(r@)),
{
    proof {
        lemma_scan_paths_distinct(
            tree.listings(),
            strings_view(scan_dirs@),
            scan_params(project_id, project_path@, strings_view(include_patterns@), created_at@),
        );
        lemma_scan_paths_proper(
            tree.listings(),
            strings_view(scan_dirs@),
            scan_params(project_id, project_path@, strings_view(include_patterns@), created_at@),
        );
    }
    let patterns = compile_patterns(include_patterns);
    let ctx = ScanContext {
        project_id,
        root: chars_of(project_path),
        patterns,
        created_at: string_of(&chars_of(created_at)),
    };
    let ghost p = scan_params(project_id, project_path@, strings_view(include_patterns@), created_at@);
    assert(ctx@ == p);
    let (all, found) = if scan_dirs.len() == 0 {
        let d = default_dirs();
        (find_targets(tree, &d), find_outer_targets(tree, &d))
    } else {
        (find_targets(tree, scan_dirs), find_outer_targets(tree, scan_dirs))
    };
    let ghost ts = outer_targets(tree.listings(), effective_dirs(strings_view(scan_dirs@)));
    assert(targets_view(found@) == ts);
    let mut out: Vec<ProjectFile> = Vec::new();
    if all.len() == 0 {
        assert(targets_view(all@).len() == 0);
        walk_dir(tree, 0, &Vec::new(), &ctx, &mut out);
        assert(records_view(out@) =~= walk(tree.listings(), 0, Seq::empty(), p));
        return out;
    }
    let mut q: usize = 0;
    while q < found.len()
        invariant
            tree.wf(),
            ctx.patterns.wf(),
            ctx@ == p,
            targets_view(found@) == ts,
            forall|j: int| 0 <= j < found@.len() ==> 0 < (#[trigger] found@[j]).dir < tree.listings().len(),
            q <= found@.len(),
            records_view(out@) == walk_targets(tree.listings(), ts.subrange(0, q as int), p),
        decreases found.len() - q,
    {
        let tg = &found[q];
        proof {
            assert(ts.subrange(0, q + 1).drop_last() =~= ts.subrange(0, q as int));
            assert(ts.subrange(0, q + 1).last() == ts[q as int]);
            assert(ts[q as int] == (tg.dir as int, tg.rel@));
        }
        walk_dir(tree, tg.dir, &tg.rel, &ctx, &mut out);
        q += 1;
    }
    assert(ts.subrange(0, ts.len() as int) =~= ts);
    out
}

/// Scans a project. `tree` is the snapshot of the project root, or `None`
/// where the root does not exist or is not a directory; `created_at` (the
/// time of the scan) is stamped on every record.
pub fn scan_project(
    project_id: i64,
    project_path: &str,
    tree: Option<&DirTree>,
    include_patterns: &Vec<String>,
    scan_dirs: &Vec<String>,
    created_at: &str,
) -> (r: Result<Vec<ProjectFile>, ScanError>)
    requires
        tree is Some ==> tree.unwrap().wf(),
    ensures
        tree is None <==> r is Err,
        r is Err ==> r == Err::<Vec<ProjectFile>, ScanError>(ScanError::InvalidRoot),
        r is Ok ==> records_view(r.unwrap()@) == scan_records(
            tree.unwrap().listings(),
            strings_view(scan_dirs@),
            scan_params(project_id, project_path@, strings_view(include_patterns@), created_at@),
        ),
        r is Ok ==> paths_proper(records_view(r.unwrap()@)),
        r is Ok ==> rel_distinct(records_view(r.unwrap()@)),
{
    match tree {
        None => Err(ScanError::InvalidRoot),
        Some(t) => {
            let files = scan_snapshot(project_id, project_path, t, include_patterns, scan_dirs, created_at);
            Ok(files)
        },
    }
}

/// A directory of rendered frames (more than one `.exr` file) yields no
/// record, whatever lies in it or below it.
pub proof fn lemma_render_output_skipped(t: Seq<DirListing>, i: int, rel: Seq<char>, p: ScanParams)
    requires
        0 <= i < t.len(),
        is_render_output(t[i]),
    ensures
        walk(t, i, rel, p) == Seq::<FileRecord>::empty(),
{
}

/// Where no target directory exists, a scan walks the whole root.
pub proof fn lemma_root_fallback(t: Seq<DirListing>, scan_dirs: Seq<Seq<char>>, p: ScanParams)
    requires
        targets(t, effective_dirs(scan_dirs)).len() == 0,
    ensures
        scan_records(t, scan_dirs, p) == walk(t, 0, Seq::empty(), p),
{
}


/// A record without the time stamp of the scan that produced it.
pub open spec fn without_stamp(r: FileRecord) -> FileRecord {
    FileRecord { created_at: Seq::empty(), ..r }
}

pub open spec fn unstamped(s: Seq<FileRecord>) -> Seq<FileRecord> {
    s.map_values(|r: FileRecord| without_stamp(r))
}

/// Two scans of the same project with the same patterns, at different times.
pub open spec fn same_but_time(pa: ScanParams, pb: ScanParams) -> bool {
    &&& pa.project_id == pb.project_id
    &&& pa.root == pb.root
    &&& pa.sources == pb.sources
}

proof fn lemma_unstamped_add(a: Seq<FileRecord>, b: Seq<FileRecord>)
    ensures
        unstamped(a + b) == unstamped(a) + unstamped(b),
{
    assert(unstamped(a + b) =~= unstamped(a) + unstamped(b));
}

proof fn lemma_file_records_unstamped(pa: ScanParams, pb: ScanParams, rel: Seq<char>, files: Seq<FileEntry>)
    requires
        same_but_time(pa, pb),
    ensures
        unstamped(file_records(pa, rel, files)) == unstamped(file_records(pb, rel, files)),
    decreases files.len(),
{
    if files.len() > 0 {
        lemma_file_records_unstamped(pa, pb, rel, files.drop_last());
        let f = files.last();
        let a1 = file_records(pa, rel, files.drop_last());
        let a2 = file_records(pb, rel, files.drop_last());
        let b1 = if accepts_any(pa.sources, f.name@) {
            seq![record_of(pa.project_id, pa.root, pa.created_at, rel, f)]
        } else {
            Seq::empty()
        };
        let b2 = if accepts_any(pb.sources, f.name@) {
            seq![record_of(pb.project_id, pb.root, pb.created_at, rel, f)]
        } else {
            Seq::empty()
        };
        lemma_unstamped_add(a1, b1);
        lemma_unstamped_add(a2, b2);
        assert(unstamped(b1) =~= unstamped(b2));
    }
}

proof fn lemma_walk_unstamped(t: Seq<DirListing>, i: int, rel: Seq<char>, pa: ScanParams, pb: ScanParams)
    requires
        same_but_time(pa, pb),
    ensures
        unstamped(walk(t, i, rel, pa)) == unstamped(walk(t, i, rel, pb)),
    decreases t.len() - i, 1int, 0int,
{
    if i < 0 || i >= t.len() || is_render_output(t[i]) {
    } else {
        let n = t[i].children@.len() as int;
        lemma_file_records_unstamped(pa, pb, rel, t[i].files@);
        lemma_walk_children_unstamped(t, i, n, rel, pa, pb);
        lemma_unstamped_add(file_records(pa, rel, t[i].files@), walk_children(t, i, n, rel, pa));
        lemma_unstamped_add(file_records(pb, rel, t[i].files@), walk_children(t, i, n, rel, pb));
    }
}

proof fn lemma_walk_children_unstamped(
    t: Seq<DirListing>,
    i: int,
    k: int,
    rel: Seq<char>,
    pa: ScanParams,
    pb: ScanParams,
)
    requires
        same_but_time(pa, pb),
    ensures
        unstamped(walk_children(t, i, k, rel, pa)) == unstamped(walk_children(t, i, k, rel, pb)),
    decreases t.len() - i, 0int, k,
{
    if k <= 0 || i < 0 || i >= t.len() || k > t[i].children@.len() {
    } else {
        let c = t[i].children@[k - 1] as int;
        lemma_walk_children_unstamped(t, i, k - 1, rel, pa, pb);
        if c <= i || c >= t.len() || is_render_name(t[c].name@) {
        } else {
            let sub = path_join(rel, t[c].name@);
            lemma_walk_unstamped(t, c, sub, pa, pb);
            lemma_unstamped_add(walk_children(t, i, k - 1, rel, pa), walk(t, c, sub, pa));
            lemma_unstamped_add(walk_children(t, i, k - 1, rel, pb), walk(t, c, sub, pb));
        }
    }
}

proof fn lemma_walk_targets_unstamped(t: Seq<DirListing>, ts: Seq<Target>, pa: ScanParams, pb: ScanParams)
    requires
        same_but_time(pa, pb),
    ensures
        unstamped(walk_targets(t, ts, pa)) == unstamped(walk_targets(t, ts, pb)),
    decreases ts.len(),
{
    if ts.len() > 0 {
        lemma_walk_targets_unstamped(t, ts.drop_last(), pa, pb);
        lemma_walk_unstamped(t, ts.last().0, ts.last().1, pa, pb);
        lemma_unstamped_add(walk_targets(t, ts.drop_last(), pa), walk(t, ts.last().0, ts.last().1, pa));
        lemma_unstamped_add(walk_targets(t, ts.drop_last(), pb), walk(t, ts.last().0, ts.last().1, pb));
    }
}

/// Scanning an unchanged tree twice gives the same records, apart from the
/// time stamp of each scan.
pub proof fn lemma_rescan_same_records(t: Seq<DirListing>, scan_dirs: Seq<Seq<char>>, pa: ScanParams, pb: ScanParams)
    requires
        same_but_time(pa, pb),
    ensures
        unstamped(scan_records(t, scan_dirs, pa)) == unstamped(scan_records(t, scan_dirs, pb)),
{
    lemma_walk_unstamped(t, 0, Seq::empty(), pa, pb);
    lemma_walk_targets_unstamped(t, outer_targets(t, effective_dirs(scan_dirs)), pa, pb);
}

proof fn lemma_unstamped_stamped(s: Seq<FileRecord>, pid: i64)
    ensures
        unstamped(stamped(s, pid)) == stamped(unstamped(s), pid),
    decreases s.len(),
{
    if s.len() > 0 {
        lemma_unstamped_stamped(s.drop_last(), pid);
        assert(unstamped(s).drop_last() =~= unstamped(s.drop_last()));
        assert(unstamped(stamped(s, pid)) =~= unstamped(stamped(s.drop_last(), pid)).push(
            without_stamp(owned_by(s.last(), pid)),
        ));
        assert(without_stamp(owned_by(s.last(), pid)) == owned_by(without_stamp(s.last()), pid));
    }
}

/// Storing the scan of an unchanged tree again leaves the project's stored
/// files as they were, apart from the time stamps of the new scan.
pub proof fn lemma_rescan_keeps_stored_files(
    rows: Seq<FileRecord>,
    t: Seq<DirListing>,
    scan_dirs: Seq<Seq<char>>,
    pa: ScanParams,
    pb: ScanParams,
)
    requires
        same_but_time(pa, pb),
    ensures
        unstamped(rows_of(
            replaced(replaced(rows, pa.project_id, scan_records(t, scan_dirs, pa)), pa.project_id, scan_records(t, scan_dirs, pb)),
            pa.project_id,
        )) == unstamped(rows_of(replaced(rows, pa.project_id, scan_records(t, scan_dirs, pa)), pa.project_id)),
{
    let pid = pa.project_id;
    let s1 = scan_records(t, scan_dirs, pa);
    let s2 = scan_records(t, scan_dirs, pb);
    lemma_replace_is_total(rows, pid, s1);
    lemma_replace_is_total(replaced(rows, pid, s1), pid, s2);
    lemma_rescan_same_records(t, scan_dirs, pa, pb);
    lemma_unstamped_stamped(s1, pid);
    lemma_unstamped_stamped(s2, pid);
}


/// The path made of the components `ns`, joined with `/`.
pub open spec fn joined(ns: Seq<Seq<char>>) -> Seq<char>
    decreases ns.len(),
{
    if ns.len() == 0 {
        Seq::empty()
    } else {
        path_join(joined(ns.drop_last()), ns.last())
    }
}

/// A relative path made of proper components only: none is empty, `.` or
/// `..`, and none holds a separator, so the path stays under the root.
pub open spec fn proper_path(path: Seq<char>) -> bool {
    exists|ns: Seq<Seq<char>>| (forall|k: int| 0 <= k < ns.len() ==> valid_name(#[trigger] ns[k])) && path == joined(ns)
}

/// Every record's relative path and parent folder are proper.
pub open spec fn paths_proper(s: Seq<FileRecord>) -> bool {
    forall|q: int| 0 <= q < s.len() ==> proper_path(#[trigger] s[q].relative_path) && proper_path(s[q].parent_folder)
}

proof fn lemma_proper_extend(path: Seq<char>, n: Seq<char>)
    requires
        proper_path(path),
        valid_name(n),
    ensures
        proper_path(path_join(path, n)),
{
    let ns = choose|ns: Seq<Seq<char>>| (forall|k: int| 0 <= k < ns.len() ==> valid_name(#[trigger] ns[k])) && path == joined(ns);
    let ns2 = ns.push(n);
    assert(ns2.drop_last() =~= ns);
    assert(joined(ns2) == path_join(path, n));
    assert forall|k: int| 0 <= k < ns2.len() implies valid_name(#[trigger] ns2[k]) by {
        if k < ns.len() {
            assert(ns2[k] == ns[k]);
        }
    }
}

proof fn lemma_proper_empty()
    ensures
        proper_path(Seq::empty()),
{
    let ns = Seq::<Seq<char>>::empty();
    assert(joined(ns) == Seq::<char>::empty());
}

proof fn lemma_paths_proper_add(a: Seq<FileRecord>, b: Seq<FileRecord>)
    requires
        paths_proper(a),
        paths_proper(b),
    ensures
        paths_proper(a + b),
{
    let z = a + b;
    assert forall|q: int| 0 <= q < z.len() implies proper_path(#[trigger] z[q].relative_path)
        && proper_path(z[q].parent_folder) by {
        if q < a.len() {
            assert(z[q] == a[q]);
            assert(proper_path(a[q].relative_path) && proper_path(a[q].parent_folder));
        } else {
            let r = q - a.len();
            assert(z[q] == b[r]);
            assert(proper_path(b[r].relative_path) && proper_path(b[r].parent_folder));
        }
    }
}

proof fn lemma_file_records_proper(p: ScanParams, rel: Seq<char>, files: Seq<FileEntry>)
    requires
        proper_path(rel),
        forall|f: int| 0 <= f < files.len() ==> valid_name(#[trigger] files[f].name@),
    ensures
        paths_proper(file_records(p, rel, files)),
    decreases files.len(),
{
    if files.len() > 0 {
        let d = files.drop_last();
        assert forall|f: int| 0 <= f < d.len() implies valid_name(#[trigger] d[f].name@) by {
            assert(d[f] == files[f]);
        }
        lemma_file_records_proper(p, rel, d);
        let f = files.last();
        assert(valid_name(files[files.len() - 1].name@));
        lemma_proper_extend(rel, f.name@);
        let b = if accepts_any(p.sources, f.name@) {
            seq![record_of(p.project_id, p.root, p.created_at, rel, f)]
        } else {
            Seq::empty()
        };
        assert(paths_proper(b));
        lemma_paths_proper_add(file_records(p, rel, d), b);
    }
}

proof fn lemma_walk_proper(t: Seq<DirListing>, i: int, rel: Seq<char>, p: ScanParams)
    requires
        tree_wf(t),
        proper_path(rel),
    ensures
        paths_proper(walk(t, i, rel, p)),
    decreases t.len() - i, 1int, 0int,
{
    if i < 0 || i >= t.len() || is_render_output(t[i]) {
    } else {
        let n = t[i].children@.len() as int;
        assert forall|f: int| 0 <= f < t[i].files@.len() implies valid_name(#[trigger] t[i].files@[f].name@) by {}
        lemma_file_records_proper(p, rel, t[i].files@);
        lemma_walk_children_proper(t, i, n, rel, p);
        lemma_paths_proper_add(file_records(p, rel, t[i].files@), walk_children(t, i, n, rel, p));
    }
}

proof fn lemma_walk_children_proper(t: Seq<DirListing>, i: int, k: int, rel: Seq<char>, p: ScanParams)
    requires
        tree_wf(t),
        proper_path(rel),
    ensures
        paths_proper(walk_children(t, i, k, rel, p)),
    decreases t.len() - i, 0int, k,
{
    if k <= 0 || i < 0 || i >= t.len() || k > t[i].children@.len() {
    } else {
        let c = t[i].children@[k - 1] as int;
        lemma_walk_children_proper(t, i, k - 1, rel, p);
        if c <= i || c >= t.len() || is_render_name(t[c].name@) {
        } else {
            assert(valid_name(t[c].name@));
            let sub = path_join(rel, t[c].name@);
            lemma_proper_extend(rel, t[c].name@);
            lemma_walk_proper(t, c, sub, p);
            lemma_paths_proper_add(walk_children(t, i, k - 1, rel, p), walk(t, c, sub, p));
        }
    }
}

pub open spec fn targets_proper(ts: Seq<Target>) -> bool {
    forall|q: int| 0 <= q < ts.len() ==> proper_path(#[trigger] ts[q].1)
}

proof fn lemma_targets_proper_add(a: Seq<Target>, b: Seq<Target>)
    requires
        targets_proper(a),
        targets_proper(b),
    ensures
        targets_proper(a + b),
{
    assert forall|q: int| 0 <= q < (a + b).len() implies proper_path(#[trigger] (a + b)[q].1) by {
        if q < a.len() {
            assert((a + b)[q] == a[q]);
        } else {
            assert((a + b)[q] == b[q - a.len()]);
        }
    }
}

proof fn lemma_root_targets_proper(t: Seq<DirListing>, names: Seq<Seq<char>>, k: int)
    requires
        tree_wf(t),
    ensures
        targets_proper(root_targets(t, names, k)),
    decreases k,
{
    if k <= 0 || t.len() == 0 || k > t[0].children@.len() {
    } else {
        let c = t[0].children@[k - 1] as int;
        lemma_root_targets_proper(t, names, k - 1);
        if 0 < c < t.len() && is_root_target(names, t[c].name@) {
            lemma_proper_empty();
            assert(valid_name(t[c].name@));
            lemma_proper_extend(Seq::empty(), t[c].name@);
            assert(path_join(Seq::<char>::empty(), t[c].name@) == t[c].name@);
            let b = seq![(c, t[c].name@)];
            assert(targets_proper(b));
            lemma_targets_proper_add(root_targets(t, names, k - 1), b);
        } else {
            assert(root_targets(t, names, k) =~= root_targets(t, names, k - 1) + Seq::empty());
        }
    }
}

proof fn lemma_sub_targets_proper(t: Seq<DirListing>, names: Seq<Seq<char>>, c: int, m: int)
    requires
        tree_wf(t),
        0 < c < t.len(),
    ensures
        targets_proper(sub_targets(t, names, c, m)),
    decreases m,
{
    if m <= 0 || m > t[c].children@.len() {
    } else {
        let g = t[c].children@[m - 1] as int;
        lemma_sub_targets_proper(t, names, c, m - 1);
        if c < g < t.len() && is_shot_subtarget(names, t[g].name@) {
            lemma_proper_empty();
            assert(valid_name(t[c].name@));
            assert(valid_name(t[g].name@));
            lemma_proper_extend(Seq::empty(), t[c].name@);
            assert(path_join(Seq::<char>::empty(), t[c].name@) == t[c].name@);
            lemma_proper_extend(t[c].name@, t[g].name@);
            let b = seq![(g, path_join(t[c].name@, t[g].name@))];
            assert(targets_proper(b));
            lemma_targets_proper_add(sub_targets(t, names, c, m - 1), b);
        } else {
            assert(sub_targets(t, names, c, m) =~= sub_targets(t, names, c, m - 1) + Seq::empty());
        }
    }
}

proof fn lemma_shot_targets_proper(t: Seq<DirListing>, names: Seq<Seq<char>>, k: int, nested: bool)
    requires
        tree_wf(t),
    ensures
        targets_proper(shot_targets(t, names, k, nested)),
    decreases k,
{
    if k <= 0 || t.len() == 0 || k > t[0].children@.len() {
    } else {
        let c = t[0].children@[k - 1] as int;
        lemma_shot_targets_proper(t, names, k - 1, nested);
        if 0 < c < t.len() && is_shot_folder(t[c].name@) && (nested || !is_root_target(names, t[c].name@)) {
            lemma_sub_targets_proper(t, names, c, t[c].children@.len() as int);
            lemma_targets_proper_add(shot_targets(t, names, k - 1, nested), sub_targets(t, names, c, t[c].children@.len() as int));
        } else {
            assert(shot_targets(t, names, k, nested) =~= shot_targets(t, names, k - 1, nested) + Seq::empty());
        }
    }
}

proof fn lemma_walk_targets_proper(t: Seq<DirListing>, ts: Seq<Target>, p: ScanParams)
    requires
        tree_wf(t),
        targets_proper(ts),
    ensures
        paths_proper(walk_targets(t, ts, p)),
    decreases ts.len(),
{
    if ts.len() > 0 {
        let d = ts.drop_last();
        assert forall|q: int| 0 <= q < d.len() implies proper_path(#[trigger] d[q].1) by {
            assert(d[q] == ts[q]);
        }
        lemma_walk_targets_proper(t, d, p);
        assert(proper_path(ts[ts.len() - 1].1));
        lemma_walk_proper(t, ts.last().0, ts.last().1, p);
        lemma_paths_proper_add(walk_targets(t, d, p), walk(t, ts.last().0, ts.last().1, p));
    }
}

/// The records of a scan lie under the project root: their relative paths
/// and parent folders are made of proper components, never `..`.
pub proof fn lemma_scan_paths_proper(t: Seq<DirListing>, scan_dirs: Seq<Seq<char>>, p: ScanParams)
    requires
        tree_wf(t),
    ensures
        paths_proper(scan_records(t, scan_dirs, p)),
{
    let names = effective_dirs(scan_dirs);
    let n = t[0].children@.len() as int;
    lemma_proper_empty();
    lemma_walk_proper(t, 0, Seq::empty(), p);
    lemma_root_targets_proper(t, names, n);
    lemma_shot_targets_proper(t, names, n, false);
    lemma_targets_proper_add(root_targets(t, names, n), shot_targets(t, names, n, false));
    lemma_walk_targets_proper(t, outer_targets(t, names), p);
}

} // verus!
