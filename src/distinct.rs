//! One record per file: a scan never lists a relative path twice.
//!
//! Every record of a walk from a directory lies under that directory's path;
//! entries of one directory have distinct names without separators, so the
//! records of different entries, and of different outer targets, differ.

use vstd::prelude::*;
use crate::text::path_join;
use crate::record::FileRecord;
use crate::scanner::{ScanParams, walk, walk_children, file_records, is_render_output, is_render_name};
use crate::patterns::accepts_any;
use crate::record::record_of;
use crate::tree::{DirListing, FileEntry, tree_wf, valid_name, entries_distinct};
use crate::targets::{Target, is_root_target, dirs_distinct, root_targets, shot_targets, sub_targets, is_shot_folder, is_shot_subtarget, outer_targets, effective_dirs, lemma_targets_distinct};
use crate::scan::{walk_targets, scan_records};

verus! {

/// The text every path below `rel` starts with.
pub open spec fn dir_prefix(rel: Seq<char>) -> Seq<char> {
    if rel.len() == 0 {
        Seq::empty()
    } else if rel.last() == '/' {
        rel
    } else {
        rel.push('/')
    }
}

pub open spec fn starts(p: Seq<char>, q: Seq<char>) -> bool {
    q.len() <= p.len() && p.subrange(0, q.len() as int) == q
}

/// No relative path occurs twice.
pub open spec fn rel_distinct(s: Seq<FileRecord>) -> bool {
    forall|a: int, b: int| 0 <= a < s.len() && 0 <= b < s.len() && a != b
        ==> (#[trigger] s[a]).relative_path != (#[trigger] s[b]).relative_path
}

pub open spec fn all_start(s: Seq<FileRecord>, q: Seq<char>) -> bool {
    forall|k: int| 0 <= k < s.len() ==> starts(#[trigger] s[k].relative_path, q)
}

proof fn lemma_join_prefix(rel: Seq<char>, n: Seq<char>)
    ensures
        path_join(rel, n) == dir_prefix(rel) + n,
{
    if rel.len() > 0 && rel.last() != '/' {
        assert(rel + seq!['/'] + n =~= rel.push('/') + n);
    }
    if rel.len() == 0 {
        assert(Seq::<char>::empty() + n =~= n);
    }
}

proof fn lemma_prefix_of_join(rel: Seq<char>, n: Seq<char>)
    requires
        valid_name(n),
    ensures
        dir_prefix(path_join(rel, n)) == dir_prefix(rel) + n + seq!['/'],
{
    lemma_join_prefix(rel, n);
    let j = dir_prefix(rel) + n;
    assert(j.last() == n.last());
    assert(n[n.len() - 1] != '/');
    assert(j.push('/') =~= dir_prefix(rel) + n + seq!['/']);
}

/// Paths starting with `q n1 /` and `q n2 /` differ where the names differ.
proof fn lemma_names_separate(path_a: Seq<char>, path_b: Seq<char>, q: Seq<char>, n1: Seq<char>, n2: Seq<char>)
    requires
        valid_name(n1),
        valid_name(n2),
        n1 != n2,
        starts(path_a, q + n1 + seq!['/']),
        starts(path_b, q + n2 + seq!['/']),
    ensures
        path_a != path_b,
{
    if path_a == path_b {
        let a = q + n1 + seq!['/'];
        let b = q + n2 + seq!['/'];
        let l = q.len() as int;
        if n1.len() < n2.len() {
            let j = l + n1.len();
            assert(path_a.subrange(0, a.len() as int)[j] == a[j]);
            assert(path_b.subrange(0, b.len() as int)[j] == b[j]);
            assert(b[j] == n2[n1.len() as int]);
        } else if n2.len() < n1.len() {
            let j = l + n2.len();
            assert(path_a.subrange(0, a.len() as int)[j] == a[j]);
            assert(path_b.subrange(0, b.len() as int)[j] == b[j]);
            assert(a[j] == n1[n2.len() as int]);
        } else {
            assert forall|j: int| 0 <= j < n1.len() implies n1[j] == n2[j] by {
                assert(path_a.subrange(0, a.len() as int)[l + j] == a[l + j]);
                assert(path_b.subrange(0, b.len() as int)[l + j] == b[l + j]);
            }
            assert(n1 =~= n2);
        }
    }
}

/// `q f` differs from a path starting with `q n /` where `f` has no separator.
proof fn lemma_file_not_below(path_b: Seq<char>, q: Seq<char>, f: Seq<char>, n: Seq<char>)
    requires
        valid_name(f),
        valid_name(n),
        starts(path_b, q + n + seq!['/']),
    ensures
        q + f != path_b,
{
    if q + f == path_b {
        let b = q + n + seq!['/'];
        let j = (q.len() + n.len()) as int;
        assert(path_b.subrange(0, b.len() as int)[j] == b[j]);
        assert((q + f)[j] == f[n.len() as int]);
    }
}

proof fn lemma_starts_trans(p: Seq<char>, q: Seq<char>, r: Seq<char>)
    requires
        starts(p, q + r),
    ensures
        starts(p, q),
{
    let w = (q + r).len() as int;
    assert(p.subrange(0, w) == q + r);
    assert(p.subrange(0, q.len() as int) =~= p.subrange(0, w).subrange(0, q.len() as int));
    assert((q + r).subrange(0, q.len() as int) =~= q);
}

/// Records of the accepted files among `files`: each path is `dir_prefix(rel) f`
/// for a file name `f` of the list, and no path occurs twice.
proof fn lemma_file_records_distinct(p: ScanParams, rel: Seq<char>, files: Seq<FileEntry>)
    requires
        forall|f: int| 0 <= f < files.len() ==> valid_name(#[trigger] files[f].name@),
        forall|a: int, b: int| 0 <= a < files.len() && 0 <= b < files.len() && a != b
            ==> (#[trigger] files[a]).name@ != (#[trigger] files[b]).name@,
    ensures
        rel_distinct(file_records(p, rel, files)),
        forall|k: int| 0 <= k < file_records(p, rel, files).len() ==> exists|j: int| 0 <= j < files.len()
            && (#[trigger] file_records(p, rel, files)[k]).relative_path == dir_prefix(rel) + (#[trigger] files[j]).name@,
    decreases files.len(),
{
    let s = file_records(p, rel, files);
    if files.len() > 0 {
        let d = files.drop_last();
        assert forall|f: int| 0 <= f < d.len() implies valid_name(#[trigger] d[f].name@) by {
            assert(d[f] == files[f]);
        }
        assert forall|a: int, b: int| 0 <= a < d.len() && 0 <= b < d.len() && a != b
            implies (#[trigger] d[a]).name@ != (#[trigger] d[b]).name@ by {
            assert(d[a] == files[a] && d[b] == files[b]);
        }
        lemma_file_records_distinct(p, rel, d);
        let prev = file_records(p, rel, d);
        let f = files.last();
        if accepts_any(p.sources, f.name@) {
            let rec = record_of(p.project_id, p.root, p.created_at, rel, f);
            assert(s == prev.push(rec));
            lemma_join_prefix(rel, f.name@);
            assert(rec.relative_path == dir_prefix(rel) + f.name@);
            assert forall|k: int| 0 <= k < s.len() implies exists|j: int| 0 <= j < files.len()
                && (#[trigger] s[k]).relative_path == dir_prefix(rel) + (#[trigger] files[j]).name@ by {
                if k < prev.len() {
                    assert(s[k] == prev[k]);
                    let j = choose|j: int| 0 <= j < d.len() && (#[trigger] prev[k]).relative_path == dir_prefix(rel) + (#[trigger] d[j]).name@;
                    assert(d[j] == files[j]);
                } else {
                    assert(s[k] == rec);
                    assert(files[files.len() - 1] == f);
                }
            }
            assert forall|a: int, b: int| 0 <= a < s.len() && 0 <= b < s.len() && a != b
                implies (#[trigger] s[a]).relative_path != (#[trigger] s[b]).relative_path by {
                if a < prev.len() && b < prev.len() {
                    assert(s[a] == prev[a] && s[b] == prev[b]);
                } else if a < prev.len() || b < prev.len() {
                    let k = if a < prev.len() { a } else { b };
                    assert(s[k] == prev[k]);
                    let j = choose|j: int| 0 <= j < d.len() && (#[trigger] prev[k]).relative_path == dir_prefix(rel) + (#[trigger] d[j]).name@;
                    assert(d[j] == files[j]);
                    assert(files[j].name@ != files[files.len() - 1].name@);
                    if prev[k].relative_path == rec.relative_path {
                        assert((dir_prefix(rel) + d[j].name@).subrange(dir_prefix(rel).len() as int, (dir_prefix(rel) + d[j].name@).len() as int) =~= d[j].name@);
                        assert((dir_prefix(rel) + f.name@).subrange(dir_prefix(rel).len() as int, (dir_prefix(rel) + f.name@).len() as int) =~= f.name@);
                    }
                }
            }
        } else {
            assert(s =~= prev);
            assert forall|k: int| 0 <= k < s.len() implies exists|j: int| 0 <= j < files.len()
                && (#[trigger] s[k]).relative_path == dir_prefix(rel) + (#[trigger] files[j]).name@ by {
                let j = choose|j: int| 0 <= j < d.len() && (#[trigger] prev[k]).relative_path == dir_prefix(rel) + (#[trigger] d[j]).name@;
                assert(d[j] == files[j]);
            }
        }
    }
}


proof fn lemma_distinct_concat(x: Seq<FileRecord>, y: Seq<FileRecord>)
    requires
        rel_distinct(x),
        rel_distinct(y),
        forall|a: int, b: int| 0 <= a < x.len() && 0 <= b < y.len() ==> (#[trigger] x[a]).relative_path != (#[trigger] y[b]).relative_path,
    ensures
        rel_distinct(x + y),
{
    let z = x + y;
    assert forall|a: int, b: int| 0 <= a < z.len() && 0 <= b < z.len() && a != b
        implies (#[trigger] z[a]).relative_path != (#[trigger] z[b]).relative_path by {
        if a < x.len() && b < x.len() {
            assert(z[a] == x[a] && z[b] == x[b]);
        } else if a < x.len() {
            assert(z[a] == x[a] && z[b] == y[b - x.len()]);
        } else if b < x.len() {
            assert(z[b] == x[b] && z[a] == y[a - x.len()]);
        } else {
            assert(z[a] == y[a - x.len()] && z[b] == y[b - x.len()]);
        }
    }
}

/// `path` lies below a child among the first `k` of `i` that a walk enters.
spec fn below_child(t: Seq<DirListing>, i: int, k: int, rel: Seq<char>, path: Seq<char>) -> bool {
    exists|m: int| 0 <= m < k && m < t[i].children@.len() && walked_child(t, i, m)
        && starts(path, #[trigger] child_prefix(t, i, m, rel))
}

spec fn child_prefix(t: Seq<DirListing>, i: int, m: int, rel: Seq<char>) -> Seq<char> {
    dir_prefix(rel) + t[t[i].children@[m] as int].name@ + seq!['/']
}

/// Child `a` of directory `i` is entered by a walk.
spec fn walked_child(t: Seq<DirListing>, i: int, a: int) -> bool {
    let c = t[i].children@[a] as int;
    i < c < t.len() && !is_render_name(t[c].name@)
}

proof fn lemma_walk_distinct(t: Seq<DirListing>, i: int, rel: Seq<char>, p: ScanParams)
    requires
        tree_wf(t),
    ensures
        rel_distinct(walk(t, i, rel, p)),
        all_start(walk(t, i, rel, p), dir_prefix(rel)),
    decreases t.len() - i, 1int, 0int,
{
    if i < 0 || i >= t.len() || is_render_output(t[i]) {
    } else {
        let d = t[i];
        let n = d.children@.len() as int;
        let pre = dir_prefix(rel);
        assert(entries_distinct(t, i));
        assert forall|f: int| 0 <= f < d.files@.len() implies valid_name(#[trigger] d.files@[f].name@) by {}
        lemma_file_records_distinct(p, rel, d.files@);
        lemma_walk_children_distinct(t, i, n, rel, p);
        let x = file_records(p, rel, d.files@);
        let y = walk_children(t, i, n, rel, p);
        assert forall|a: int, b: int| 0 <= a < x.len() && 0 <= b < y.len()
            implies (#[trigger] x[a]).relative_path != (#[trigger] y[b]).relative_path by {
            let j = choose|j: int| 0 <= j < d.files@.len() && (#[trigger] x[a]).relative_path == pre + (#[trigger] d.files@[j]).name@;
            assert(below_child(t, i, n, rel, y[b].relative_path));
            let m = choose|m: int| 0 <= m < n && m < t[i].children@.len() && walked_child(t, i, m)
                && starts(y[b].relative_path, #[trigger] child_prefix(t, i, m, rel));
            let c = d.children@[m] as int;
            assert(valid_name(t[c].name@));
            assert(t[c].name@ != d.files@[j].name@);
            lemma_file_not_below(y[b].relative_path, pre, d.files@[j].name@, t[c].name@);
        }
        lemma_distinct_concat(x, y);
        let z = x + y;
        assert forall|k: int| 0 <= k < z.len() implies starts(#[trigger] z[k].relative_path, pre) by {
            if k < x.len() {
                assert(z[k] == x[k]);
                let j = choose|j: int| 0 <= j < d.files@.len() && (#[trigger] x[k]).relative_path == pre + (#[trigger] d.files@[j]).name@;
                assert(starts(x[k].relative_path, pre + d.files@[j].name@)) by {
                    assert(x[k].relative_path.subrange(0, x[k].relative_path.len() as int) =~= x[k].relative_path);
                }
                lemma_starts_trans(x[k].relative_path, pre, d.files@[j].name@);
            } else {
                let b = k - x.len();
                assert(z[k] == y[b]);
                assert(below_child(t, i, n, rel, y[b].relative_path));
                let m = choose|m: int| 0 <= m < n && m < t[i].children@.len() && walked_child(t, i, m)
                    && starts(y[b].relative_path, #[trigger] child_prefix(t, i, m, rel));
                let c = d.children@[m] as int;
                assert(pre + t[c].name@ + seq!['/'] =~= pre + (t[c].name@ + seq!['/']));
                lemma_starts_trans(y[b].relative_path, pre, t[c].name@ + seq!['/']);
            }
        }
    }
}

proof fn lemma_walk_children_distinct(t: Seq<DirListing>, i: int, k: int, rel: Seq<char>, p: ScanParams)
    requires
        tree_wf(t),
    ensures
        rel_distinct(walk_children(t, i, k, rel, p)),
        forall|q: int| 0 <= q < walk_children(t, i, k, rel, p).len()
            ==> below_child(t, i, k, rel, (#[trigger] walk_children(t, i, k, rel, p)[q]).relative_path),
    decreases t.len() - i, 0int, k,
{
    if k <= 0 || i < 0 || i >= t.len() || k > t[i].children@.len() {
        assert(walk_children(t, i, k, rel, p).len() == 0);
    } else {
        let c = t[i].children@[k - 1] as int;
        let pre = dir_prefix(rel);
        lemma_walk_children_distinct(t, i, k - 1, rel, p);
        let prev = walk_children(t, i, k - 1, rel, p);
        let cur = walk_children(t, i, k, rel, p);
        if c <= i || c >= t.len() || is_render_name(t[c].name@) {
            assert(cur == prev);
            assert forall|q: int| 0 <= q < cur.len() implies below_child(t, i, k, rel, (#[trigger] cur[q]).relative_path) by {
                assert(cur[q] == prev[q]);
                assert(below_child(t, i, k - 1, rel, prev[q].relative_path));
                let m = choose|m: int| 0 <= m < k - 1 && m < t[i].children@.len() && walked_child(t, i, m)
                    && starts(prev[q].relative_path, #[trigger] child_prefix(t, i, m, rel));
                assert(starts(cur[q].relative_path, child_prefix(t, i, m, rel)));
            }
        } else {
            let sub = path_join(rel, t[c].name@);
            assert(valid_name(t[c].name@));
            lemma_prefix_of_join(rel, t[c].name@);
            lemma_walk_distinct(t, c, sub, p);
            let y = walk(t, c, sub, p);
            assert(cur == prev + y);
            assert(entries_distinct(t, i));
            assert forall|a: int, b: int| 0 <= a < prev.len() && 0 <= b < y.len()
                implies (#[trigger] prev[a]).relative_path != (#[trigger] y[b]).relative_path by {
                assert(below_child(t, i, k - 1, rel, prev[a].relative_path));
                let m = choose|m: int| 0 <= m < k - 1 && m < t[i].children@.len() && walked_child(t, i, m)
                    && starts(prev[a].relative_path, #[trigger] child_prefix(t, i, m, rel));
                let cm = t[i].children@[m] as int;
                assert(valid_name(t[cm].name@));
                assert(t[cm].name@ != t[c].name@);
                assert(starts(y[b].relative_path, dir_prefix(sub)));
                lemma_names_separate(prev[a].relative_path, y[b].relative_path, pre, t[cm].name@, t[c].name@);
            }
            lemma_distinct_concat(prev, y);
            assert forall|q: int| 0 <= q < cur.len() implies below_child(t, i, k, rel, (#[trigger] cur[q]).relative_path) by {
                if q < prev.len() {
                    assert(cur[q] == prev[q]);
                    assert(below_child(t, i, k - 1, rel, prev[q].relative_path));
                    let m = choose|m: int| 0 <= m < k - 1 && m < t[i].children@.len() && walked_child(t, i, m)
                        && starts(prev[q].relative_path, #[trigger] child_prefix(t, i, m, rel));
                    assert(starts(cur[q].relative_path, child_prefix(t, i, m, rel)));
                } else {
                    assert(cur[q] == y[q - prev.len()]);
                    assert(starts(y[q - prev.len()].relative_path, dir_prefix(sub)));
                    assert(walked_child(t, i, k - 1));
                    assert(starts(cur[q].relative_path, child_prefix(t, i, k - 1, rel)));
                }
            }
        }
    }
}


/// A root target: a child of the root whose name makes it a target.
spec fn root_shape(t: Seq<DirListing>, names: Seq<Seq<char>>, tg: Target) -> bool {
    &&& exists|a: int| 0 <= a < t[0].children@.len() && #[trigger] t[0].children@[a] as int == tg.0
    &&& 0 < tg.0 < t.len()
    &&& is_root_target(names, t[tg.0].name@)
    &&& tg.1 == t[tg.0].name@
}

/// An outer shot target: a child `g` of a shot folder `c` that is not itself
/// a root target.
spec fn shot_shape_in(t: Seq<DirListing>, names: Seq<Seq<char>>, c: int, tg: Target) -> bool {
    &&& 0 < c < t.len()
    &&& !is_root_target(names, t[c].name@)
    &&& exists|b: int| 0 <= b < t[c].children@.len() && #[trigger] t[c].children@[b] as int == tg.0
    &&& c < tg.0 < t.len()
    &&& tg.1 == path_join(t[c].name@, t[tg.0].name@)
}

spec fn shot_shape(t: Seq<DirListing>, names: Seq<Seq<char>>, tg: Target) -> bool {
    exists|a: int| 0 <= a < t[0].children@.len() && shot_shape_in(t, names, #[trigger] t[0].children@[a] as int, tg)
}

spec fn outer_shape(t: Seq<DirListing>, names: Seq<Seq<char>>, tg: Target) -> bool {
    root_shape(t, names, tg) || shot_shape(t, names, tg)
}

proof fn lemma_prefix_of_name(n: Seq<char>)
    requires
        valid_name(n),
    ensures
        dir_prefix(n) == Seq::<char>::empty() + n + seq!['/'],
{
    assert(n[n.len() - 1] != '/');
    assert(n.push('/') =~= Seq::<char>::empty() + n + seq!['/']);
}

proof fn lemma_root_names_equal(t: Seq<DirListing>, c1: int, c2: int)
    requires
        tree_wf(t),
        exists|a: int| 0 <= a < t[0].children@.len() && #[trigger] t[0].children@[a] as int == c1,
        exists|a: int| 0 <= a < t[0].children@.len() && #[trigger] t[0].children@[a] as int == c2,
        t[c1].name@ == t[c2].name@,
    ensures
        c1 == c2,
{
    let a1 = choose|a: int| 0 <= a < t[0].children@.len() && #[trigger] t[0].children@[a] as int == c1;
    let a2 = choose|a: int| 0 <= a < t[0].children@.len() && #[trigger] t[0].children@[a] as int == c2;
    assert(entries_distinct(t, 0));
    if a1 != a2 {
        assert(t[t[0].children@[a1] as int].name@ != t[t[0].children@[a2] as int].name@);
    }
}

/// Paths below two different outer targets differ.
proof fn lemma_targets_separate(
    t: Seq<DirListing>,
    names: Seq<Seq<char>>,
    t1: Target,
    t2: Target,
    path_a: Seq<char>,
    path_b: Seq<char>,
)
    requires
        tree_wf(t),
        outer_shape(t, names, t1),
        outer_shape(t, names, t2),
        t1.0 != t2.0,
        starts(path_a, dir_prefix(t1.1)),
        starts(path_b, dir_prefix(t2.1)),
    ensures
        path_a != path_b,
{
    let e = Seq::<char>::empty();
    // the root child each lies in
    let f1 = first_of(t, names, t1).0;
    let f2 = first_of(t, names, t2).0;
    lemma_first_of(t, names, t1, path_a);
    lemma_first_of(t, names, t2, path_b);
    if f1 != f2 {
        if t[f1].name@ == t[f2].name@ {
            lemma_root_names_equal(t, f1, f2);
        }
        lemma_names_separate(path_a, path_b, e, t[f1].name@, t[f2].name@);
    } else {
        // both below one shot folder `f1`: the second components differ
        assert(shot_shape(t, names, t1) && shot_shape(t, names, t2));
        let q = t[f1].name@ + seq!['/'];
        assert(e + t[f1].name@ + seq!['/'] =~= q);
        lemma_shot_second(t, names, t1, f1, path_a);
        lemma_shot_second(t, names, t2, f1, path_b);
        assert(entries_distinct(t, f1));
        let b1 = choose|b: int| 0 <= b < t[f1].children@.len() && #[trigger] t[f1].children@[b] as int == t1.0;
        let b2 = choose|b: int| 0 <= b < t[f1].children@.len() && #[trigger] t[f1].children@[b] as int == t2.0;
        assert(b1 != b2);
        assert(t[t[f1].children@[b1] as int].name@ != t[t[f1].children@[b2] as int].name@);
        lemma_names_separate(path_a, path_b, q, t[t1.0].name@, t[t2.0].name@);
    }
}

/// The root child a target lies in (the first component of its path).
spec fn first_of(t: Seq<DirListing>, names: Seq<Seq<char>>, tg: Target) -> (int, int) {
    if root_shape(t, names, tg) {
        (tg.0, 0)
    } else {
        let a = choose|a: int| 0 <= a < t[0].children@.len() && shot_shape_in(t, names, #[trigger] t[0].children@[a] as int, tg);
        (t[0].children@[a] as int, 0)
    }
}

proof fn lemma_first_of(t: Seq<DirListing>, names: Seq<Seq<char>>, tg: Target, path: Seq<char>)
    requires
        tree_wf(t),
        outer_shape(t, names, tg),
        starts(path, dir_prefix(tg.1)),
    ensures
        exists|a: int| 0 <= a < t[0].children@.len() && #[trigger] t[0].children@[a] as int == first_of(t, names, tg).0,
        0 < first_of(t, names, tg).0 < t.len(),
        valid_name(t[first_of(t, names, tg).0].name@),
        starts(path, Seq::<char>::empty() + t[first_of(t, names, tg).0].name@ + seq!['/']),
        root_shape(t, names, tg) <==> first_of(t, names, tg).0 == tg.0,
        !root_shape(t, names, tg) ==> shot_shape_in(t, names, first_of(t, names, tg).0, tg),
        root_shape(t, names, tg) ==> is_root_target(names, t[first_of(t, names, tg).0].name@),
        !root_shape(t, names, tg) ==> !is_root_target(names, t[first_of(t, names, tg).0].name@),
{
    let f = first_of(t, names, tg).0;
    if root_shape(t, names, tg) {
        assert(valid_name(t[f].name@));
        lemma_prefix_of_name(t[f].name@);
    } else {
        let a = choose|a: int| 0 <= a < t[0].children@.len() && shot_shape_in(t, names, #[trigger] t[0].children@[a] as int, tg);
        assert(f == t[0].children@[a] as int);
        assert(valid_name(t[f].name@));
        assert(valid_name(t[tg.0].name@));
        lemma_prefix_of_join(t[f].name@, t[tg.0].name@);
        lemma_prefix_of_name(t[f].name@);
        assert(dir_prefix(tg.1) =~= (Seq::<char>::empty() + t[f].name@ + seq!['/']) + (t[tg.0].name@ + seq!['/']));
        lemma_starts_trans(path, Seq::<char>::empty() + t[f].name@ + seq!['/'], t[tg.0].name@ + seq!['/']);
        if f == tg.0 {
            assert(f < tg.0);
        }
    }
}

proof fn lemma_shot_second(t: Seq<DirListing>, names: Seq<Seq<char>>, tg: Target, c: int, path: Seq<char>)
    requires
        tree_wf(t),
        shot_shape_in(t, names, c, tg),
        starts(path, dir_prefix(tg.1)),
    ensures
        starts(path, t[c].name@ + seq!['/'] + t[tg.0].name@ + seq!['/']),
{
    assert(valid_name(t[c].name@));
    assert(valid_name(t[tg.0].name@));
    lemma_prefix_of_join(t[c].name@, t[tg.0].name@);
    lemma_prefix_of_name(t[c].name@);
    assert(dir_prefix(tg.1) =~= t[c].name@ + seq!['/'] + t[tg.0].name@ + seq!['/']);
}


spec fn target_prefix(ts: Seq<Target>, q: int) -> Seq<char> {
    dir_prefix(ts[q].1)
}

spec fn below_target(ts: Seq<Target>, k: int, path: Seq<char>) -> bool {
    exists|q: int| 0 <= q < k && starts(path, #[trigger] target_prefix(ts, q))
}

proof fn lemma_walk_targets_distinct(t: Seq<DirListing>, names: Seq<Seq<char>>, ts: Seq<Target>, p: ScanParams)
    requires
        tree_wf(t),
        forall|q: int| 0 <= q < ts.len() ==> outer_shape(t, names, #[trigger] ts[q]),
        dirs_distinct(ts),
    ensures
        rel_distinct(walk_targets(t, ts, p)),
        forall|k: int| 0 <= k < walk_targets(t, ts, p).len()
            ==> below_target(ts, ts.len() as int, (#[trigger] walk_targets(t, ts, p)[k]).relative_path),
    decreases ts.len(),
{
    if ts.len() > 0 {
        let d = ts.drop_last();
        let n = ts.len() - 1;
        assert forall|q: int| 0 <= q < d.len() implies outer_shape(t, names, #[trigger] d[q]) by {
            assert(d[q] == ts[q]);
        }
        assert(dirs_distinct(d)) by {
            assert forall|a: int, b: int| 0 <= a < d.len() && 0 <= b < d.len() && a != b
                implies (#[trigger] d[a]).0 != (#[trigger] d[b]).0 by {
                assert(d[a] == ts[a] && d[b] == ts[b]);
            }
        }
        lemma_walk_targets_distinct(t, names, d, p);
        let x = walk_targets(t, d, p);
        let last = ts[n];
        assert(ts.last() == last);
        let y = walk(t, last.0, last.1, p);
        lemma_walk_distinct(t, last.0, last.1, p);
        assert(walk_targets(t, ts, p) == x + y);
        assert forall|a: int, b: int| 0 <= a < x.len() && 0 <= b < y.len()
            implies (#[trigger] x[a]).relative_path != (#[trigger] y[b]).relative_path by {
            assert(below_target(d, d.len() as int, x[a].relative_path));
            let q = choose|q: int| 0 <= q < d.len() && starts(x[a].relative_path, #[trigger] target_prefix(d, q));
            assert(d[q] == ts[q]);
            assert(ts[q].0 != ts[n].0);
            assert(outer_shape(t, names, ts[q]));
            assert(outer_shape(t, names, ts[n]));
            assert(starts(y[b].relative_path, dir_prefix(last.1)));
            lemma_targets_separate(t, names, ts[q], ts[n], x[a].relative_path, y[b].relative_path);
        }
        lemma_distinct_concat(x, y);
        let z = x + y;
        assert forall|k: int| 0 <= k < z.len() implies below_target(ts, ts.len() as int, (#[trigger] z[k]).relative_path) by {
            if k < x.len() {
                assert(z[k] == x[k]);
                assert(below_target(d, d.len() as int, x[k].relative_path));
                let q = choose|q: int| 0 <= q < d.len() && starts(x[k].relative_path, #[trigger] target_prefix(d, q));
                assert(d[q] == ts[q]);
                assert(target_prefix(d, q) == target_prefix(ts, q));
            } else {
                assert(z[k] == y[k - x.len()]);
                assert(starts(z[k].relative_path, target_prefix(ts, n)));
            }
        }
    }
}


proof fn lemma_root_targets_shape(t: Seq<DirListing>, names: Seq<Seq<char>>, k: int)
    requires
        tree_wf(t),
    ensures
        forall|q: int| 0 <= q < root_targets(t, names, k).len() ==> outer_shape(t, names, #[trigger] root_targets(t, names, k)[q]),
    decreases k,
{
    if k <= 0 || t.len() == 0 || k > t[0].children@.len() {
    } else {
        let c = t[0].children@[k - 1] as int;
        lemma_root_targets_shape(t, names, k - 1);
        let prev = root_targets(t, names, k - 1);
        let cur = root_targets(t, names, k);
        if 0 < c < t.len() && is_root_target(names, t[c].name@) {
            assert(cur == prev + seq![(c, t[c].name@)]);
            assert forall|q: int| 0 <= q < cur.len() implies outer_shape(t, names, #[trigger] cur[q]) by {
                if q < prev.len() {
                    assert(cur[q] == prev[q]);
                } else {
                    assert(cur[q] == (c, t[c].name@));
                    assert(t[0].children@[k - 1] as int == c);
                    assert(root_shape(t, names, cur[q]));
                }
            }
        } else {
            assert(cur =~= prev);
        }
    }
}

proof fn lemma_sub_targets_shape(t: Seq<DirListing>, names: Seq<Seq<char>>, a: int, m: int)
    requires
        tree_wf(t),
        0 <= a < t[0].children@.len(),
        !is_root_target(names, t[t[0].children@[a] as int].name@),
    ensures
        forall|q: int| 0 <= q < sub_targets(t, names, t[0].children@[a] as int, m).len()
            ==> shot_shape(t, names, #[trigger] sub_targets(t, names, t[0].children@[a] as int, m)[q]),
    decreases m,
{
    let c = t[0].children@[a] as int;
    assert(0 < c < t.len());
    if m <= 0 || m > t[c].children@.len() {
    } else {
        let g = t[c].children@[m - 1] as int;
        lemma_sub_targets_shape(t, names, a, m - 1);
        let prev = sub_targets(t, names, c, m - 1);
        let cur = sub_targets(t, names, c, m);
        if c < g < t.len() && is_shot_subtarget(names, t[g].name@) {
            let tg = (g, path_join(t[c].name@, t[g].name@));
            assert(cur == prev + seq![tg]);
            assert(shot_shape_in(t, names, c, tg)) by {
                assert(t[c].children@[m - 1] as int == g);
            }
            assert forall|q: int| 0 <= q < cur.len() implies shot_shape(t, names, #[trigger] cur[q]) by {
                if q < prev.len() {
                    assert(cur[q] == prev[q]);
                } else {
                    assert(cur[q] == tg);
                    assert(shot_shape_in(t, names, t[0].children@[a] as int, cur[q]));
                }
            }
        } else {
            assert(cur =~= prev);
        }
    }
}

proof fn lemma_shot_targets_shape(t: Seq<DirListing>, names: Seq<Seq<char>>, k: int)
    requires
        tree_wf(t),
    ensures
        forall|q: int| 0 <= q < shot_targets(t, names, k, false).len() ==> outer_shape(t, names, #[trigger] shot_targets(t, names, k, false)[q]),
    decreases k,
{
    if k <= 0 || t.len() == 0 || k > t[0].children@.len() {
    } else {
        let c = t[0].children@[k - 1] as int;
        lemma_shot_targets_shape(t, names, k - 1);
        let prev = shot_targets(t, names, k - 1, false);
        let cur = shot_targets(t, names, k, false);
        if 0 < c < t.len() && is_shot_folder(t[c].name@) && !is_root_target(names, t[c].name@) {
            let n = t[c].children@.len() as int;
            let b = sub_targets(t, names, c, n);
            lemma_sub_targets_shape(t, names, k - 1, n);
            assert(cur == prev + b);
            assert forall|q: int| 0 <= q < cur.len() implies outer_shape(t, names, #[trigger] cur[q]) by {
                if q < prev.len() {
                    assert(cur[q] == prev[q]);
                } else {
                    assert(cur[q] == b[q - prev.len()]);
                }
            }
        } else {
            assert(cur =~= prev);
        }
    }
}

/// A scan lists no relative path twice: one record per file.
pub proof fn lemma_scan_paths_distinct(t: Seq<DirListing>, scan_dirs: Seq<Seq<char>>, p: ScanParams)
    requires
        tree_wf(t),
    ensures
        rel_distinct(scan_records(t, scan_dirs, p)),
{
    let names = effective_dirs(scan_dirs);
    let n = t[0].children@.len() as int;
    lemma_walk_distinct(t, 0, Seq::empty(), p);
    let ts = outer_targets(t, names);
    let x = root_targets(t, names, n);
    let y = shot_targets(t, names, n, false);
    lemma_root_targets_shape(t, names, n);
    lemma_shot_targets_shape(t, names, n);
    assert forall|q: int| 0 <= q < ts.len() implies outer_shape(t, names, #[trigger] ts[q]) by {
        if q < x.len() {
            assert(ts[q] == x[q]);
        } else {
            assert(ts[q] == y[q - x.len()]);
        }
    }
    lemma_targets_distinct(t, names, false);
    lemma_walk_targets_distinct(t, names, ts, p);
}

} // verus!
