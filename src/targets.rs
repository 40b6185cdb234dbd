//! Target discovery: the directories under the project root where a scan
//! looks for files.
//!
//! A direct child of the root is a target when its name, lowered, is one of
//! the target names (lowered) or is `project` / `projects`. A direct child
//! whose name holds an underscore and a digit is a shot folder: its own
//! children named like a target name, or `project`, are targets too, also
//! where the shot folder is itself a target. Root targets come first, then
//! shot targets, each in snapshot order. An empty list of target names
//! stands for the usual folder names of a studio tree.
//!
//! A scan walks the outer targets only: a shot target inside a shot folder
//! that is itself a root target is covered by the walk of that folder.

use vstd::prelude::*;
use crate::text::{lower_of, is_ascii_digit, path_join, to_lower, chars_of, chars_eq, join_path};
use crate::tree::{DirListing, DirTree, tree_wf};
use crate::patterns::strings_view;

verus! {

pub open spec fn project_word() -> Seq<char> {
    seq!['p', 'r', 'o', 'j', 'e', 'c', 't']
}

pub open spec fn projects_word() -> Seq<char> {
    seq!['p', 'r', 'o', 'j', 'e', 'c', 't', 's']
}

/// Target names used when the caller gives none.
pub open spec fn default_scan_dirs() -> Seq<Seq<char>> {
    seq![
        project_word(),
        projects_word(),
        seq!['c', 'o', 'm', 'p'],
        seq!['a', 'n', 'i', 'm', 'a', 't', 'i', 'o', 'n'],
        seq!['a', 'n', 'i', 'm'],
        seq!['0', '5', '_', 'c', 'o', 'm', 'p'],
        seq!['0', '4', '_', 'a', 'n', 'i', 'm', 'a', 't', 'i', 'o', 'n'],
    ]
}

pub open spec fn effective_dirs(scan_dirs: Seq<Seq<char>>) -> Seq<Seq<char>> {
    if scan_dirs.len() == 0 {
        default_scan_dirs()
    } else {
        scan_dirs
    }
}

/// `n` equals one of `names`, both lowered.
pub open spec fn names_in(names: Seq<Seq<char>>, n: Seq<char>) -> bool {
    exists|j: int| 0 <= j < names.len() && lower_of(#[trigger] names[j]) == lower_of(n)
}

pub open spec fn is_root_target(names: Seq<Seq<char>>, n: Seq<char>) -> bool {
    names_in(names, n) || lower_of(n) == project_word() || lower_of(n) == projects_word()
}

pub open spec fn is_shot_folder(n: Seq<char>) -> bool {
    n.contains('_') && exists|j: int| 0 <= j < n.len() && is_ascii_digit(#[trigger] n[j])
}

pub open spec fn is_shot_subtarget(names: Seq<Seq<char>>, n: Seq<char>) -> bool {
    names_in(names, n) || lower_of(n) == project_word()
}

/// A target: a directory index and its path relative to the root.
pub type Target = (int, Seq<char>);

/// Root targets among the first `k` children of the root.
pub open spec fn root_targets(t: Seq<DirListing>, names: Seq<Seq<char>>, k: int) -> Seq<Target>
    decreases k,
{
    if k <= 0 || t.len() == 0 || k > t[0].children@.len() {
        Seq::empty()
    } else {
        let c = t[0].children@[k - 1] as int;
        root_targets(t, names, k - 1) + if 0 < c < t.len() && is_root_target(names, t[c].name@) {
            seq![(c, t[c].name@)]
        } else {
            Seq::empty()
        }
    }
}

/// Targets among the first `m` children of shot folder `c`.
pub open spec fn sub_targets(t: Seq<DirListing>, names: Seq<Seq<char>>, c: int, m: int) -> Seq<Target>
    decreases m,
{
    if m <= 0 || c < 0 || c >= t.len() || m > t[c].children@.len() {
        Seq::empty()
    } else {
        let g = t[c].children@[m - 1] as int;
        sub_targets(t, names, c, m - 1) + if c < g < t.len() && is_shot_subtarget(names, t[g].name@) {
            seq![(g, path_join(t[c].name@, t[g].name@))]
        } else {
            Seq::empty()
        }
    }
}

/// Shot targets below the first `k` children of the root; with `nested`
/// false, only those whose shot folder is not itself a root target.
pub open spec fn shot_targets(t: Seq<DirListing>, names: Seq<Seq<char>>, k: int, nested: bool) -> Seq<Target>
    decreases k,
{
    if k <= 0 || t.len() == 0 || k > t[0].children@.len() {
        Seq::empty()
    } else {
        let c = t[0].children@[k - 1] as int;
        shot_targets(t, names, k - 1, nested) + if 0 < c < t.len() && is_shot_folder(t[c].name@)
            && (nested || !is_root_target(names, t[c].name@)) {
            sub_targets(t, names, c, t[c].children@.len() as int)
        } else {
            Seq::empty()
        }
    }
}

/// All targets of a tree for the given target names.
pub open spec fn targets(t: Seq<DirListing>, names: Seq<Seq<char>>) -> Seq<Target> {
    root_targets(t, names, t[0].children@.len() as int) + shot_targets(t, names, t[0].children@.len() as int, true)
}

/// The targets a scan walks: all targets but those lying inside a root
/// target, whose walk already covers them, so no file is listed twice.
pub open spec fn outer_targets(t: Seq<DirListing>, names: Seq<Seq<char>>) -> Seq<Target> {
    root_targets(t, names, t[0].children@.len() as int) + shot_targets(t, names, t[0].children@.len() as int, false)
}

/// An executable target.
pub struct TargetDir {
    pub dir: usize,
    pub rel: Vec<char>,
}

pub open spec fn targets_view(v: Seq<TargetDir>) -> Seq<Target> {
    v.map_values(|d: TargetDir| (d.dir as int, d.rel@))
}

/// The lowered target names.
struct LoweredNames {
    names: Vec<Vec<char>>,
}

impl LoweredNames {
    spec fn lowers(&self, names: Seq<Seq<char>>) -> bool {
        &&& self.names@.len() == names.len()
        &&& forall|j: int| 0 <= j < names.len() ==> #[trigger] self.names@[j]@ == lower_of(names[j])
    }

    fn new(names: &Vec<String>) -> (r: LoweredNames)
        ensures
            r.lowers(strings_view(names@)),
    {
        let mut v: Vec<Vec<char>> = Vec::new();
        let mut j: usize = 0;
        while j < names.len()
            invariant
                j <= names@.len(),
                v@.len() == j,
                forall|q: int| 0 <= q < j ==> #[trigger] v@[q]@ == lower_of(names@[q]@),
            decreases names.len() - j,
        {
            let l = to_lower(names[j].as_str());
            v.push(chars_of(l.as_str()));
            j += 1;
        }
        LoweredNames { names: v }
    }

    /// Whether `n` is one of the names, both lowered.
    fn holds(&self, n: &String, Ghost(names): Ghost<Seq<Seq<char>>>) -> (r: bool)
        requires
            self.lowers(names),
        ensures
            r == names_in(names, n@),
    {
        let l = to_lower(n.as_str());
        let lc = chars_of(l.as_str());
        let mut j: usize = 0;
        while j < self.names.len()
            invariant
                self.lowers(names),
                lc@ == lower_of(n@),
                j <= self.names@.len(),
                forall|q: int| 0 <= q < j ==> lower_of(#[trigger] names[q]) != lower_of(n@),
            decreases self.names.len() - j,
        {
            if chars_eq(&self.names[j], &lc) {
                assert(lower_of(names[j as int]) == lower_of(n@));
                return true;
            }
            j += 1;
        }
        false
    }
}

fn lower_is(n: &String, word: &Vec<char>) -> (r: bool)
    ensures
        r == (lower_of(n@) == word@),
{
    let l = to_lower(n.as_str());
    let lc = chars_of(l.as_str());
    chars_eq(&lc, word)
}

fn shot_folder_exec(n: &String) -> (r: bool)
    ensures
        r == is_shot_folder(n@),
{
    let cs = chars_of(n.as_str());
    let mut has_sep = false;
    let mut has_digit = false;
    let mut j: usize = 0;
    while j < cs.len()
        invariant
            cs@ == n@,
            j <= cs@.len(),
            has_sep == exists|q: int| 0 <= q < j && cs@[q] == '_',
            has_digit == exists|q: int| 0 <= q < j && is_ascii_digit(#[trigger] cs@[q]),
        decreases cs.len() - j,
    {
        if cs[j] == '_' {
            has_sep = true;
        }
        if '0' <= cs[j] && cs[j] <= '9' {
            has_digit = true;
        }
        j += 1;
    }
    proof {
        if has_sep {
            let q = choose|q: int| 0 <= q < j && cs@[q] == '_';
            assert(n@.contains('_')) by {
                assert(n@[q] == '_');
            }
        }
    }
    has_sep && has_digit
}


fn is_root_target_exec(low: &LoweredNames, n: &String, Ghost(names): Ghost<Seq<Seq<char>>>) -> (r: bool)
    requires
        low.lowers(names),
    ensures
        r == is_root_target(names, n@),
{
    low.holds(n, Ghost(names)) || lower_is(n, &vec!['p', 'r', 'o', 'j', 'e', 'c', 't'])
        || lower_is(n, &vec!['p', 'r', 'o', 'j', 'e', 'c', 't', 's'])
}

fn push_sub_targets(
    t: &DirTree,
    low: &LoweredNames,
    c: usize,
    out: &mut Vec<TargetDir>,
    Ghost(names): Ghost<Seq<Seq<char>>>,
)
    requires
        t.wf(),
        0 < c < t.listings().len(),
        low.lowers(names),
    ensures
        targets_view(final(out)@) == targets_view(old(out)@)
            + sub_targets(t.listings(), names, c as int, t.listings()[c as int].children@.len() as int),
        final(out)@.len() >= old(out)@.len(),
        forall|q: int| 0 <= q < old(out)@.len() ==> final(out)@[q] == old(out)@[q],
        forall|q: int| old(out)@.len() <= q < final(out)@.len() ==> 0 < (#[trigger] final(out)@[q]).dir < t.listings().len(),
{
    let ghost start = targets_view(out@);
    let ghost start_out = out@;
    let d = &t.dir(c);
    let mut m: usize = 0;
    while m < d.children.len()
        invariant
            t.wf(),
            0 < c < t.listings().len(),
            *d == t.listings()[c as int],
            low.lowers(names),
            m <= d.children@.len(),
            targets_view(out@) == start + sub_targets(t.listings(), names, c as int, m as int),
            out@.len() >= start_out.len(),
            forall|q: int| 0 <= q < start_out.len() ==> out@[q] == start_out[q],
            forall|q: int| start_out.len() <= q < out@.len() ==> 0 < (#[trigger] out@[q]).dir < t.listings().len(),
        decreases d.children.len() - m,
    {
        let g = d.children[m];
        assert(c < g < t.listings().len());
        let ghost before = targets_view(out@);
        let child = &t.dir(g);
        let hit = low.holds(&child.name, Ghost(names))
            || lower_is(&child.name, &vec!['p', 'r', 'o', 'j', 'e', 'c', 't']);
        if hit {
            let rel = join_path(&chars_of(d.name.as_str()), &chars_of(child.name.as_str()));
            out.push(TargetDir { dir: g, rel });
            assert(targets_view(out@) =~= before + seq![(g as int, rel@)]);
        } else {
            assert(targets_view(out@) =~= before + Seq::empty());
        }
        m += 1;
    }
}

/// The targets of a tree for the given target names (see `targets`).
pub fn find_targets(t: &DirTree, names: &Vec<String>) -> (r: Vec<TargetDir>)
    requires
        t.wf(),
    ensures
        targets_view(r@) == targets(t.listings(), strings_view(names@)),
        dirs_distinct(targets_view(r@)),
        forall|q: int| 0 <= q < r@.len() ==> 0 < (#[trigger] r@[q]).dir < t.listings().len(),
{
    proof {
        lemma_targets_distinct(t.listings(), strings_view(names@), true);
    }
    collect_targets(t, names, true)
}

/// The targets a scan walks (see `outer_targets`).
pub(crate) fn find_outer_targets(t: &DirTree, names: &Vec<String>) -> (r: Vec<TargetDir>)
    requires
        t.wf(),
    ensures
        targets_view(r@) == outer_targets(t.listings(), strings_view(names@)),
        dirs_distinct(targets_view(r@)),
        forall|q: int| 0 <= q < r@.len() ==> 0 < (#[trigger] r@[q]).dir < t.listings().len(),
{
    proof {
        lemma_targets_distinct(t.listings(), strings_view(names@), false);
    }
    collect_targets(t, names, false)
}

fn collect_targets(t: &DirTree, names: &Vec<String>, nested: bool) -> (r: Vec<TargetDir>)
    requires
        t.wf(),
    ensures
        targets_view(r@) == root_targets(t.listings(), strings_view(names@), t.listings()[0].children@.len() as int)
            + shot_targets(t.listings(), strings_view(names@), t.listings()[0].children@.len() as int, nested),
        forall|q: int| 0 <= q < r@.len() ==> 0 < (#[trigger] r@[q]).dir < t.listings().len(),
{
    let ghost nv = strings_view(names@);
    let low = LoweredNames::new(names);
    let root = &t.dir(0);
    let mut out: Vec<TargetDir> = Vec::new();
    let mut k: usize = 0;
    while k < root.children.len()
        invariant
            t.wf(),
            *root == t.listings()[0],
            low.lowers(nv),
            k <= root.children@.len(),
            targets_view(out@) == root_targets(t.listings(), nv, k as int),
            forall|q: int| 0 <= q < out@.len() ==> 0 < (#[trigger] out@[q]).dir < t.listings().len(),
        decreases root.children.len() - k,
    {
        let c = root.children[k];
        assert(0 < c < t.listings().len());
        let ghost before = targets_view(out@);
        let child = &t.dir(c);
        if is_root_target_exec(&low, &child.name, Ghost(nv)) {
            out.push(TargetDir { dir: c, rel: chars_of(child.name.as_str()) });
            assert(targets_view(out@) =~= before + seq![(c as int, child.name@)]);
        } else {
            assert(targets_view(out@) =~= before + Seq::empty());
        }
        k += 1;
    }
    let ghost mid = targets_view(out@);
    let mut k: usize = 0;
    while k < root.children.len()
        invariant
            t.wf(),
            *root == t.listings()[0],
            low.lowers(nv),
            k <= root.children@.len(),
            targets_view(out@) == mid + shot_targets(t.listings(), nv, k as int, nested),
            forall|q: int| 0 <= q < out@.len() ==> 0 < (#[trigger] out@[q]).dir < t.listings().len(),
        decreases root.children.len() - k,
    {
        let c = root.children[k];
        assert(0 < c < t.listings().len());
        let ghost before = targets_view(out@);
        let ghost before_out = out@;
        let child = &t.dir(c);
        if shot_folder_exec(&child.name) && (nested || !is_root_target_exec(&low, &child.name, Ghost(nv))) {
            push_sub_targets(t, &low, c, &mut out, Ghost(nv));
        } else {
            assert(targets_view(out@) =~= before + Seq::empty());
        }
        proof {
            assert forall|q: int| 0 <= q < out@.len() implies 0 < (#[trigger] out@[q]).dir < t.listings().len() by {
                if q < before_out.len() {
                    assert(out@[q] == before_out[q]);
                }
            }
        }
        k += 1;
    }
    out
}


/// No directory appears twice among the targets.
pub open spec fn dirs_distinct(ts: Seq<Target>) -> bool {
    forall|a: int, b: int| 0 <= a < ts.len() && 0 <= b < ts.len() && a != b ==> (#[trigger] ts[a]).0 != (#[trigger] ts[b]).0
}

spec fn is_root_child(t: Seq<DirListing>, d: int, k: int) -> bool {
    exists|a: int| 0 <= a < k && #[trigger] t[0].children@[a] as int == d
}

spec fn is_child(t: Seq<DirListing>, c: int, d: int, m: int) -> bool {
    exists|b: int| 0 <= b < m && #[trigger] t[c].children@[b] as int == d
}

spec fn is_grandchild(t: Seq<DirListing>, d: int, k: int) -> bool {
    exists|a: int| 0 <= a < k && is_child(t, #[trigger] t[0].children@[a] as int, d, t[t[0].children@[a] as int].children@.len() as int)
}

proof fn lemma_distinct_add(x: Seq<Target>, y: Seq<Target>)
    requires
        dirs_distinct(x),
        dirs_distinct(y),
        forall|a: int, b: int| 0 <= a < x.len() && 0 <= b < y.len() ==> (#[trigger] x[a]).0 != (#[trigger] y[b]).0,
    ensures
        dirs_distinct(x + y),
{
    let z = x + y;
    assert forall|a: int, b: int| 0 <= a < z.len() && 0 <= b < z.len() && a != b implies (#[trigger] z[a]).0 != (#[trigger] z[b]).0 by {
        if a < x.len() && b < x.len() {
            assert(z[a] == x[a] && z[b] == x[b]);
        } else if a < x.len() {
            assert(z[a] == x[a] && z[b] == y[b - x.len()]);
        } else if b < x.len() {
            assert(z[b] == x[b] && z[a] == y[a - x.len()]);
        } else {
            assert(z[a] == y[a - x.len()] && z[b] == y[b - x.len()]);
        }
    }
}

proof fn lemma_root_targets_distinct(t: Seq<DirListing>, names: Seq<Seq<char>>, k: int)
    requires
        tree_wf(t),
        0 <= k <= t[0].children@.len(),
    ensures
        dirs_distinct(root_targets(t, names, k)),
        forall|q: int| 0 <= q < root_targets(t, names, k).len() ==> is_root_child(t, (#[trigger] root_targets(t, names, k)[q]).0, k),
    decreases k,
{
    if k > 0 {
        let prev = root_targets(t, names, k - 1);
        let cur = root_targets(t, names, k);
        let c = t[0].children@[k - 1] as int;
        lemma_root_targets_distinct(t, names, k - 1);
        let b = if 0 < c < t.len() && is_root_target(names, t[c].name@) {
            seq![(c, t[c].name@)]
        } else {
            Seq::empty()
        };
        assert(cur == prev + b);
        assert forall|x: int, y: int| 0 <= x < prev.len() && 0 <= y < b.len() implies (#[trigger] prev[x]).0 != (#[trigger] b[y]).0 by {
            let a = choose|a: int| 0 <= a < k - 1 && #[trigger] t[0].children@[a] as int == prev[x].0;
            assert(t[0].children@[a] != t[0].children@[k - 1]);
        }
        lemma_distinct_add(prev, b);
        assert forall|q: int| 0 <= q < cur.len() implies is_root_child(t, (#[trigger] cur[q]).0, k) by {
            if q < prev.len() {
                assert(cur[q] == prev[q]);
                let a = choose|a: int| 0 <= a < k - 1 && #[trigger] t[0].children@[a] as int == prev[q].0;
                assert(t[0].children@[a] as int == cur[q].0);
            } else {
                assert(cur[q] == b[q - prev.len()]);
                assert(t[0].children@[k - 1] as int == cur[q].0);
            }
        }
    }
}

proof fn lemma_sub_targets_distinct(t: Seq<DirListing>, names: Seq<Seq<char>>, c: int, m: int)
    requires
        tree_wf(t),
        0 <= c < t.len(),
        0 <= m <= t[c].children@.len(),
    ensures
        dirs_distinct(sub_targets(t, names, c, m)),
        forall|q: int| 0 <= q < sub_targets(t, names, c, m).len() ==> is_child(t, c, (#[trigger] sub_targets(t, names, c, m)[q]).0, m),
    decreases m,
{
    if m > 0 {
        let prev = sub_targets(t, names, c, m - 1);
        let cur = sub_targets(t, names, c, m);
        let g = t[c].children@[m - 1] as int;
        lemma_sub_targets_distinct(t, names, c, m - 1);
        let b = if c < g < t.len() && is_shot_subtarget(names, t[g].name@) {
            seq![(g, path_join(t[c].name@, t[g].name@))]
        } else {
            Seq::empty()
        };
        assert(cur == prev + b);
        assert forall|x: int, y: int| 0 <= x < prev.len() && 0 <= y < b.len() implies (#[trigger] prev[x]).0 != (#[trigger] b[y]).0 by {
            let a = choose|a: int| 0 <= a < m - 1 && #[trigger] t[c].children@[a] as int == prev[x].0;
            assert(t[c].children@[a] != t[c].children@[m - 1]);
        }
        lemma_distinct_add(prev, b);
        assert forall|q: int| 0 <= q < cur.len() implies is_child(t, c, (#[trigger] cur[q]).0, m) by {
            if q < prev.len() {
                assert(cur[q] == prev[q]);
                let a = choose|a: int| 0 <= a < m - 1 && #[trigger] t[c].children@[a] as int == prev[q].0;
                assert(t[c].children@[a] as int == cur[q].0);
            } else {
                assert(cur[q] == b[q - prev.len()]);
                assert(t[c].children@[m - 1] as int == cur[q].0);
            }
        }
    }
}

proof fn lemma_shot_targets_distinct(t: Seq<DirListing>, names: Seq<Seq<char>>, k: int, nested: bool)
    requires
        tree_wf(t),
        0 <= k <= t[0].children@.len(),
    ensures
        dirs_distinct(shot_targets(t, names, k, nested)),
        forall|q: int| 0 <= q < shot_targets(t, names, k, nested).len() ==> is_grandchild(t, (#[trigger] shot_targets(t, names, k, nested)[q]).0, k),
    decreases k,
{
    if k > 0 {
        let prev = shot_targets(t, names, k - 1, nested);
        let cur = shot_targets(t, names, k, nested);
        let c = t[0].children@[k - 1] as int;
        lemma_shot_targets_distinct(t, names, k - 1, nested);
        if 0 < c < t.len() && is_shot_folder(t[c].name@) && (nested || !is_root_target(names, t[c].name@)) {
            let n = t[c].children@.len() as int;
            let b = sub_targets(t, names, c, n);
            lemma_sub_targets_distinct(t, names, c, n);
            assert(cur == prev + b);
            assert forall|x: int, y: int| 0 <= x < prev.len() && 0 <= y < b.len() implies (#[trigger] prev[x]).0 != (#[trigger] b[y]).0 by {
                let a = choose|a: int| 0 <= a < k - 1 && is_child(t, #[trigger] t[0].children@[a] as int, prev[x].0, t[t[0].children@[a] as int].children@.len() as int);
                let ca = t[0].children@[a] as int;
                let i1 = choose|i1: int| 0 <= i1 < t[ca].children@.len() && #[trigger] t[ca].children@[i1] as int == prev[x].0;
                assert(is_child(t, c, b[y].0, n));
                let i2 = choose|i2: int| 0 <= i2 < n && #[trigger] t[c].children@[i2] as int == b[y].0;
                if prev[x].0 == b[y].0 {
                    assert(t[ca].children@[i1] == t[c].children@[i2]);
                    assert(t[0].children@[a] == t[0].children@[k - 1]);
                }
            }
            lemma_distinct_add(prev, b);
            assert forall|q: int| 0 <= q < cur.len() implies is_grandchild(t, (#[trigger] cur[q]).0, k) by {
                if q < prev.len() {
                    assert(cur[q] == prev[q]);
                    let a = choose|a: int| 0 <= a < k - 1 && is_child(t, #[trigger] t[0].children@[a] as int, prev[q].0, t[t[0].children@[a] as int].children@.len() as int);
                    assert(is_child(t, t[0].children@[a] as int, cur[q].0, t[t[0].children@[a] as int].children@.len() as int));
                } else {
                    assert(cur[q] == b[q - prev.len()]);
                    assert(is_child(t, c, b[q - prev.len()].0, n));
                    assert(is_child(t, t[0].children@[k - 1] as int, cur[q].0, t[t[0].children@[k - 1] as int].children@.len() as int));
                }
            }
        } else {
            assert(cur =~= prev);
            assert forall|q: int| 0 <= q < cur.len() implies is_grandchild(t, (#[trigger] cur[q]).0, k) by {
                assert(cur[q] == prev[q]);
                let a = choose|a: int| 0 <= a < k - 1 && is_child(t, #[trigger] t[0].children@[a] as int, prev[q].0, t[t[0].children@[a] as int].children@.len() as int);
                assert(is_child(t, t[0].children@[a] as int, cur[q].0, t[t[0].children@[a] as int].children@.len() as int));
            }
        }
    }
}

/// No directory is a target twice.
pub proof fn lemma_targets_distinct(t: Seq<DirListing>, names: Seq<Seq<char>>, nested: bool)
    requires
        tree_wf(t),
    ensures
        dirs_distinct(root_targets(t, names, t[0].children@.len() as int)
            + shot_targets(t, names, t[0].children@.len() as int, nested)),
{
    let n = t[0].children@.len() as int;
    let x = root_targets(t, names, n);
    let y = shot_targets(t, names, n, nested);
    lemma_root_targets_distinct(t, names, n);
    lemma_shot_targets_distinct(t, names, n, nested);
    assert forall|p: int, q: int| 0 <= p < x.len() && 0 <= q < y.len() implies (#[trigger] x[p]).0 != (#[trigger] y[q]).0 by {
        assert(is_root_child(t, x[p].0, n));
        assert(is_grandchild(t, y[q].0, n));
        let a = choose|a: int| 0 <= a < n && #[trigger] t[0].children@[a] as int == x[p].0;
        let a2 = choose|a2: int| 0 <= a2 < n && is_child(t, #[trigger] t[0].children@[a2] as int, y[q].0, t[t[0].children@[a2] as int].children@.len() as int);
        let ca = t[0].children@[a2] as int;
        let i = choose|i: int| 0 <= i < t[ca].children@.len() && #[trigger] t[ca].children@[i] as int == y[q].0;
        if x[p].0 == y[q].0 {
            assert(t[0].children@[a] == t[ca].children@[i]);
            assert(0 < ca);
        }
    }
    lemma_distinct_add(x, y);
}

} // verus!
