//! A snapshot of a project's directory tree, as plain values: every
//! directory with its name, the regular files it holds (name and modification
//! time) and the indices of its subdirectories. Directory 0 is the project
//! root; a subdirectory always comes after its parent, so walks terminate.
//!
//! A snapshot is a real tree: every directory but the root has exactly one
//! parent, names are proper path components (not empty, not `.` or `..`,
//! without a separator), and the entries of one directory have distinct
//! names. The builders keep this, and they are the only way to make one.

use vstd::prelude::*;
use crate::text::{chars_of, string_of, chars_eq};

verus! {

/// A regular file: its bare name and its modification time in whole seconds
/// since the Unix epoch.
pub struct FileEntry {
    pub name: String,
    pub modified_secs: i64,
}

/// One directory of the snapshot.
pub struct DirListing {
    pub name: String,
    pub files: Vec<FileEntry>,
    pub children: Vec<usize>,
}

pub struct DirTree {
    dirs: Vec<DirListing>,
}

/// A proper path component.
pub open spec fn valid_name(n: Seq<char>) -> bool {
    &&& n.len() > 0
    &&& n != seq!['.']
    &&& n != seq!['.', '.']
    &&& forall|j: int| 0 <= j < n.len() ==> #[trigger] n[j] != '/' && n[j] != '\\'
}

/// The entries directly in directory `i` have distinct names.
pub open spec fn entries_distinct(t: Seq<DirListing>, i: int) -> bool {
    let d = t[i];
    &&& forall|a: int, b: int|
        0 <= a < d.children@.len() && 0 <= b < d.children@.len() && a != b
            ==> t[#[trigger] d.children@[a] as int].name@ != t[#[trigger] d.children@[b] as int].name@
    &&& forall|a: int, b: int|
        0 <= a < d.files@.len() && 0 <= b < d.files@.len() && a != b
            ==> (#[trigger] d.files@[a]).name@ != (#[trigger] d.files@[b]).name@
    &&& forall|a: int, b: int|
        0 <= a < d.children@.len() && 0 <= b < d.files@.len()
            ==> t[#[trigger] d.children@[a] as int].name@ != (#[trigger] d.files@[b]).name@
}

/// Directory `i` holds an entry (subdirectory or file) named `n`.
pub open spec fn name_taken(t: Seq<DirListing>, i: int, n: Seq<char>) -> bool {
    (exists|a: int| 0 <= a < t[i].children@.len() && #[trigger] t[t[i].children@[a] as int].name@ == n)
        || (exists|b: int| 0 <= b < t[i].files@.len() && (#[trigger] t[i].files@[b]).name@ == n)
}

/// The snapshot is a tree (see the module documentation).
pub open spec fn tree_wf(t: Seq<DirListing>) -> bool {
    &&& t.len() > 0
    &&& forall|i: int, k: int|
        0 <= i < t.len() && 0 <= k < t[i].children@.len() ==> i < #[trigger] t[i].children@[k] < t.len()
    &&& forall|i: int, k: int, j: int, m: int|
        0 <= i < t.len() && 0 <= k < t[i].children@.len() && 0 <= j < t.len() && 0 <= m < t[j].children@.len()
            && #[trigger] t[i].children@[k] == #[trigger] t[j].children@[m] ==> i == j && k == m
    &&& forall|i: int| 0 < i < t.len() ==> valid_name(#[trigger] t[i].name@)
    &&& forall|i: int, f: int|
        0 <= i < t.len() && 0 <= f < t[i].files@.len() ==> valid_name(#[trigger] t[i].files@[f].name@)
    &&& forall|i: int| 0 <= i < t.len() ==> #[trigger] entries_distinct(t, i)
}

fn is_valid_name(n: &Vec<char>) -> (r: bool)
    ensures
        r == valid_name(n@),
{
    if n.len() == 0 {
        return false;
    }
    if n.len() == 1 && n[0] == '.' {
        assert(n@ =~= seq!['.']);
        return false;
    }
    if n.len() == 2 && n[0] == '.' && n[1] == '.' {
        assert(n@ =~= seq!['.', '.']);
        return false;
    }
    proof {
        if n@ == seq!['.'] {
            assert(n@[0] == '.');
        }
        if n@ == seq!['.', '.'] {
            assert(n@[0] == '.' && n@[1] == '.');
        }
    }
    let mut j: usize = 0;
    while j < n.len()
        invariant
            j <= n@.len(),
            forall|q: int| 0 <= q < j ==> #[trigger] n@[q] != '/' && n@[q] != '\\',
        decreases n.len() - j,
    {
        if n[j] == '/' || n[j] == '\\' {
            return false;
        }
        j += 1;
    }
    true
}


/// Adding an empty directory with a fresh name under `p` keeps a tree.
proof fn lemma_add_dir_wf(t: Seq<DirListing>, p: int, c: usize, t2: Seq<DirListing>)
    requires
        tree_wf(t),
        c == t.len(),
        0 <= p < t.len(),
        t2.len() == t.len() + 1,
        valid_name(t2[t.len() as int].name@),
        t2[t.len() as int].files@.len() == 0,
        t2[t.len() as int].children@.len() == 0,
        t2[p].name == t[p].name,
        t2[p].files == t[p].files,
        t2[p].children@ == t[p].children@.push(c),
        forall|i: int| 0 <= i < t.len() && i != p ==> t2[i] == t[i],
        forall|a: int| 0 <= a < t[p].children@.len() ==> t[t[p].children@[a] as int].name@ != t2[t.len() as int].name@,
        forall|b: int| 0 <= b < t[p].files@.len() ==> t[p].files@[b].name@ != t2[t.len() as int].name@,
    ensures
        tree_wf(t2),
{
    let n = t.len() as int;
    assert forall|c: int| 0 <= c < n implies #[trigger] t2[c].name == t[c].name by {
        if c != p {
            assert(t2[c] == t[c]);
        }
    }
    assert forall|i: int, k: int| 0 <= i < t2.len() && 0 <= k < t2[i].children@.len() implies
        i < #[trigger] t2[i].children@[k] < t2.len() by {
        if i == p {
            if k < t[p].children@.len() {
                assert(t2[p].children@[k] == t[p].children@[k]);
            }
        } else if i < n {
            assert(t2[i] == t[i]);
        }
    }
    assert forall|i: int, k: int, j: int, m: int|
        0 <= i < t2.len() && 0 <= k < t2[i].children@.len() && 0 <= j < t2.len() && 0 <= m < t2[j].children@.len()
            && #[trigger] t2[i].children@[k] == #[trigger] t2[j].children@[m] implies i == j && k == m by {
        let new_i = i == p && k == t[p].children@.len();
        let new_j = j == p && m == t[p].children@.len();
        if i < n && !new_i {
            assert(t2[i].children@[k] == t[i].children@[k]) by {
                if i != p {
                    assert(t2[i] == t[i]);
                }
            }
        }
        if j < n && !new_j {
            assert(t2[j].children@[m] == t[j].children@[m]) by {
                if j != p {
                    assert(t2[j] == t[j]);
                }
            }
        }
    }
    assert forall|i: int| 0 < i < t2.len() implies valid_name(#[trigger] t2[i].name@) by {
        if i < n {
            assert(t2[i].name == t[i].name);
        }
    }
    assert forall|i: int, f: int| 0 <= i < t2.len() && 0 <= f < t2[i].files@.len() implies
        valid_name(#[trigger] t2[i].files@[f].name@) by {
        if i != p && i < n {
            assert(t2[i] == t[i]);
        }
    }
    assert forall|i: int| 0 <= i < t2.len() implies #[trigger] entries_distinct(t2, i) by {
        if i == p {
            let d = t2[p];
            let od = t[p];
            assert(entries_distinct(t, p));
            assert forall|a: int, b: int|
                0 <= a < d.children@.len() && 0 <= b < d.children@.len() && a != b implies
                t2[#[trigger] d.children@[a] as int].name@ != t2[#[trigger] d.children@[b] as int].name@ by {
                if a < od.children@.len() {
                    assert(d.children@[a] == od.children@[a]);
                    assert(t2[od.children@[a] as int].name == t[od.children@[a] as int].name);
                }
                if b < od.children@.len() {
                    assert(d.children@[b] == od.children@[b]);
                    assert(t2[od.children@[b] as int].name == t[od.children@[b] as int].name);
                }
            }
            assert forall|a: int, b: int|
                0 <= a < d.children@.len() && 0 <= b < d.files@.len() implies
                t2[#[trigger] d.children@[a] as int].name@ != (#[trigger] d.files@[b]).name@ by {
                if a < od.children@.len() {
                    assert(d.children@[a] == od.children@[a]);
                    assert(t2[od.children@[a] as int].name == t[od.children@[a] as int].name);
                }
            }
        } else if i < n {
            let d = t2[i];
            assert(d == t[i]);
            assert(entries_distinct(t, i));
            assert forall|a: int| 0 <= a < d.children@.len() implies
                t2[#[trigger] d.children@[a] as int].name == t[d.children@[a] as int].name by {
                assert(i < d.children@[a] < n);
            }
        }
    }
}

/// Adding a file with a fresh name to `p` keeps a tree.
proof fn lemma_add_file_wf(t: Seq<DirListing>, p: int, t2: Seq<DirListing>)
    requires
        tree_wf(t),
        0 <= p < t.len(),
        t2.len() == t.len(),
        t2[p].name == t[p].name,
        t2[p].children == t[p].children,
        t2[p].files@.drop_last() == t[p].files@,
        t2[p].files@.len() == t[p].files@.len() + 1,
        valid_name(t2[p].files@.last().name@),
        forall|i: int| 0 <= i < t.len() && i != p ==> t2[i] == t[i],
        forall|a: int| 0 <= a < t[p].children@.len() ==> t[t[p].children@[a] as int].name@ != t2[p].files@.last().name@,
        forall|b: int| 0 <= b < t[p].files@.len() ==> t[p].files@[b].name@ != t2[p].files@.last().name@,
    ensures
        tree_wf(t2),
{
    let n = t.len() as int;
    assert forall|c: int| 0 <= c < n implies (#[trigger] t2[c]).name == t[c].name && t2[c].children == t[c].children by {
        if c != p {
            assert(t2[c] == t[c]);
        }
    }
    assert forall|i: int, f: int| 0 <= i < t2.len() && 0 <= f < t2[i].files@.len() implies
        valid_name(#[trigger] t2[i].files@[f].name@) by {
        if i != p {
            assert(t2[i] == t[i]);
        } else if f < t[p].files@.len() {
            assert(t2[p].files@[f] == t2[p].files@.drop_last()[f]);
        }
    }
    assert forall|i: int| 0 <= i < t2.len() implies #[trigger] entries_distinct(t2, i) by {
        assert(entries_distinct(t, i));
        let d = t2[i];
        assert forall|a: int| 0 <= a < d.children@.len() implies
            t2[#[trigger] d.children@[a] as int].name == t[d.children@[a] as int].name by {
            assert(d.children == t[i].children);
            assert(i < d.children@[a] < n);
        }
        if i == p {
            let last = d.files@.len() - 1;
            assert forall|b: int| 0 <= b < last implies #[trigger] d.files@[b] == t[p].files@[b] by {
                assert(d.files@[b] == d.files@.drop_last()[b]);
            }
        }
    }
}

impl DirTree {
    /// The directories, root first.
    pub closed spec fn listings(&self) -> Seq<DirListing> {
        self.dirs@
    }

    pub open spec fn wf(&self) -> bool {
        tree_wf(self.listings())
    }

    /// The number of directories.
    pub fn num_dirs(&self) -> (r: usize)
        ensures
            r == self.listings().len(),
    {
        self.dirs.len()
    }

    /// Directory `i`.
    pub fn dir(&self, i: usize) -> (r: &DirListing)
        requires
            i < self.listings().len(),
        ensures
            *r == self.listings()[i as int],
    {
        &self.dirs[i]
    }

    /// A snapshot holding only an empty root directory.
    pub fn new(root_name: &str) -> (r: DirTree)
        ensures
            r.wf(),
            r.listings().len() == 1,
            r.listings()[0].name@ == root_name@,
            r.listings()[0].files@.len() == 0,
            r.listings()[0].children@.len() == 0,
    {
        let name = string_of(&chars_of(root_name));
        let root = DirListing { name, files: Vec::new(), children: Vec::new() };
        let r = DirTree { dirs: vec![root] };
        assert(r.dirs@[0].children@.len() == 0 && r.dirs@[0].files@.len() == 0);
        assert(entries_distinct(r.dirs@, 0));
        r
    }

    /// Whether directory `i` holds an entry named `n`.
    fn holds_name(&self, i: usize, n: &Vec<char>) -> (r: bool)
        requires
            self.wf(),
            i < self.listings().len(),
        ensures
            r == name_taken(self.listings(), i as int, n@),
    {
        let d = &self.dirs[i];
        let mut a: usize = 0;
        while a < d.children.len()
            invariant
                self.wf(),
                i < self.dirs@.len(),
                *d == self.dirs@[i as int],
                a <= d.children@.len(),
                forall|q: int| 0 <= q < a ==> self.dirs@[d.children@[q] as int].name@ != n@,
            decreases d.children.len() - a,
        {
            let c = d.children[a];
            assert(i < c < self.dirs@.len());
            if chars_eq(&chars_of(self.dirs[c].name.as_str()), n) {
                assert(self.listings()[self.listings()[i as int].children@[a as int] as int].name@ == n@);
                return true;
            }
            a += 1;
        }
        let mut b: usize = 0;
        while b < d.files.len()
            invariant
                *d == self.dirs@[i as int],
                b <= d.files@.len(),
                forall|q: int| 0 <= q < d.children@.len() ==> self.dirs@[d.children@[q] as int].name@ != n@,
                forall|q: int| 0 <= q < b ==> d.files@[q].name@ != n@,
            decreases d.files.len() - b,
        {
            if chars_eq(&chars_of(d.files[b].name.as_str()), n) {
                assert(self.listings()[i as int].files@[b as int].name@ == n@);
                return true;
            }
            b += 1;
        }
        false
    }

    /// Adds an empty subdirectory `name` under directory `parent` and returns
    /// its index; `None`, changing nothing, where `parent` is not a directory
    /// of the snapshot, `name` is not a proper path component, or `parent`
    /// already holds an entry of that name.
    pub fn add_dir(&mut self, parent: usize, name: &str) -> (r: Option<usize>)
        requires
            old(self).wf(),
        ensures
            final(self).wf(),
            r is None <==> parent >= old(self).listings().len() || !valid_name(name@)
                || name_taken(old(self).listings(), parent as int, name@),
            r is None ==> *final(self) == *old(self),
            r is Some ==> {
                let c = r.unwrap() as int;
                let t = old(self).listings();
                let t2 = final(self).listings();
                &&& c == t.len()
                &&& t2.len() == c + 1
                &&& t2[c].name@ == name@
                &&& t2[c].files@.len() == 0
                &&& t2[c].children@.len() == 0
                &&& t2[parent as int].children@ == t[parent as int].children@.push(c as usize)
                &&& t2[parent as int].name == t[parent as int].name
                &&& t2[parent as int].files == t[parent as int].files
                &&& forall|i: int| 0 <= i < c && i != parent ==> t2[i] == t[i]
            },
    {
        if parent >= self.dirs.len() {
            return None;
        }
        let n = chars_of(name);
        if !is_valid_name(&n) || self.holds_name(parent, &n) {
            return None;
        }
        let c = self.dirs.len();
        let ghost before = self.dirs@;
        self.dirs.push(DirListing { name: string_of(&n), files: Vec::new(), children: Vec::new() });
        let mut d = self.dirs.remove(parent);
        d.children.push(c);
        self.dirs.insert(parent, d);
        proof {
            assert forall|i: int| 0 <= i < before.len() && i != parent implies self.dirs@[i] == before[i] by {}
            lemma_add_dir_wf(before, parent as int, c, self.dirs@);
        }
        Some(c)
    }

    /// Adds a regular file to directory `dir`; `false`, changing nothing,
    /// where `dir` is not a directory of the snapshot, `name` is not a proper
    /// path component, or `dir` already holds an entry of that name.
    pub fn add_file(&mut self, dir: usize, name: &str, modified_secs: i64) -> (r: bool)
        requires
            old(self).wf(),
        ensures
            final(self).wf(),
            r == (dir < old(self).listings().len() && valid_name(name@)
                && !name_taken(old(self).listings(), dir as int, name@)),
            !r ==> *final(self) == *old(self),
            r ==> {
                let t = old(self).listings();
                let t2 = final(self).listings();
                &&& t2.len() == t.len()
                &&& t2[dir as int].name == t[dir as int].name
                &&& t2[dir as int].children == t[dir as int].children
                &&& t2[dir as int].files@.drop_last() == t[dir as int].files@
                &&& t2[dir as int].files@.len() == t[dir as int].files@.len() + 1
                &&& t2[dir as int].files@.last().name@ == name@
                &&& t2[dir as int].files@.last().modified_secs == modified_secs
                &&& forall|i: int| 0 <= i < t2.len() && i != dir ==> t2[i] == t[i]
            },
    {
        if dir >= self.dirs.len() {
            return false;
        }
        let n = chars_of(name);
        if !is_valid_name(&n) || self.holds_name(dir, &n) {
            return false;
        }
        let ghost before = self.dirs@;
        let mut d = self.dirs.remove(dir);
        let ghost old_files = d.files@;
        d.files.push(FileEntry { name: string_of(&n), modified_secs });
        assert(d.files@.drop_last() == old_files);
        self.dirs.insert(dir, d);
        proof {
            lemma_add_file_wf(before, dir as int, self.dirs@);
        }
        true
    }
}

} // verus!
