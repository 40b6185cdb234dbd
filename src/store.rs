//! The persisted mirror of scanned files, and the reconciler that replaces
//! a project's file list after a scan. Replacement is total: the rows of the
//! project afterwards are exactly the scan's records, whatever was there
//! before; the rows of other projects are untouched.

use vstd::prelude::*;
use crate::record::{ProjectFile, FileRecord, records_view};

verus! {

/// `r` with its owner set to `pid`.
pub open spec fn owned_by(r: FileRecord, pid: i64) -> FileRecord {
    FileRecord { project_id: pid, ..r }
}

/// Records `files`, each owned by `pid`.
pub open spec fn stamped(files: Seq<FileRecord>, pid: i64) -> Seq<FileRecord>
    decreases files.len(),
{
    if files.len() == 0 {
        Seq::empty()
    } else {
        stamped(files.drop_last(), pid).push(owned_by(files.last(), pid))
    }
}

/// The rows not owned by `pid`, in order.
pub open spec fn rows_except(rows: Seq<FileRecord>, pid: i64) -> Seq<FileRecord>
    decreases rows.len(),
{
    if rows.len() == 0 {
        Seq::empty()
    } else {
        let rest = rows_except(rows.drop_last(), pid);
        if rows.last().project_id == pid {
            rest
        } else {
            rest.push(rows.last())
        }
    }
}

/// The rows owned by `pid`, in order.
pub open spec fn rows_of(rows: Seq<FileRecord>, pid: i64) -> Seq<FileRecord>
    decreases rows.len(),
{
    if rows.len() == 0 {
        Seq::empty()
    } else {
        let rest = rows_of(rows.drop_last(), pid);
        if rows.last().project_id == pid {
            rest.push(rows.last())
        } else {
            rest
        }
    }
}

/// The rows after the file list of `pid` is replaced by `files`.
pub open spec fn replaced(rows: Seq<FileRecord>, pid: i64, files: Seq<FileRecord>) -> Seq<FileRecord> {
    rows_except(rows, pid) + stamped(files, pid)
}

/// Why a file list could not be stored.
#[derive(PartialEq, Eq, Debug)]
pub enum PersistError {
    /// No project with this identifier is known.
    UnknownProject(i64),
}

/// The known projects and the stored file rows.
pub struct FileStore {
    projects: Vec<i64>,
    rows: Vec<ProjectFile>,
}

impl ProjectFile {
    /// A copy of this record owned by `pid`.
    pub fn copy_for(&self, pid: i64) -> (r: ProjectFile)
        ensures
            r@ == owned_by(self@, pid),
    {
        let shot_name = match &self.shot_name {
            Some(s) => Some(s.clone()),
            None => None,
        };
        ProjectFile {
            id: self.id,
            project_id: pid,
            filename: self.filename.clone(),
            version: self.version.clone(),
            file_type: self.file_type.clone(),
            path: self.path.clone(),
            relative_path: self.relative_path.clone(),
            parent_folder: self.parent_folder.clone(),
            shot_name,
            last_modified: self.last_modified.clone(),
            created_at: self.created_at.clone(),
        }
    }
}

impl FileStore {
    pub closed spec fn project_ids(&self) -> Seq<i64> {
        self.projects@
    }

    pub closed spec fn stored(&self) -> Seq<FileRecord> {
        records_view(self.rows@)
    }

    /// An empty store.
    pub fn new() -> (r: FileStore)
        ensures
            r.project_ids() == Seq::<i64>::empty(),
            r.stored() == Seq::<FileRecord>::empty(),
    {
        let r = FileStore { projects: Vec::new(), rows: Vec::new() };
        assert(records_view(r.rows@) =~= Seq::<FileRecord>::empty());
        r
    }

    /// Whether project `pid` is known.
    pub fn project_exists(&self, pid: i64) -> (r: bool)
        ensures
            r == self.project_ids().contains(pid),
    {
        let mut j: usize = 0;
        while j < self.projects.len()
            invariant
                j <= self.projects@.len(),
                forall|q: int| 0 <= q < j ==> self.projects@[q] != pid,
            decreases self.projects.len() - j,
        {
            if self.projects[j] == pid {
                assert(self.projects@[j as int] == pid);
                return true;
            }
            j += 1;
        }
        false
    }

    /// Makes project `pid` known; no change where it already is.
    pub fn add_project(&mut self, pid: i64)
        ensures
            final(self).stored() == old(self).stored(),
            final(self).project_ids().contains(pid),
            forall|q: i64| old(self).project_ids().contains(q) ==> final(self).project_ids().contains(q),
            forall|q: i64| final(self).project_ids().contains(q) ==> q == pid || old(self).project_ids().contains(q),
    {
        if !self.project_exists(pid) {
            self.projects.push(pid);
            assert(self.projects@.last() == pid);
            assert forall|q: i64| old(self).project_ids().contains(q) implies self.project_ids().contains(q) by {
                let k = choose|k: int| 0 <= k < old(self).projects@.len() && old(self).projects@[k] == q;
                assert(self.projects@[k] == q);
            }
            assert forall|q: i64| self.project_ids().contains(q) implies q == pid || old(self).project_ids().contains(q) by {
                let k = choose|k: int| 0 <= k < self.projects@.len() && self.projects@[k] == q;
                if k < old(self).projects@.len() {
                    assert(old(self).projects@[k] == q);
                }
            }
        }
    }

    /// The stored files of project `pid`, in order of storage.
    pub fn files_of(&self, pid: i64) -> (r: Vec<ProjectFile>)
        ensures
            records_view(r@) == rows_of(self.stored(), pid),
    {
        let mut out: Vec<ProjectFile> = Vec::new();
        let mut j: usize = 0;
        while j < self.rows.len()
            invariant
                j <= self.rows@.len(),
                records_view(out@) == rows_of(records_view(self.rows@.subrange(0, j as int)), pid),
            decreases self.rows.len() - j,
        {
            let ghost before = records_view(out@);
            proof {
                assert(records_view(self.rows@.subrange(0, j + 1)).drop_last()
                    =~= records_view(self.rows@.subrange(0, j as int)));
            }
            if self.rows[j].project_id == pid {
                let c = self.rows[j].copy_for(pid);
                out.push(c);
                assert(owned_by(self.rows@[j as int]@, pid) == self.rows@[j as int]@);
                assert(records_view(out@) =~= before.push(self.rows@[j as int]@));
            }
            j += 1;
        }
        assert(self.rows@.subrange(0, self.rows@.len() as int) =~= self.rows@);
        out
    }

    /// Replaces the file list of project `pid` by `files` as one step: the
    /// project's old rows go, each of `files` is stored owned by `pid`.
    /// Fails, changing nothing, where the project is not known.
    pub fn replace_all(&mut self, pid: i64, files: &Vec<ProjectFile>) -> (r: Result<(), PersistError>)
        ensures
            r is Err <==> !old(self).project_ids().contains(pid),
            r is Err ==> r == Err::<(), PersistError>(PersistError::UnknownProject(pid)) && *final(self) == *old(self),
            r is Ok ==> final(self).stored() == replaced(old(self).stored(), pid, records_view(files@)),
            final(self).project_ids() == old(self).project_ids(),
    {
        if !self.project_exists(pid) {
            return Err(PersistError::UnknownProject(pid));
        }
        let mut kept: Vec<ProjectFile> = Vec::new();
        let mut j: usize = 0;
        while j < self.rows.len()
            invariant
                j <= self.rows@.len(),
                records_view(kept@) == rows_except(records_view(self.rows@.subrange(0, j as int)), pid),
            decreases self.rows.len() - j,
        {
            let ghost before = records_view(kept@);
            proof {
                assert(records_view(self.rows@.subrange(0, j + 1)).drop_last()
                    =~= records_view(self.rows@.subrange(0, j as int)));
            }
            if self.rows[j].project_id != pid {
                let row = &self.rows[j];
                let c = row.copy_for(row.project_id);
                kept.push(c);
                assert(owned_by(self.rows@[j as int]@, self.rows@[j as int].project_id) == self.rows@[j as int]@);
                assert(records_view(kept@) =~= before.push(self.rows@[j as int]@));
            }
            j += 1;
        }
        assert(self.rows@.subrange(0, self.rows@.len() as int) =~= self.rows@);
        let ghost base = records_view(kept@);
        let mut k: usize = 0;
        while k < files.len()
            invariant
                k <= files@.len(),
                records_view(kept@) == base + stamped(records_view(files@.subrange(0, k as int)), pid),
            decreases files.len() - k,
        {
            let ghost before = records_view(kept@);
            proof {
                assert(records_view(files@.subrange(0, k + 1)).drop_last()
                    =~= records_view(files@.subrange(0, k as int)));
            }
            let c = files[k].copy_for(pid);
            kept.push(c);
            assert(records_view(kept@) =~= before.push(owned_by(files@[k as int]@, pid)));
            k += 1;
        }
        assert(files@.subrange(0, files@.len() as int) =~= files@);
        self.rows = kept;
        Ok(())
    }
}

proof fn lemma_rows_except_add(a: Seq<FileRecord>, b: Seq<FileRecord>, pid: i64)
    ensures
        rows_except(a + b, pid) == rows_except(a, pid) + rows_except(b, pid),
    decreases b.len(),
{
    if b.len() == 0 {
        assert(a + b =~= a);
        assert(rows_except(a, pid) + rows_except(b, pid) =~= rows_except(a, pid));
    } else {
        lemma_rows_except_add(a, b.drop_last(), pid);
        assert((a + b).drop_last() =~= a + b.drop_last());
        assert((a + b).last() == b.last());
        if b.last().project_id == pid {
        } else {
            assert(rows_except(a, pid) + rows_except(b.drop_last(), pid).push(b.last())
                =~= (rows_except(a, pid) + rows_except(b.drop_last(), pid)).push(b.last()));
        }
    }
}

proof fn lemma_rows_of_add(a: Seq<FileRecord>, b: Seq<FileRecord>, pid: i64)
    ensures
        rows_of(a + b, pid) == rows_of(a, pid) + rows_of(b, pid),
    decreases b.len(),
{
    if b.len() == 0 {
        assert(a + b =~= a);
        assert(rows_of(a, pid) + rows_of(b, pid) =~= rows_of(a, pid));
    } else {
        lemma_rows_of_add(a, b.drop_last(), pid);
        assert((a + b).drop_last() =~= a + b.drop_last());
        assert((a + b).last() == b.last());
        if b.last().project_id == pid {
            assert(rows_of(a, pid) + rows_of(b.drop_last(), pid).push(b.last())
                =~= (rows_of(a, pid) + rows_of(b.drop_last(), pid)).push(b.last()));
        }
    }
}

proof fn lemma_stamped_owned(files: Seq<FileRecord>, pid: i64)
    ensures
        rows_except(stamped(files, pid), pid) == Seq::<FileRecord>::empty(),
        rows_of(stamped(files, pid), pid) == stamped(files, pid),
    decreases files.len(),
{
    if files.len() > 0 {
        lemma_stamped_owned(files.drop_last(), pid);
        let s = stamped(files, pid);
        assert(s.drop_last() =~= stamped(files.drop_last(), pid));
    }
}

proof fn lemma_except_of_except(rows: Seq<FileRecord>, pid: i64)
    ensures
        rows_except(rows_except(rows, pid), pid) == rows_except(rows, pid),
        rows_of(rows_except(rows, pid), pid) == Seq::<FileRecord>::empty(),
    decreases rows.len(),
{
    if rows.len() > 0 {
        lemma_except_of_except(rows.drop_last(), pid);
        let e = rows_except(rows, pid);
        if rows.last().project_id != pid {
            assert(e.drop_last() =~= rows_except(rows.drop_last(), pid));
        }
    }
}

/// After a replacement the project's rows are exactly the new files (so an
/// empty list empties the project), and no other project's rows change.
pub proof fn lemma_replace_is_total(rows: Seq<FileRecord>, pid: i64, files: Seq<FileRecord>)
    ensures
        rows_of(replaced(rows, pid, files), pid) == stamped(files, pid),
        rows_except(replaced(rows, pid, files), pid) == rows_except(rows, pid),
        files.len() == 0 ==> rows_of(replaced(rows, pid, files), pid) == Seq::<FileRecord>::empty(),
{
    lemma_rows_of_add(rows_except(rows, pid), stamped(files, pid), pid);
    lemma_rows_except_add(rows_except(rows, pid), stamped(files, pid), pid);
    lemma_except_of_except(rows, pid);
    lemma_stamped_owned(files, pid);
    assert(Seq::<FileRecord>::empty() + stamped(files, pid) =~= stamped(files, pid));
    assert(rows_except(rows, pid) + Seq::<FileRecord>::empty() =~= rows_except(rows, pid));
}

/// Replacing a project's files twice with the same list leaves the same rows
/// as replacing them once.
pub proof fn lemma_replace_idempotent(rows: Seq<FileRecord>, pid: i64, files: Seq<FileRecord>)
    ensures
        replaced(replaced(rows, pid, files), pid, files) == replaced(rows, pid, files),
{
    lemma_replace_is_total(rows, pid, files);
}

/// Two successive replacements leave the project with the second list only,
/// so rescanning an unchanged tree stores what the rescan found, and a scan
/// that finds nothing after one that found files empties the project.
pub proof fn lemma_replace_twice(rows: Seq<FileRecord>, pid: i64, first: Seq<FileRecord>, second: Seq<FileRecord>)
    ensures
        replaced(replaced(rows, pid, first), pid, second) == replaced(rows, pid, second),
        rows_of(replaced(replaced(rows, pid, first), pid, second), pid) == stamped(second, pid),
{
    lemma_replace_is_total(rows, pid, first);
    lemma_replace_is_total(replaced(rows, pid, first), pid, second);
}

} // verus!
