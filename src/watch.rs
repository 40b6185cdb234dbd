//! Watching projects for changes: the registry of watched projects, and the
//! decisions of a project's listener, which turns bursts of file-system
//! notifications into one rescan and then listens again.

use vstd::prelude::*;
use crate::text::{chars_of, string_of, join_path, path_join};

verus! {

/// How long a listener waits after a change before it rescans, so that a
/// burst of changes leads to one scan.
pub const DEBOUNCE_MILLIS: u64 = 2000;

/// One watched project, as reported to callers.
pub struct WatcherStatus {
    pub project_id: i64,
    pub is_watching: bool,
    pub path: String,
}

struct WatchEntry {
    project_id: i64,
    path: String,
}

/// The watched projects, at most one registration per project.
pub struct WatchRegistry {
    entries: Vec<WatchEntry>,
}

pub open spec fn ids_unique(s: Seq<(i64, Seq<char>)>) -> bool {
    forall|a: int, b: int| 0 <= a < s.len() && 0 <= b < s.len() && a != b ==> (#[trigger] s[a]).0 != (#[trigger] s[b]).0
}

pub open spec fn holds_id(s: Seq<(i64, Seq<char>)>, id: i64) -> bool {
    exists|a: int| 0 <= a < s.len() && (#[trigger] s[a]).0 == id
}

/// The registrations other than that of `id`, in order.
pub open spec fn without_id(s: Seq<(i64, Seq<char>)>, id: i64) -> Seq<(i64, Seq<char>)>
    decreases s.len(),
{
    if s.len() == 0 {
        Seq::empty()
    } else if s.last().0 == id {
        without_id(s.drop_last(), id)
    } else {
        without_id(s.drop_last(), id).push(s.last())
    }
}

impl WatchRegistry {
    /// The registrations: project identifier and root path, in order of start.
    pub closed spec fn registrations(&self) -> Seq<(i64, Seq<char>)> {
        self.entries@.map_values(|e: WatchEntry| (e.project_id, e.path@))
    }

    pub open spec fn wf(&self) -> bool {
        ids_unique(self.registrations())
    }

    pub fn new() -> (r: WatchRegistry)
        ensures
            r.wf(),
            r.registrations() == Seq::<(i64, Seq<char>)>::empty(),
    {
        let r = WatchRegistry { entries: Vec::new() };
        assert(r.registrations() =~= Seq::<(i64, Seq<char>)>::empty());
        r
    }

    fn position(&self, project_id: i64) -> (r: Option<usize>)
        ensures
            r is None <==> !holds_id(self.registrations(), project_id),
            r is Some ==> r.unwrap() < self.registrations().len()
                && self.registrations()[r.unwrap() as int].0 == project_id,
    {
        let mut j: usize = 0;
        while j < self.entries.len()
            invariant
                j <= self.entries@.len(),
                forall|q: int| 0 <= q < j ==> (#[trigger] self.registrations()[q]).0 != project_id,
            decreases self.entries.len() - j,
        {
            if self.entries[j].project_id == project_id {
                assert(self.registrations()[j as int].0 == project_id);
                return Some(j);
            }
            j += 1;
        }
        None
    }

    /// Whether project `project_id` is watched.
    pub fn is_watching(&self, project_id: i64) -> (r: bool)
        ensures
            r == holds_id(self.registrations(), project_id),
    {
        self.position(project_id).is_some()
    }

    /// Registers project `project_id` with root `project_path`. Starting a
    /// project that is already watched changes nothing. Returns whether a new
    /// registration was made.
    pub fn start_watching(&mut self, project_id: i64, project_path: &str) -> (r: bool)
        requires
            old(self).wf(),
        ensures
            final(self).wf(),
            r == !holds_id(old(self).registrations(), project_id),
            !r ==> final(self).registrations() == old(self).registrations(),
            r ==> final(self).registrations() == old(self).registrations().push((project_id, project_path@)),
    {
        if self.position(project_id).is_some() {
            return false;
        }
        let ghost before = self.registrations();
        self.entries.push(WatchEntry { project_id, path: string_of(&chars_of(project_path)) });
        assert(self.registrations() =~= before.push((project_id, project_path@)));
        true
    }

    /// Removes the registration of project `project_id`; returns whether
    /// there was one.
    pub fn stop_watching(&mut self, project_id: i64) -> (r: bool)
        requires
            old(self).wf(),
        ensures
            final(self).wf(),
            r == holds_id(old(self).registrations(), project_id),
            final(self).registrations() == without_id(old(self).registrations(), project_id),
            !holds_id(final(self).registrations(), project_id),
    {
        let ghost before = self.registrations();
        match self.position(project_id) {
            None => {
                proof {
                    lemma_without_absent(before, project_id);
                }
                false
            },
            Some(p) => {
                self.entries.remove(p);
                proof {
                    let after = self.registrations();
                    assert(after =~= before.subrange(0, p as int) + before.subrange(p + 1, before.len() as int));
                    lemma_without_at(before, project_id, p as int);
                    assert forall|a: int, b: int| 0 <= a < after.len() && 0 <= b < after.len() && a != b implies
                        (#[trigger] after[a]).0 != (#[trigger] after[b]).0 by {
                        let a2 = if a < p { a } else { a + 1 };
                        let b2 = if b < p { b } else { b + 1 };
                        assert(after[a] == before[a2]);
                        assert(after[b] == before[b2]);
                    }
                    assert forall|a: int| 0 <= a < after.len() implies (#[trigger] after[a]).0 != project_id by {
                        let a2 = if a < p { a } else { a + 1 };
                        assert(after[a] == before[a2]);
                    }
                }
                true
            },
        }
    }

    /// The watched projects.
    pub fn watching_projects(&self) -> (r: Vec<WatcherStatus>)
        ensures
            r@.len() == self.registrations().len(),
            forall|q: int| 0 <= q < r@.len() ==> {
                &&& (#[trigger] r@[q]).project_id == self.registrations()[q].0
                &&& r@[q].path@ == self.registrations()[q].1
                &&& r@[q].is_watching
            },
    {
        let mut out: Vec<WatcherStatus> = Vec::new();
        let mut j: usize = 0;
        while j < self.entries.len()
            invariant
                j <= self.entries@.len(),
                out@.len() == j,
                forall|q: int| 0 <= q < j ==> {
                    &&& (#[trigger] out@[q]).project_id == self.registrations()[q].0
                    &&& out@[q].path@ == self.registrations()[q].1
                    &&& out@[q].is_watching
                },
            decreases self.entries.len() - j,
        {
            let e = &self.entries[j];
            out.push(WatcherStatus { project_id: e.project_id, is_watching: true, path: e.path.clone() });
            j += 1;
        }
        out
    }
}

proof fn lemma_without_absent(s: Seq<(i64, Seq<char>)>, id: i64)
    requires
        !holds_id(s, id),
    ensures
        without_id(s, id) == s,
    decreases s.len(),
{
    if s.len() > 0 {
        assert(!holds_id(s.drop_last(), id)) by {
            if holds_id(s.drop_last(), id) {
                let a = choose|a: int| 0 <= a < s.drop_last().len() && (#[trigger] s.drop_last()[a]).0 == id;
                assert(s[a].0 == id);
            }
        }
        lemma_without_absent(s.drop_last(), id);
        assert(s.last().0 != id) by {
            assert(s[s.len() - 1].0 == s.last().0);
        }
        assert(s.drop_last().push(s.last()) =~= s);
    }
}

proof fn lemma_without_at(s: Seq<(i64, Seq<char>)>, id: i64, p: int)
    requires
        ids_unique(s),
        0 <= p < s.len(),
        s[p].0 == id,
    ensures
        without_id(s, id) == s.subrange(0, p) + s.subrange(p + 1, s.len() as int),
    decreases s.len(),
{
    if p == s.len() - 1 {
        assert(!holds_id(s.drop_last(), id)) by {
            if holds_id(s.drop_last(), id) {
                let a = choose|a: int| 0 <= a < s.drop_last().len() && (#[trigger] s.drop_last()[a]).0 == id;
                assert(s[a].0 == s[p].0);
            }
        }
        lemma_without_absent(s.drop_last(), id);
        assert(s.subrange(0, p) =~= s.drop_last());
        assert(s.subrange(p + 1, s.len() as int) =~= Seq::<(i64, Seq<char>)>::empty());
        assert(s.drop_last() + Seq::<(i64, Seq<char>)>::empty() =~= s.drop_last());
    } else {
        let d = s.drop_last();
        assert(ids_unique(d)) by {
            assert forall|a: int, b: int| 0 <= a < d.len() && 0 <= b < d.len() && a != b implies
                (#[trigger] d[a]).0 != (#[trigger] d[b]).0 by {
                assert(d[a] == s[a] && d[b] == s[b]);
            }
        }
        assert(d[p] == s[p]);
        lemma_without_at(d, id, p);
        assert(s.last().0 != id) by {
            assert(s[s.len() - 1] == s.last());
        }
        assert(s.subrange(0, p) =~= d.subrange(0, p));
        assert(s.subrange(p + 1, s.len() as int) =~= d.subrange(p + 1, d.len() as int).push(s.last()));
        assert((d.subrange(0, p) + d.subrange(p + 1, d.len() as int)).push(s.last())
            =~= d.subrange(0, p) + d.subrange(p + 1, d.len() as int).push(s.last()));
    }
}

/// The directories to watch for a project: each target name joined to the
/// root. Those that do not exist are left out by the caller.
pub fn watch_dirs(project_path: &str, scan_dirs: &Vec<String>) -> (r: Vec<String>)
    ensures
        r@.len() == scan_dirs@.len(),
        forall|q: int| 0 <= q < r@.len() ==> (#[trigger] r@[q])@ == path_join(project_path@, scan_dirs@[q]@),
{
    let root = chars_of(project_path);
    let mut out: Vec<String> = Vec::new();
    let mut j: usize = 0;
    while j < scan_dirs.len()
        invariant
            root@ == project_path@,
            j <= scan_dirs@.len(),
            out@.len() == j,
            forall|q: int| 0 <= q < j ==> (#[trigger] out@[q])@ == path_join(project_path@, scan_dirs@[q]@),
        decreases scan_dirs.len() - j,
    {
        let joined = join_path(&root, &chars_of(scan_dirs[j].as_str()));
        out.push(string_of(&joined));
        j += 1;
    }
    out
}

/// The kind of a file-system notification.
#[derive(PartialEq, Eq, Debug, Clone, Copy)]
pub enum ChangeKind {
    Create,
    Modify,
    Remove,
    Other,
}

/// What a listener learns.
#[derive(PartialEq, Eq, Debug, Clone, Copy)]
pub enum ListenerEvent {
    Change(ChangeKind),
    DebounceElapsed,
    RescanFinished,
    Closed,
}

#[derive(PartialEq, Eq, Debug, Clone, Copy)]
pub enum ListenerState {
    Listening,
    Debouncing,
    Rescanning,
    Stopped,
}

/// What a listener does next.
#[derive(PartialEq, Eq, Debug, Clone, Copy)]
pub enum ListenerAction {
    Nothing,
    /// Wait `DEBOUNCE_MILLIS`, then report `DebounceElapsed`.
    WaitDebounce,
    /// Read the scan settings, scan and store, then report `RescanFinished`.
    Rescan,
    Exit,
}

pub open spec fn is_relevant(k: ChangeKind) -> bool {
    k != ChangeKind::Other
}

/// The listener's transition: a relevant change while listening starts the
/// debounce; changes during the debounce are absorbed; when it elapses one
/// rescan runs, after which the listener listens again. A closed channel
/// stops it from any state.
pub open spec fn listener_next(s: ListenerState, e: ListenerEvent) -> (ListenerState, ListenerAction) {
    match (s, e) {
        (ListenerState::Stopped, _) => (ListenerState::Stopped, ListenerAction::Nothing),
        (_, ListenerEvent::Closed) => (ListenerState::Stopped, ListenerAction::Exit),
        (ListenerState::Listening, ListenerEvent::Change(k)) => if is_relevant(k) {
            (ListenerState::Debouncing, ListenerAction::WaitDebounce)
        } else {
            (ListenerState::Listening, ListenerAction::Nothing)
        },
        (ListenerState::Debouncing, ListenerEvent::DebounceElapsed) => (ListenerState::Rescanning, ListenerAction::Rescan),
        (ListenerState::Rescanning, ListenerEvent::RescanFinished) => (ListenerState::Listening, ListenerAction::Nothing),
        (s, _) => (s, ListenerAction::Nothing),
    }
}

/// One step of a listener (see `listener_next`).
pub fn listener_step(state: ListenerState, event: ListenerEvent) -> (r: (ListenerState, ListenerAction))
    ensures
        r == listener_next(state, event),
{
    match (state, event) {
        (ListenerState::Stopped, _) => (ListenerState::Stopped, ListenerAction::Nothing),
        (_, ListenerEvent::Closed) => (ListenerState::Stopped, ListenerAction::Exit),
        (ListenerState::Listening, ListenerEvent::Change(k)) => {
            match k {
                ChangeKind::Other => (ListenerState::Listening, ListenerAction::Nothing),
                _ => (ListenerState::Debouncing, ListenerAction::WaitDebounce),
            }
        },
        (ListenerState::Debouncing, ListenerEvent::DebounceElapsed) => (ListenerState::Rescanning, ListenerAction::Rescan),
        (ListenerState::Rescanning, ListenerEvent::RescanFinished) => (ListenerState::Listening, ListenerAction::Nothing),
        (s, _) => (s, ListenerAction::Nothing),
    }
}

} // verus!
