//! At most one scan per project at a time: a scan takes its project's token
//! before it walks the tree and gives it back after its result is stored, so
//! a manual scan and a watcher's rescan of one project never overlap.

use vstd::prelude::*;

verus! {

/// The projects that have a scan in flight.
pub struct ScanTokens {
    busy: Vec<i64>,
}

impl ScanTokens {
    pub closed spec fn in_flight(&self) -> Set<i64> {
        self.busy@.to_set()
    }

    pub fn new() -> (r: ScanTokens)
        ensures
            r.in_flight() == Set::<i64>::empty(),
    {
        let r = ScanTokens { busy: Vec::new() };
        assert(r.busy@.to_set() =~= Set::<i64>::empty());
        r
    }

    fn position(&self, pid: i64) -> (r: Option<usize>)
        ensures
            r is None <==> !self.in_flight().contains(pid),
            r is Some ==> r.unwrap() < self.busy@.len() && self.busy@[r.unwrap() as int] == pid,
    {
        let mut j: usize = 0;
        while j < self.busy.len()
            invariant
                j <= self.busy@.len(),
                forall|q: int| 0 <= q < j ==> self.busy@[q] != pid,
            decreases self.busy.len() - j,
        {
            if self.busy[j] == pid {
                return Some(j);
            }
            j += 1;
        }
        proof {
            if self.busy@.to_set().contains(pid) {
                let q = choose|q: int| 0 <= q < self.busy@.len() && self.busy@[q] == pid;
                assert(self.busy@[q] != pid);
            }
        }
        None
    }

    /// Whether project `pid` has a scan in flight.
    pub fn is_scanning(&self, pid: i64) -> (r: bool)
        ensures
            r == self.in_flight().contains(pid),
    {
        self.position(pid).is_some()
    }

    /// Takes the token of project `pid`: `true`, and the project is marked,
    /// where no scan of it was in flight; `false`, and nothing changes,
    /// otherwise.
    pub fn try_begin(&mut self, pid: i64) -> (r: bool)
        ensures
            r == !old(self).in_flight().contains(pid),
            r ==> final(self).in_flight() == old(self).in_flight().insert(pid),
            !r ==> final(self).in_flight() == old(self).in_flight(),
    {
        if self.position(pid).is_some() {
            return false;
        }
        let ghost before = self.busy@;
        self.busy.push(pid);
        assert(self.busy@.to_set() =~= before.to_set().insert(pid)) by {
            assert forall|x: i64| self.busy@.to_set().contains(x) <==> before.to_set().insert(pid).contains(x) by {
                if self.busy@.to_set().contains(x) {
                    let q = choose|q: int| 0 <= q < self.busy@.len() && self.busy@[q] == x;
                    if q < before.len() {
                        assert(before[q] == x);
                    }
                }
                if before.to_set().contains(x) {
                    let q = choose|q: int| 0 <= q < before.len() && before[q] == x;
                    assert(self.busy@[q] == x);
                }
                if x == pid {
                    assert(self.busy@[before.len() as int] == pid);
                }
            }
        }
        true
    }

    /// Gives the token of project `pid` back.
    pub fn finish(&mut self, pid: i64)
        ensures
            final(self).in_flight() == old(self).in_flight().remove(pid),
    {
        let ghost start = self.busy@;
        let mut kept: Vec<i64> = Vec::new();
        let mut j: usize = 0;
        while j < self.busy.len()
            invariant
                self.busy@ == start,
                j <= start.len(),
                forall|x: i64| kept@.contains(x) <==> (x != pid && exists|q: int| 0 <= q < j && start[q] == x),
            decreases self.busy.len() - j,
        {
            let v = self.busy[j];
            let ghost before = kept@;
            if v != pid {
                kept.push(v);
            }
            proof {
                assert forall|x: i64| kept@.contains(x) <==> (x != pid && exists|q: int| 0 <= q < j + 1 && start[q] == x) by {
                    if kept@.contains(x) && !before.contains(x) {
                        assert(x == v);
                        assert(start[j as int] == x);
                    }
                    if x != pid && exists|q: int| 0 <= q < j + 1 && start[q] == x {
                        let q = choose|q: int| 0 <= q < j + 1 && start[q] == x;
                        if q < j {
                            assert(before.contains(x));
                            let k = choose|k: int| 0 <= k < before.len() && before[k] == x;
                            assert(kept@[k] == x);
                        } else {
                            assert(kept@[kept@.len() - 1] == x);
                        }
                    }
                    if before.contains(x) {
                        let k = choose|k: int| 0 <= k < before.len() && before[k] == x;
                        assert(kept@[k] == x);
                    }
                }
            }
            j += 1;
        }
        self.busy = kept;
        assert(self.busy@.to_set() =~= start.to_set().remove(pid)) by {
            assert forall|x: i64| self.busy@.to_set().contains(x) <==> start.to_set().remove(pid).contains(x) by {
                assert(self.busy@.contains(x) <==> self.busy@.to_set().contains(x));
                if start.to_set().contains(x) {
                    let q = choose|q: int| 0 <= q < start.len() && start[q] == x;
                    assert(exists|q: int| 0 <= q < start.len() && start[q] == x);
                }
                if x != pid && exists|q: int| 0 <= q < start.len() && start[q] == x {
                    let q = choose|q: int| 0 <= q < start.len() && start[q] == x;
                    assert(start.to_set().contains(x));
                }
            }
        }
    }
}

} // verus!
