//! The PID table: the single rendezvous between the kernel's child-exit
//! events and the supervisor.  It maps each live kernel PID to the entity it
//! belongs to, and it holds at most one entry per PID at any instant.

use crate::services::ChildTermination;
use crate::units::{ServiceType, UnitId};
use vstd::prelude::*;

verus! {

/// What a tracked PID stands for: a service's live main process, a reaped
/// main process awaiting its state update, a live helper (prestart,
/// poststart, stop, poststop), or a reaped helper awaiting its claim.
#[derive(Clone, PartialEq, Eq, Debug)]
pub enum PidEntry {
    Service(UnitId, ServiceType),
    ServiceExited(ChildTermination),
    Helper(UnitId, String),
    HelperExited(ChildTermination),
}

/// Some entry of `s` carries the PID `q`.
pub open spec fn holds_pid(s: Seq<(u64, PidEntry)>, q: u64) -> bool {
    exists|k: int| 0 <= k < s.len() && (#[trigger] s[k]).0 == q
}

/// The position of the entry carrying `q`.
pub open spec fn pid_index(s: Seq<(u64, PidEntry)>, q: u64) -> int {
    choose|k: int| 0 <= k < s.len() && (#[trigger] s[k]).0 == q
}

/// No two entries carry the same PID.
pub open spec fn pids_unique(s: Seq<(u64, PidEntry)>) -> bool {
    forall|i: int, j: int|
        0 <= i < j < s.len() ==> (#[trigger] s[i]).0 != (#[trigger] s[j]).0
}

/// Mapping from kernel PID to its supervised entity.
pub struct PidTable {
    pub entries: Vec<(u64, PidEntry)>,
}

impl PidTable {
    /// At most one entry per kernel PID.
    pub open spec fn wf(&self) -> bool {
        pids_unique(self.entries@)
    }

    /// The table tracks this PID.
    pub open spec fn spec_contains(&self, pid: u64) -> bool {
        holds_pid(self.entries@, pid)
    }

    /// The entry of a tracked PID.
    pub open spec fn entry_of(&self, pid: u64) -> PidEntry {
        self.entries@[pid_index(self.entries@, pid)].1
    }

    pub fn new() -> (r: PidTable)
        ensures
            r.wf(),
            r.entries@.len() == 0,
            forall|q: u64| !(#[trigger] r.spec_contains(q)),
    {
        let r = PidTable { entries: Vec::new() };
        proof {
            assert forall|q: u64| !(#[trigger] r.spec_contains(q)) by {
                if holds_pid(r.entries@, q) {
                    let i = pid_index(r.entries@, q);
                }
            }
        }
        r
    }

    fn index_of(&self, pid: u64) -> (r: Option<usize>)
        requires
            self.wf(),
        ensures
            match r {
                Some(i) => i < self.entries@.len() && self.entries@[i as int].0 == pid
                    && self.spec_contains(pid) && pid_index(self.entries@, pid) == i as int,
                None => !self.spec_contains(pid),
            },
    {
        let mut i: usize = 0;
        let n = self.entries.len();
        while i < n
            invariant
                i <= n,
                n == self.entries@.len(),
                self.wf(),
                forall|j: int| 0 <= j < i ==> (#[trigger] self.entries@[j]).0 != pid,
            decreases n - i,
        {
            if self.entries[i].0 == pid {
                proof {
                    assert(holds_pid(self.entries@, pid));
                    let w = pid_index(self.entries@, pid);
                    assert(0 <= w < self.entries@.len() && self.entries@[w].0 == pid);
                    if w < i as int {
                        assert(false);
                    }
                    if (i as int) < w {
                        assert(self.entries@[i as int].0 != self.entries@[w].0);
                    }
                }
                return Some(i);
            }
            i += 1;
        }
        proof {
            if holds_pid(self.entries@, pid) {
                let w = pid_index(self.entries@, pid);
            }
        }
        None
    }

    /// Look the entry of a PID up.
    pub fn get(&self, pid: u64) -> (r: Option<&PidEntry>)
        requires
            self.wf(),
        ensures
            match r {
                Some(e) => self.spec_contains(pid) && *e == self.entry_of(pid),
                None => !self.spec_contains(pid),
            },
    {
        match self.index_of(pid) {
            Some(i) => Some(&self.entries[i].1),
            None => None,
        }
    }

    /// Record an entry for a PID; an existing entry for the same PID is
    /// replaced, so the table keeps at most one entry per PID.
    pub fn insert(&mut self, pid: u64, entry: PidEntry)
        requires
            old(self).wf(),
        ensures
            final(self).wf(),
            final(self).spec_contains(pid),
            final(self).entry_of(pid) == entry,
            forall|q: u64|
                q != pid ==> (#[trigger] final(self).spec_contains(q)) == old(self).spec_contains(
                    q,
                ),
            forall|q: u64|
                q != pid && old(self).spec_contains(q) ==> (#[trigger] final(self).entry_of(q))
                    == old(self).entry_of(q),
    {
        let ghost pre = self.entries@;
        match self.index_of(pid) {
            Some(i) => {
                self.entries.remove(i);
                proof {
                    lemma_remove_entry(pre, self.entries@, i as int, pid);
                }
            },
            None => {},
        }
        let ghost mid = self.entries@;
        self.entries.push((pid, entry));
        proof {
            lemma_push_entry(mid, self.entries@, pid, entry);
            assert forall|q: u64|
                q != pid implies (#[trigger] self.spec_contains(q)) == holds_pid(pre, q) by {
                assert(holds_pid(self.entries@, q) == holds_pid(mid, q));
            }
            assert forall|q: u64|
                q != pid && holds_pid(pre, q) implies (#[trigger] self.entry_of(q)) == pre[
                pid_index(pre, q)].1 by {
                assert(holds_pid(mid, q));
                lemma_entry_stable(mid, self.entries@, q);
            }
        }
    }

    /// Drop the entry of a PID, handing it back.
    pub fn remove(&mut self, pid: u64) -> (r: Option<PidEntry>)
        requires
            old(self).wf(),
        ensures
            final(self).wf(),
            !final(self).spec_contains(pid),
            match r {
                Some(e) => old(self).spec_contains(pid) && e == old(self).entry_of(pid),
                None => !old(self).spec_contains(pid) && *final(self) == *old(self),
            },
            forall|q: u64|
                q != pid ==> (#[trigger] final(self).spec_contains(q)) == old(self).spec_contains(
                    q,
                ),
            forall|q: u64|
                q != pid && old(self).spec_contains(q) ==> (#[trigger] final(self).entry_of(q))
                    == old(self).entry_of(q),
    {
        let ghost pre = self.entries@;
        match self.index_of(pid) {
            Some(i) => {
                let entry = self.entries.remove(i);
                proof {
                    lemma_remove_entry(pre, self.entries@, i as int, pid);
                    assert forall|q: u64|
                        q != pid && holds_pid(pre, q) implies (#[trigger] self.entry_of(q)) == pre[
                    pid_index(pre, q)].1 by {
                        lemma_entry_stable(self.entries@, pre, q);
                    }
                }
                Some(entry.1)
            },
            None => None,
        }
    }
}

/// A PID occurs at most once: two entries carrying the same PID are one and
/// the same.  Inserts under the lock and the exit bridge both go through
/// [`PidTable::insert`] and [`PidTable::remove`], which keep this invariant.
pub proof fn lemma_pid_unique(t: PidTable, i: int, j: int)
    requires
        t.wf(),
        0 <= i < t.entries@.len(),
        0 <= j < t.entries@.len(),
        t.entries@[i].0 == t.entries@[j].0,
    ensures
        i == j,
{
    if i < j {
        assert(t.entries@[i].0 != t.entries@[j].0);
    }
    if j < i {
        assert(t.entries@[j].0 != t.entries@[i].0);
    }
}

/// What the child-exit bridge found for a reaped PID.
#[derive(Clone, PartialEq, Eq, Debug)]
pub enum ExitEvent {
    UnknownPid,
    MainExited(UnitId, ServiceType),
    HelperDone(UnitId, String),
    StaleDropped,
}

enum SeenEntry {
    Main(UnitId, ServiceType),
    HelperAlive(UnitId, String),
    Stale,
}

/// The child-exit bridge: translate one reaped PID into a PID-table delta.
/// A live service entry becomes `ServiceExited` (the supervisor will restart
/// or propagate), a live helper entry becomes `HelperExited` (the helper
/// runner's poll will claim it), an unknown PID is ignored, and an entry
/// that had already exited is dropped.  Entries of other PIDs are untouched.
pub fn handle_child_termination(table: &mut PidTable, pid: u64, term: ChildTermination) -> (ev:
    ExitEvent)
    requires
        old(table).wf(),
    ensures
        final(table).wf(),
        forall|q: u64|
            q != pid ==> (#[trigger] final(table).spec_contains(q)) == old(table).spec_contains(q),
        forall|q: u64|
            q != pid && old(table).spec_contains(q) ==> (#[trigger] final(table).entry_of(q))
                == old(table).entry_of(q),
        match ev {
            ExitEvent::UnknownPid => !old(table).spec_contains(pid) && *final(table) == *old(table),
            ExitEvent::MainExited(id, st) => old(table).spec_contains(pid) && old(table).entry_of(
                pid,
            ) == PidEntry::Service(id, st) && final(table).spec_contains(pid) && final(table).entry_of(pid) == PidEntry::ServiceExited(term),
            ExitEvent::HelperDone(id, label) => old(table).spec_contains(pid) && old(table).entry_of(pid) == PidEntry::Helper(id, label) && final(table).spec_contains(pid)
                && final(table).entry_of(pid) == PidEntry::HelperExited(term),
            ExitEvent::StaleDropped => old(table).spec_contains(pid) && (old(table).entry_of(pid)
                is ServiceExited || old(table).entry_of(pid) is HelperExited) && !final(table).spec_contains(pid),
        },
{
    let seen: SeenEntry = match table.get(pid) {
        None => {
            return ExitEvent::UnknownPid;
        },
        Some(PidEntry::Service(id, st)) => SeenEntry::Main(*id, *st),
        Some(PidEntry::Helper(id, label)) => SeenEntry::HelperAlive(*id, label.clone()),
        Some(PidEntry::ServiceExited(_)) => SeenEntry::Stale,
        Some(PidEntry::HelperExited(_)) => SeenEntry::Stale,
    };
    match seen {
        SeenEntry::Main(id, st) => {
            table.insert(pid, PidEntry::ServiceExited(term));
            ExitEvent::MainExited(id, st)
        },
        SeenEntry::HelperAlive(id, label) => {
            table.insert(pid, PidEntry::HelperExited(term));
            ExitEvent::HelperDone(id, label)
        },
        SeenEntry::Stale => {
            table.remove(pid);
            ExitEvent::StaleDropped
        },
    }
}

/// One round of the helper runner's wait: either the helper still runs, or
/// the exit bridge has published its termination, which is consumed here.
#[derive(Clone, Copy, PartialEq, Eq, Structural, Debug)]
pub enum HelperWaitOutcome {
    KeepWaiting,
    Done(ChildTermination),
}

/// Poll the PID table for a helper's termination.  The caller registered the
/// helper, so an entry exists and is a helper entry: either still alive
/// (keep waiting) or exited, in which case the termination is consumed and
/// the entry leaves the table.
pub fn helper_wait_poll(table: &mut PidTable, pid: u64) -> (r: HelperWaitOutcome)
    requires
        old(table).wf(),
        old(table).spec_contains(pid),
        old(table).entry_of(pid) is Helper || old(table).entry_of(pid) is HelperExited,
    ensures
        final(table).wf(),
        match r {
            HelperWaitOutcome::KeepWaiting => old(table).entry_of(pid) is Helper && *final(table)
                == *old(table),
            HelperWaitOutcome::Done(term) => old(table).entry_of(pid)
                == PidEntry::HelperExited(term) && !final(table).spec_contains(pid) && (forall|
                q: u64,
            |
                q != pid ==> (#[trigger] final(table).spec_contains(q)) == old(table).spec_contains(q)) && (forall|q: u64|
                q != pid && old(table).spec_contains(q) ==> (#[trigger] final(table).entry_of(q))
                    == old(table).entry_of(q)),
        },
{
    let exited: ChildTermination = match table.get(pid) {
        Some(PidEntry::Helper(_, _)) => {
            return HelperWaitOutcome::KeepWaiting;
        },
        Some(PidEntry::HelperExited(term)) => *term,
        _ => {
            proof {
                assert(false);
            }
            vstd::pervasive::unreached()
        },
    };
    table.remove(pid);
    HelperWaitOutcome::Done(exited)
}

/// First backoff sleep of the helper wait, in microseconds.
pub const HELPER_BACKOFF_STEP_US: u64 = 50;

/// Longest backoff sleep of the helper wait, in microseconds.
pub const HELPER_BACKOFF_CAP_US: u64 = 10000;

/// The helper wait's exponential backoff: the sleep starts at one step,
/// doubles each round, and is capped; once the cap is reached the counter
/// stops growing.  Returns the sleep in microseconds and the next counter.
pub fn next_backoff(counter: u64) -> (r: (u64, u64))
    requires
        1 <= counter <= 400,
    ensures
        r.0 == if counter * HELPER_BACKOFF_STEP_US < HELPER_BACKOFF_CAP_US {
            counter * HELPER_BACKOFF_STEP_US
        } else {
            HELPER_BACKOFF_CAP_US as int
        },
        r.1 == if counter * HELPER_BACKOFF_STEP_US < HELPER_BACKOFF_CAP_US {
            2 * counter
        } else {
            counter as int
        },
        1 <= r.1 <= 400,
        r.0 <= HELPER_BACKOFF_CAP_US,
{
    let d = counter * HELPER_BACKOFF_STEP_US;
    if d < HELPER_BACKOFF_CAP_US {
        (d, counter * 2)
    } else {
        (HELPER_BACKOFF_CAP_US, counter)
    }
}

/// Two tables agreeing on membership of `q` pick the same entry for `q`
/// whenever entries with equal PIDs are equal across them.
proof fn lemma_entry_stable(a: Seq<(u64, PidEntry)>, b: Seq<(u64, PidEntry)>, q: u64)
    requires
        holds_pid(a, q),
        holds_pid(b, q),
        forall|k: int, k2: int|
            0 <= k < a.len() && 0 <= k2 < b.len() && (#[trigger] a[k]).0 == (#[trigger] b[k2]).0
                ==> a[k] == b[k2],
    ensures
        a[pid_index(a, q)].1 == b[pid_index(b, q)].1,
{
    let k = pid_index(a, q);
    let k2 = pid_index(b, q);
    assert(0 <= k < a.len() && a[k].0 == q);
    assert(0 <= k2 < b.len() && b[k2].0 == q);
}

proof fn lemma_remove_entry(pre: Seq<(u64, PidEntry)>, post: Seq<(u64, PidEntry)>, i: int, pid: u64)
    requires
        0 <= i < pre.len(),
        pre[i].0 == pid,
        pids_unique(pre),
        post == pre.remove(i),
    ensures
        pids_unique(post),
        !holds_pid(post, pid),
        forall|q: u64| q != pid ==> (#[trigger] holds_pid(post, q)) == holds_pid(pre, q),
        forall|k: int, k2: int|
            0 <= k < post.len() && 0 <= k2 < pre.len() && (#[trigger] post[k]).0 == (
            #[trigger] pre[k2]).0 ==> post[k] == pre[k2],
        forall|k: int, k2: int|
            0 <= k < pre.len() && 0 <= k2 < post.len() && (#[trigger] pre[k]).0 == (
            #[trigger] post[k2]).0 ==> pre[k] == post[k2],
{
    assert forall|i2: int, j2: int|
        0 <= i2 < j2 < post.len() implies (#[trigger] post[i2]).0 != (#[trigger] post[j2]).0 by {
        let a = if i2 < i {
            i2
        } else {
            i2 + 1
        };
        let b = if j2 < i {
            j2
        } else {
            j2 + 1
        };
        assert(post[i2] == pre[a]);
        assert(post[j2] == pre[b]);
        assert(pre[a].0 != pre[b].0);
    }
    assert forall|k: int| 0 <= k < post.len() implies (#[trigger] post[k]).0 != pid by {
        let a = if k < i {
            k
        } else {
            k + 1
        };
        assert(post[k] == pre[a]);
        if a != i {
            if a < i {
                assert(pre[a].0 != pre[i].0);
            } else {
                assert(pre[i].0 != pre[a].0);
            }
        }
    }
    if holds_pid(post, pid) {
        let k = pid_index(post, pid);
    }
    assert forall|q: u64|
        q != pid implies (#[trigger] holds_pid(post, q)) == holds_pid(pre, q) by {
        if holds_pid(post, q) {
            let k = pid_index(post, q);
            let a = if k < i {
                k
            } else {
                k + 1
            };
            assert(pre[a] == post[k]);
            assert(holds_pid(pre, q));
        }
        if holds_pid(pre, q) {
            let k = pid_index(pre, q);
            assert(0 <= k < pre.len() && pre[k].0 == q);
            let b = if k < i {
                k
            } else {
                k - 1
            };
            assert(post[b] == pre[k]);
            assert(holds_pid(post, q));
        }
    }
    assert forall|k: int, k2: int|
        0 <= k < post.len() && 0 <= k2 < pre.len() && (#[trigger] post[k]).0 == (
        #[trigger] pre[k2]).0 implies post[k] == pre[k2] by {
        let a = if k < i {
            k
        } else {
            k + 1
        };
        assert(post[k] == pre[a]);
        if a != k2 {
            if a < k2 {
                assert(pre[a].0 != pre[k2].0);
            } else {
                assert(pre[k2].0 != pre[a].0);
            }
        }
    }
}

proof fn lemma_push_entry(
    mid: Seq<(u64, PidEntry)>,
    post: Seq<(u64, PidEntry)>,
    pid: u64,
    entry: PidEntry,
)
    requires
        pids_unique(mid),
        !holds_pid(mid, pid),
        post == mid.push((pid, entry)),
    ensures
        pids_unique(post),
        holds_pid(post, pid),
        post[pid_index(post, pid)].1 == entry,
        forall|q: u64| q != pid ==> (#[trigger] holds_pid(post, q)) == holds_pid(mid, q),
        forall|k: int, k2: int|
            0 <= k < post.len() && 0 <= k2 < mid.len() && (#[trigger] post[k]).0 == (
            #[trigger] mid[k2]).0 ==> post[k] == mid[k2],
        forall|k: int, k2: int|
            0 <= k < mid.len() && 0 <= k2 < post.len() && (#[trigger] mid[k]).0 == (
            #[trigger] post[k2]).0 ==> mid[k] == post[k2],
{
    assert(post[mid.len() as int].0 == pid);
    assert(holds_pid(post, pid));
    assert forall|k: int| 0 <= k < mid.len() implies (#[trigger] mid[k]).0 != pid by {
        if mid[k].0 == pid {
            assert(holds_pid(mid, pid));
        }
    }
    assert forall|i2: int, j2: int|
        0 <= i2 < j2 < post.len() implies (#[trigger] post[i2]).0 != (#[trigger] post[j2]).0 by {
        if j2 < mid.len() {
            assert(post[i2] == mid[i2]);
            assert(post[j2] == mid[j2]);
        } else {
            assert(post[i2] == mid[i2]);
            assert(post[j2].0 == pid);
        }
    }
    let w = pid_index(post, pid);
    assert(0 <= w < post.len() && post[w].0 == pid);
    if w < mid.len() {
        assert(post[w] == mid[w]);
    }
    assert forall|q: u64|
        q != pid implies (#[trigger] holds_pid(post, q)) == holds_pid(mid, q) by {
        if holds_pid(post, q) {
            let k = pid_index(post, q);
            assert(0 <= k < post.len() && post[k].0 == q);
            assert(k < mid.len());
            assert(mid[k] == post[k]);
            assert(holds_pid(mid, q));
        }
        if holds_pid(mid, q) {
            let k = pid_index(mid, q);
            assert(post[k] == mid[k]);
            assert(holds_pid(post, q));
        }
    }
    assert forall|k: int, k2: int|
        0 <= k < post.len() && 0 <= k2 < mid.len() && (#[trigger] post[k]).0 == (
        #[trigger] mid[k2]).0 implies post[k] == mid[k2] by {
        if k < mid.len() {
            assert(post[k] == mid[k]);
            if k != k2 {
                if k < k2 {
                    assert(mid[k].0 != mid[k2].0);
                } else {
                    assert(mid[k2].0 != mid[k].0);
                }
            }
        } else {
            assert(post[k].0 == pid);
            assert(mid[k2].0 != pid);
        }
    }
}

} // verus!
