//! The runtime's in-memory bookkeeping of active runs: which runs are
//! registered, the tmux panes and sessions each run owns, the agent
//! interactions waiting for an answer, and the hash of each run's last
//! persisted checkpoint.

use vstd::prelude::*;

use crate::counters::{count_entries, first_key_index, key_lookup, key_pred, lemma_key_lookup_push};
use crate::cursor::RuntimeStatus;
use crate::records::RunControlError;
use crate::strset::{contains_str, sorted_insert, sorted_remove, strictly_sorted};
use crate::text::str_eq;

verus! {

/// A set of names, kept in order.
#[derive(Debug)]
pub struct NameSet {
    names: Vec<String>,
}

impl NameSet {
    pub closed spec fn contents(&self) -> Set<Seq<char>> {
        self.names.deep_view().to_set()
    }

    pub closed spec fn wf(&self) -> bool {
        strictly_sorted(self.names.deep_view())
    }

/// The empty set.
    pub fn new() -> (r: NameSet)
        ensures
            r.wf(),
            r.contents() == Set::<Seq<char>>::empty(),
    {
        let r = NameSet { names: Vec::new() };
        assert(r.contents() =~= Set::<Seq<char>>::empty());
        r
    }

/// Whether `name` is in the set.
    pub fn contains(&self, name: &str) -> (r: bool)
        ensures
            r == self.contents().contains(name@),
    {
        contains_str(&self.names, name)
    }

    /// Adds `name`; returns whether it was new.
    pub fn insert(&mut self, name: &str) -> (added: bool)
        requires
            old(self).wf(),
        ensures
            final(self).wf(),
            added == !old(self).contents().contains(name@),
            final(self).contents() == old(self).contents().insert(name@),
    {
        let added = !contains_str(&self.names, name);
        sorted_insert(&mut self.names, name.to_owned());
        proof {
            assert(self.contents() =~= old(self).contents().insert(name@));
        }
        added
    }

    /// Removes `name`.
    pub fn remove(&mut self, name: &str)
        requires
            old(self).wf(),
        ensures
            final(self).wf(),
            final(self).contents() == old(self).contents().remove(name@),
    {
        sorted_remove(&mut self.names, name);
        proof {
            assert(self.contents() =~= old(self).contents().remove(name@));
        }
    }

    /// The names, in order.
    pub fn names(&self) -> (r: Vec<String>)
        ensures
            r.deep_view().to_set() == self.contents(),
    {
        crate::cursor::clone_strings(&self.names)
    }
}

/// The tmux panes and sessions a run created.
#[derive(Debug)]
pub struct OwnedTmuxTargets {
    pub pane_ids: NameSet,
    pub session_names: NameSet,
}

impl OwnedTmuxTargets {
    pub open spec fn wf(&self) -> bool {
        self.pane_ids.wf() && self.session_names.wf()
    }

/// No owned targets.
    pub fn new() -> (r: OwnedTmuxTargets)
        ensures
            r.wf(),
            r.pane_ids.contents() == Set::<Seq<char>>::empty(),
            r.session_names.contents() == Set::<Seq<char>>::empty(),
    {
        OwnedTmuxTargets { pane_ids: NameSet::new(), session_names: NameSet::new() }
    }

    /// Records a pane the run created, and its session when it has one.
    pub fn register_owned_tmux_target(&mut self, pane_id: &str, session_name: Option<&str>)
        requires
            old(self).wf(),
        ensures
            final(self).wf(),
            final(self).pane_ids.contents() == old(self).pane_ids.contents().insert(pane_id@),
            final(self).session_names.contents() == match session_name {
                Some(s) => old(self).session_names.contents().insert(s@),
                None => old(self).session_names.contents(),
            },
    {
        let _ = self.pane_ids.insert(pane_id);
        if let Some(s) = session_name {
            let _ = self.session_names.insert(s);
        }
    }

/// Whether the run owns the pane.
    pub fn owns_tmux_pane(&self, pane_id: &str) -> (r: bool)
        ensures
            r == self.pane_ids.contents().contains(pane_id@),
    {
        self.pane_ids.contains(pane_id)
    }

/// Whether the run owns the session.
    pub fn owns_tmux_session(&self, session_name: &str) -> (r: bool)
        ensures
            r == self.session_names.contents().contains(session_name@),
    {
        self.session_names.contains(session_name)
    }
}

/// Why an interaction could not be registered.
#[derive(Debug, Clone, Copy, PartialEq, Eq, Structural)]
pub enum InteractionError {
    /// An interaction is already pending for the session.
    AlreadyPending,
}

/// The agent sessions of a run that wait for a user's answer.
#[derive(Debug)]
pub struct PendingInteractions {
    sessions: NameSet,
}

impl PendingInteractions {
    pub closed spec fn pending(&self) -> Set<Seq<char>> {
        self.sessions.contents()
    }

    pub closed spec fn wf(&self) -> bool {
        self.sessions.wf()
    }

/// No pending interactions.
    pub fn new() -> (r: PendingInteractions)
        ensures
            r.wf(),
            r.pending() == Set::<Seq<char>>::empty(),
    {
        PendingInteractions { sessions: NameSet::new() }
    }

    /// A session starts waiting; refused while it already waits.
    pub fn set_pending_interaction(&mut self, session_id: &str) -> (r: Result<(), InteractionError>)
        requires
            old(self).wf(),
        ensures
            final(self).wf(),
            old(self).pending().contains(session_id@) ==> r == Err::<(), InteractionError>(
                InteractionError::AlreadyPending,
            ) && final(self).pending() == old(self).pending(),
            !old(self).pending().contains(session_id@) ==> r is Ok && final(self).pending() == old(
                self,
            ).pending().insert(session_id@),
    {
        if self.sessions.contains(session_id) {
            return Err(InteractionError::AlreadyPending);
        }
        let _ = self.sessions.insert(session_id);
        Ok(())
    }

    /// The session stops waiting, answered or not.
    pub fn clear_pending_interaction(&mut self, session_id: &str)
        requires
            old(self).wf(),
        ensures
            final(self).wf(),
            final(self).pending() == old(self).pending().remove(session_id@),
    {
        self.sessions.remove(session_id);
    }

    /// An answer for a session: accepted once for a waiting session, which
    /// then stops waiting; refused as stale otherwise.
    pub fn resolve_interaction(&mut self, session_id: &str) -> (r: Result<(), RunControlError>)
        requires
            old(self).wf(),
        ensures
            final(self).wf(),
            old(self).pending().contains(session_id@) ==> r is Ok && final(self).pending() == old(
                self,
            ).pending().remove(session_id@),
            !old(self).pending().contains(session_id@) ==> r is Err && final(self).pending() == old(
                self,
            ).pending(),
            r is Err ==> r == Err::<(), RunControlError>(RunControlError::StaleInteractionSession),
    {
        if !self.sessions.contains(session_id) {
            return Err(RunControlError::StaleInteractionSession);
        }
        self.sessions.remove(session_id);
        Ok(())
    }
}

/// An answer resolves a waiting session exactly once: a second answer for
/// the same session is stale.
pub proof fn lemma_interaction_resolves_once(pending: Set<Seq<char>>, session_id: Seq<char>)
    requires
        pending.contains(session_id),
    ensures
        !pending.remove(session_id).contains(session_id),
        forall|other: Seq<char>| other != session_id ==> (#[trigger] pending.remove(session_id).contains(other)
            == pending.contains(other)),
{
}

/// The runs being executed.
#[derive(Debug)]
pub struct ActiveRuns {
    run_ids: NameSet,
}

impl ActiveRuns {
    pub closed spec fn active(&self) -> Set<Seq<char>> {
        self.run_ids.contents()
    }

    pub closed spec fn wf(&self) -> bool {
        self.run_ids.wf()
    }

/// No active runs.
    pub fn new() -> (r: ActiveRuns)
        ensures
            r.wf(),
            r.active() == Set::<Seq<char>>::empty(),
    {
        ActiveRuns { run_ids: NameSet::new() }
    }

    /// Registers a run; refused (returns false) while it is active already.
    pub fn register(&mut self, run_id: &str) -> (r: bool)
        requires
            old(self).wf(),
        ensures
            final(self).wf(),
            r == !old(self).active().contains(run_id@),
            final(self).active() == old(self).active().insert(run_id@),
    {
        self.run_ids.insert(run_id)
    }

/// Forgets the run.
    pub fn clear(&mut self, run_id: &str)
        requires
            old(self).wf(),
        ensures
            final(self).wf(),
            final(self).active() == old(self).active().remove(run_id@),
    {
        self.run_ids.remove(run_id)
    }

/// Whether the run is active.
    pub fn is_active(&self, run_id: &str) -> (r: bool)
        ensures
            r == self.active().contains(run_id@),
    {
        self.run_ids.contains(run_id)
    }

/// The ids of the active runs.
    pub fn active_run_ids(&self) -> (r: Vec<String>)
        ensures
            r.deep_view().to_set() == self.active(),
    {
        self.run_ids.names()
    }
}

/// The hash of the checkpoint last persisted, per run.
#[derive(Debug)]
pub struct PersistHashes {
    entries: Vec<(String, u32)>,
}

impl PersistHashes {
    pub closed spec fn lookup(&self, run_id: Seq<char>) -> Option<u32> {
        key_lookup(count_entries(self.entries@), run_id)
    }

/// No recorded hashes.
    pub fn new() -> (r: PersistHashes)
        ensures
            forall|k: Seq<char>| #[trigger] r.lookup(k) is None,
    {
        let r = PersistHashes { entries: Vec::new() };
        assert forall|k: Seq<char>| #[trigger] r.lookup(k) is None by {
            crate::routing::lemma_first_idx(key_pred(count_entries(r.entries@), k), 0, 0);
        }
        r
    }

    fn find(&self, run_id: &str) -> (r: Option<usize>)
        ensures
            match r {
                Some(i) => i < self.entries.len() && i as int == first_key_index(count_entries(self.entries@), run_id@),
                None => first_key_index(count_entries(self.entries@), run_id@) == -1,
            },
    {
        let ghost ev = count_entries(self.entries@);
        let ghost p = key_pred(ev, run_id@);
        let mut i: usize = 0;
        while i < self.entries.len()
            invariant
                i <= self.entries.len(),
                ev == count_entries(self.entries@),
                p == key_pred(ev, run_id@),
                forall|j: int| 0 <= j < i ==> !#[trigger] p(j),
            decreases self.entries.len() - i,
        {
            if str_eq(self.entries[i].0.as_str(), run_id) {
                proof {
                    assert(p(i as int));
                    crate::routing::lemma_first_idx_is(p, ev.len() as int, i as int);
                }
                return Some(i);
            }
            i += 1;
        }
        proof {
            crate::routing::lemma_first_idx(p, 0, ev.len() as int);
        }
        None
    }

/// The content hash last persisted for the run.
    pub fn last_persist_hash(&self, run_id: &str) -> (r: Option<u32>)
        ensures
            r == self.lookup(run_id@),
    {
        match self.find(run_id) {
            Some(i) => {
                proof {
                    crate::routing::lemma_first_idx(key_pred(count_entries(self.entries@), run_id@), 0, self.entries.len() as int);
                }
                Some(self.entries[i].1)
            },
            None => None,
        }
    }

    /// Records the hash of the checkpoint just persisted.
    pub fn record_persist_hash(&mut self, run_id: &str, hash: u32)
        ensures
            final(self).lookup(run_id@) == Some(hash),
            forall|k: Seq<char>| k != run_id@ ==> #[trigger] final(self).lookup(k) == old(self).lookup(k),
    {
        let ghost ov = count_entries(self.entries@);
        match self.find(run_id) {
            Some(i) => {
                let ghost oe = self.entries@;
                let name = run_id.to_owned();
                let ghost tup = (name, hash);
                self.entries.set(i, (name, hash));
                proof {
                    assert(self.entries@ == oe.update(i as int, tup));
                    assert(count_entries(self.entries@) =~= ov.update(i as int, (run_id@, hash)));
                    assert forall|k: Seq<char>| k != run_id@ implies #[trigger] self.lookup(k) == old(self).lookup(k) by {
                        crate::counters::lemma_key_update_at(ov, i as int, run_id@, hash, k);
                    }
                    crate::counters::lemma_key_update_at(ov, i as int, run_id@, hash, run_id@);
                }
            },
            None => {
                self.entries.push((run_id.to_owned(), hash));
                proof {
                    assert(count_entries(self.entries@) =~= ov.push((run_id@, hash)));
                    assert forall|k: Seq<char>| k != run_id@ implies #[trigger] self.lookup(k) == old(self).lookup(k) by {
                        lemma_key_lookup_push(ov, (run_id@, hash), k);
                    }
                    lemma_key_lookup_push(ov, (run_id@, hash), run_id@);
                    crate::routing::lemma_first_idx(key_pred(ov, run_id@), 0, ov.len() as int);
                }
            },
        }
    }

    /// Forgets the hash of a run.
    pub fn clear(&mut self, run_id: &str)
        ensures
            final(self).lookup(run_id@) is None,
            forall|k: Seq<char>| k != run_id@ ==> #[trigger] final(self).lookup(k) == old(self).lookup(k),
    {
        let ghost s = count_entries(self.entries@);
        let mut out: Vec<(String, u32)> = Vec::new();
        let mut i: usize = 0;
        while i < self.entries.len()
            invariant
                i <= self.entries.len(),
                s == count_entries(self.entries@),
                forall|k: Seq<char>| #[trigger] key_lookup(count_entries(out@), k) == if k == run_id@ {
                    None
                } else {
                    key_lookup(s.take(i as int), k)
                },
            decreases self.entries.len() - i,
        {
            let ghost ov = count_entries(out@);
            let ghost x = s[i as int];
            proof {
                assert(s.take(i + 1) =~= s.take(i as int).push(x));
            }
            if !str_eq(self.entries[i].0.as_str(), run_id) {
                let name = self.entries[i].0.clone();
                out.push((name, self.entries[i].1));
                proof {
                    assert(count_entries(out@) =~= ov.push(x));
                }
            }
            proof {
                crate::counters::lemma_key_lookup_without(s.take(i as int), ov, run_id@, x, count_entries(out@));
            }
            i += 1;
        }
        proof {
            assert(s.take(s.len() as int) =~= s);
        }
        self.entries = out;
    }
}

/// A checkpoint is written only when its content hash differs from the one
/// last persisted for the run.
pub fn should_persist(last: Option<u32>, content_hash: u32) -> (r: bool)
    ensures
        r == (last != Some(content_hash)),
{
    match last {
        Some(h) => h != content_hash,
        None => true,
    }
}

/// Whether a run may be resumed: a run in storage (`status` is its stored
/// status, `None` when there is no such run) that is running or paused and
/// not being executed already; resuming registers it as active.
pub open spec fn resume_verdict(status: Option<RuntimeStatus>, active: Set<Seq<char>>, run_id: Seq<char>) -> Result<
    (),
    RunControlError,
> {
    match status {
        None => Err(RunControlError::RunNotFound),
        Some(s) => if s != RuntimeStatus::Running && s != RuntimeStatus::Paused {
            Err(RunControlError::TerminalState)
        } else if active.contains(run_id) {
            Err(RunControlError::AlreadyActive)
        } else {
            Ok(())
        },
    }
}

/// The checks before a stored run is resumed (see `resume_verdict`); on
/// success the run is registered as active, otherwise nothing changes.
pub fn resume_guard(status: Option<RuntimeStatus>, runs: &mut ActiveRuns, run_id: &str) -> (r: Result<
    (),
    RunControlError,
>)
    requires
        old(runs).wf(),
    ensures
        final(runs).wf(),
        r == resume_verdict(status, old(runs).active(), run_id@),
        final(runs).active() == if r is Ok {
            old(runs).active().insert(run_id@)
        } else {
            old(runs).active()
        },
{
    match status {
        None => Err(RunControlError::RunNotFound),
        Some(s) => {
            if s != RuntimeStatus::Running && s != RuntimeStatus::Paused {
                return Err(RunControlError::TerminalState);
            }
            if runs.is_active(run_id) {
                return Err(RunControlError::AlreadyActive);
            }
            let fresh = runs.register(run_id);
            assert(fresh);
            Ok(())
        },
    }
}

} // verus!
