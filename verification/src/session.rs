//! The bookkeeping of interactive agent sessions: each session's agent,
//! state, conversation history and activity times. The terminals the
//! sessions run in are driven outside; their times come in as text.

use vstd::prelude::*;

use crate::text::{str_eq, trim_str, trim_ws};

verus! {

/// Who wrote an entry of a session's conversation.
#[derive(Debug, Clone, Copy, PartialEq, Eq, Structural)]
pub enum Role {
    User,
    Agent,
}

/// The state of a managed agent session.
#[derive(Debug, Clone, Copy, PartialEq, Eq, Structural)]
pub enum SessionState {
    Idle,
    Processing,
    Completed,
    Error,
}

/// One entry of a session's conversation.
#[derive(Debug)]
pub struct SessionEntry {
    pub role: Role,
    pub content: String,
    pub timestamp: String,
}

pub struct EntryView {
    pub role: Role,
    pub content: Seq<char>,
    pub timestamp: Seq<char>,
}

impl View for SessionEntry {
    type V = EntryView;

    open spec fn view(&self) -> EntryView {
        EntryView { role: self.role, content: self.content@, timestamp: self.timestamp@ }
    }
}

pub open spec fn entries_view(es: Seq<SessionEntry>) -> Seq<EntryView> {
    es.map_values(|e: SessionEntry| e@)
}

/// What a session listing shows of a session.
#[derive(Debug)]
pub struct SessionSummary {
    pub id: String,
    pub agent_name: String,
    pub state: SessionState,
    pub created_at: String,
    pub last_activity: String,
    pub entry_count: usize,
}

/// One session as the book keeps it.
#[derive(Debug)]
pub struct SessionRecord {
    pub id: String,
    pub agent_name: String,
    pub state: SessionState,
    pub history: Vec<SessionEntry>,
    pub created_at: String,
    pub last_activity: String,
}

pub struct RecordView {
    pub id: Seq<char>,
    pub agent_name: Seq<char>,
    pub state: SessionState,
    pub history: Seq<EntryView>,
    pub created_at: Seq<char>,
    pub last_activity: Seq<char>,
}

impl View for SessionRecord {
    type V = RecordView;

    open spec fn view(&self) -> RecordView {
        RecordView {
            id: self.id@,
            agent_name: self.agent_name@,
            state: self.state,
            history: entries_view(self.history@),
            created_at: self.created_at@,
            last_activity: self.last_activity@,
        }
    }
}

/// Why a session operation was refused.
#[derive(Debug, Clone, Copy, PartialEq, Eq, Structural)]
pub enum SessionError {
    /// No session has that id.
    NotFound,
}

/// The index of the session `id` among `rs`, or -1.
pub open spec fn index_of(rs: Seq<RecordView>, id: Seq<char>) -> int {
    if exists|i: int| 0 <= i < rs.len() && rs[i].id == id {
        choose|i: int| 0 <= i < rs.len() && rs[i].id == id
    } else {
        -1
    }
}

/// The sessions, each id once.
pub struct SessionBook {
    sessions: Vec<SessionRecord>,
}

impl SessionBook {
    pub closed spec fn records(&self) -> Seq<RecordView> {
        self.sessions@.map_values(|r: SessionRecord| r@)
    }

    /// No id occurs twice.
    pub open spec fn wf(&self) -> bool {
        forall|i: int, j: int|
            0 <= i < j < self.records().len() ==> #[trigger] self.records()[i].id
                != #[trigger] self.records()[j].id
    }

    /// The session with `id`, if the book has it.
    pub open spec fn session(&self, id: Seq<char>) -> Option<RecordView> {
        let i = index_of(self.records(), id);
        if i >= 0 {
            Some(self.records()[i])
        } else {
            None
        }
    }

    /// No sessions.
    pub fn new() -> (r: SessionBook)
        ensures
            r.wf(),
            r.records() == Seq::<RecordView>::empty(),
    {
        let r = SessionBook { sessions: Vec::new() };
        assert(r.records() =~= Seq::<RecordView>::empty());
        r
    }

    fn find(&self, id: &str) -> (r: Option<usize>)
        requires
            self.wf(),
        ensures
            match r {
                Some(k) => k < self.records().len() && self.records()[k as int].id == id@ && index_of(
                    self.records(),
                    id@,
                ) == k,
                None => index_of(self.records(), id@) == -1,
            },
    {
        let ghost rs = self.records();
        let mut i: usize = 0;
        while i < self.sessions.len()
            invariant
                i <= self.sessions.len(),
                rs == self.records(),
                self.wf(),
                forall|j: int| 0 <= j < i ==> rs[j].id != id@,
            decreases self.sessions.len() - i,
        {
            if str_eq(self.sessions[i].id.as_str(), id) {
                assert(rs[i as int].id == id@);
                proof {
                    let c = choose|c: int| 0 <= c < rs.len() && rs[c].id == id@;
                    if c != i {
                        assert(self.wf());
                        if c < i {
                            assert(rs[c].id != rs[i as int].id);
                        } else {
                            assert(rs[i as int].id != rs[c].id);
                        }
                    }
                }
                return Some(i);
            }
            i += 1;
        }
        None
    }

    /// Registers a new idle session without history, created (and last
    /// active) at `now`; a session with the same id is replaced.
    pub fn open_session(&mut self, id: String, agent_name: String, now: String)
        requires
            old(self).wf(),
        ensures
            final(self).wf(),
            final(self).session(id@) == Some(
                RecordView {
                    id: id@,
                    agent_name: agent_name@,
                    state: SessionState::Idle,
                    history: Seq::empty(),
                    created_at: now@,
                    last_activity: now@,
                },
            ),
            forall|other: Seq<char>| other != id@ ==> #[trigger] final(self).session(other) == old(
                self,
            ).session(other),
    {
        let ghost rs = self.records();
        let ghost id_v = id@;
        let found = self.find(id.as_str());
        let record = SessionRecord {
            id,
            agent_name,
            state: SessionState::Idle,
            history: Vec::new(),
            created_at: now.clone(),
            last_activity: now,
        };
        let ghost rv = record@;
        assert(rv.history =~= Seq::<EntryView>::empty());
        match found {
            Some(k) => {
                self.sessions.set(k, record);
                let ghost nr = self.records();
                assert(nr =~= rs.update(k as int, rv));
                proof {
                    self.lemma_index_update(rs, k as int, rv);
                }
            },
            None => {
                self.sessions.push(record);
                let ghost nr = self.records();
                assert(nr =~= rs.push(rv));
                proof {
                    self.lemma_index_push(rs, rv);
                }
            },
        }
    }

    proof fn lemma_index_update(&self, rs: Seq<RecordView>, k: int, rv: RecordView)
        requires
            0 <= k < rs.len(),
            rs[k].id == rv.id,
            self.records() == rs.update(k, rv),
            forall|i: int, j: int| 0 <= i < j < rs.len() ==> #[trigger] rs[i].id != #[trigger] rs[j].id,
        ensures
            self.wf(),
            self.session(rv.id) == Some(rv),
            forall|other: Seq<char>|
                other != rv.id ==> #[trigger] self.session(other) == (if index_of(rs, other) >= 0 {
                    Some(rs[index_of(rs, other)])
                } else {
                    None
                }),
    {
        let nr = self.records();
        assert forall|i: int, j: int| 0 <= i < j < nr.len() implies #[trigger] nr[i].id != #[trigger] nr[j].id by {
            assert(rs[i].id != rs[j].id);
        }
        let c = choose|c: int| 0 <= c < nr.len() && nr[c].id == rv.id;
        assert(nr[k].id == rv.id);
        if c != k {
            if c < k {
                assert(nr[c].id != nr[k].id);
            } else {
                assert(nr[k].id != nr[c].id);
            }
        }
        assert forall|other: Seq<char>| other != rv.id implies #[trigger] self.session(other) == (if index_of(
            rs,
            other,
        ) >= 0 {
            Some(rs[index_of(rs, other)])
        } else {
            None
        }) by {
            if exists|i: int| 0 <= i < nr.len() && nr[i].id == other {
                let a = choose|i: int| 0 <= i < nr.len() && nr[i].id == other;
                assert(a != k);
                assert(rs[a].id == other);
                let b = choose|i: int| 0 <= i < rs.len() && rs[i].id == other;
                if a != b {
                    if a < b {
                        assert(rs[a].id != rs[b].id);
                    } else {
                        assert(rs[b].id != rs[a].id);
                    }
                }
            } else {
                if exists|i: int| 0 <= i < rs.len() && rs[i].id == other {
                    let b = choose|i: int| 0 <= i < rs.len() && rs[i].id == other;
                    assert(b != k);
                    assert(nr[b].id == other);
                }
            }
        }
    }

    proof fn lemma_index_push(&self, rs: Seq<RecordView>, rv: RecordView)
        requires
            forall|i: int| 0 <= i < rs.len() ==> rs[i].id != rv.id,
            self.records() == rs.push(rv),
            forall|i: int, j: int| 0 <= i < j < rs.len() ==> #[trigger] rs[i].id != #[trigger] rs[j].id,
        ensures
            self.wf(),
            self.session(rv.id) == Some(rv),
            forall|other: Seq<char>|
                other != rv.id ==> #[trigger] self.session(other) == (if index_of(rs, other) >= 0 {
                    Some(rs[index_of(rs, other)])
                } else {
                    None
                }),
    {
        let nr = self.records();
        assert forall|i: int, j: int| 0 <= i < j < nr.len() implies #[trigger] nr[i].id != #[trigger] nr[j].id by {
            if j == rs.len() {
                assert(rs[i].id != rv.id);
            } else {
                assert(rs[i].id != rs[j].id);
            }
        }
        let c = choose|c: int| 0 <= c < nr.len() && nr[c].id == rv.id;
        assert(nr[rs.len() as int].id == rv.id);
        if c < rs.len() {
            assert(rs[c].id != rv.id);
        }
        assert forall|other: Seq<char>| other != rv.id implies #[trigger] self.session(other) == (if index_of(
            rs,
            other,
        ) >= 0 {
            Some(rs[index_of(rs, other)])
        } else {
            None
        }) by {
            if exists|i: int| 0 <= i < nr.len() && nr[i].id == other {
                let a = choose|i: int| 0 <= i < nr.len() && nr[i].id == other;
                assert(a < rs.len());
                assert(rs[a].id == other);
                let b = choose|i: int| 0 <= i < rs.len() && rs[i].id == other;
                if a != b {
                    if a < b {
                        assert(rs[a].id != rs[b].id);
                    } else {
                        assert(rs[b].id != rs[a].id);
                    }
                }
            } else {
                if exists|i: int| 0 <= i < rs.len() && rs[i].id == other {
                    let b = choose|i: int| 0 <= i < rs.len() && rs[i].id == other;
                    assert(nr[b].id == other);
                }
            }
        }
    }
}

/// A session once `prompt` was sent at `now`: processing, with the prompt
/// appended to its history.
pub open spec fn prompted(r: RecordView, prompt: Seq<char>, now: Seq<char>) -> RecordView {
    RecordView {
        state: SessionState::Processing,
        last_activity: now,
        history: r.history.push(EntryView { role: Role::User, content: prompt, timestamp: now }),
        ..r
    }
}

/// A session once its agent answered `response` at `now`: idle again, with
/// the answer appended to its history.
pub open spec fn answered(r: RecordView, response: Seq<char>, now: Seq<char>) -> RecordView {
    RecordView {
        state: SessionState::Idle,
        last_activity: now,
        history: r.history.push(EntryView { role: Role::Agent, content: response, timestamp: now }),
        ..r
    }
}

pub struct SummaryView {
    pub id: Seq<char>,
    pub agent_name: Seq<char>,
    pub state: SessionState,
    pub created_at: Seq<char>,
    pub last_activity: Seq<char>,
    pub entry_count: nat,
}

impl View for SessionSummary {
    type V = SummaryView;

    open spec fn view(&self) -> SummaryView {
        SummaryView {
            id: self.id@,
            agent_name: self.agent_name@,
            state: self.state,
            created_at: self.created_at@,
            last_activity: self.last_activity@,
            entry_count: self.entry_count as nat,
        }
    }
}

/// What a listing shows of a session.
pub open spec fn summary_of(r: RecordView) -> SummaryView {
    SummaryView {
        id: r.id,
        agent_name: r.agent_name,
        state: r.state,
        created_at: r.created_at,
        last_activity: r.last_activity,
        entry_count: r.history.len(),
    }
}

impl SessionEntry {
    /// A copy of the entry.
    pub fn duplicate(&self) -> (r: SessionEntry)
        ensures
            r@ == self@,
    {
        SessionEntry { role: self.role, content: self.content.clone(), timestamp: self.timestamp.clone() }
    }
}

impl SessionRecord {
    fn note_prompt(&mut self, prompt: String, now: String)
        ensures
            final(self)@ == prompted(old(self)@, prompt@, now@),
    {
        let ghost before = entries_view(self.history@);
        self.state = SessionState::Processing;
        self.last_activity = now.clone();
        self.history.push(SessionEntry { role: Role::User, content: prompt, timestamp: now });
        assert(entries_view(self.history@) =~= before.push(self.history@[self.history.len() - 1]@));
    }

    fn note_answer(&mut self, response: String, now: String)
        ensures
            final(self)@ == answered(old(self)@, response@, now@),
    {
        let ghost before = entries_view(self.history@);
        self.state = SessionState::Idle;
        self.last_activity = now.clone();
        self.history.push(SessionEntry { role: Role::Agent, content: response, timestamp: now });
        assert(entries_view(self.history@) =~= before.push(self.history@[self.history.len() - 1]@));
    }
}

impl SessionBook {
    /// Records that `prompt` was sent to session `id` at `now`; refused
    /// when the book has no such session.
    pub fn begin_prompt(&mut self, id: &str, prompt: String, now: String) -> (r: Result<(), SessionError>)
        requires
            old(self).wf(),
        ensures
            final(self).wf(),
            match old(self).session(id@) {
                None => r == Err::<(), SessionError>(SessionError::NotFound) && forall|x: Seq<char>|
                    #[trigger] final(self).session(x) == old(self).session(x),
                Some(rec) => r is Ok && final(self).session(id@) == Some(prompted(rec, prompt@, now@))
                    && forall|x: Seq<char>| x != id@ ==> #[trigger] final(self).session(x) == old(
                    self,
                ).session(x),
            },
    {
        let ghost rs = self.records();
        match self.find(id) {
            None => Err(SessionError::NotFound),
            Some(k) => {
                let ghost nv = prompted(rs[k as int], prompt@, now@);
                self.sessions[k].note_prompt(prompt, now);
                assert(self.records() =~= rs.update(k as int, nv));
                proof {
                    self.lemma_index_update(rs, k as int, nv);
                }
                Ok(())
            },
        }
    }

    /// Records that session `id` answered `response` at `now`: the answer is
    /// the response trimmed of surrounding white space, recorded in the
    /// history (nothing is recorded when the session is gone by then) and
    /// returned.
    pub fn finish_prompt(&mut self, id: &str, response: &str, now: String) -> (text: String)
        requires
            old(self).wf(),
        ensures
            final(self).wf(),
            text@ == trim_ws(response@),
            match old(self).session(id@) {
                None => forall|x: Seq<char>| #[trigger] final(self).session(x) == old(self).session(x),
                Some(rec) => final(self).session(id@) == Some(answered(rec, text@, now@)) && forall|
                    x: Seq<char>,
                | x != id@ ==> #[trigger] final(self).session(x) == old(self).session(x),
            },
    {
        let text = trim_str(response);
        let ghost rs = self.records();
        match self.find(id) {
            None => {},
            Some(k) => {
                let ghost nv = answered(rs[k as int], text@, now@);
                self.sessions[k].note_answer(text.clone(), now);
                assert(self.records() =~= rs.update(k as int, nv));
                proof {
                    self.lemma_index_update(rs, k as int, nv);
                }
            },
        }
        text
    }

    /// The conversation of session `id`.
    pub fn get_history(&self, id: &str) -> (r: Result<Vec<SessionEntry>, SessionError>)
        requires
            self.wf(),
        ensures
            match self.session(id@) {
                None => r == Err::<Vec<SessionEntry>, SessionError>(SessionError::NotFound),
                Some(rec) => r is Ok && entries_view(r->Ok_0@) == rec.history,
            },
    {
        match self.find(id) {
            None => Err(SessionError::NotFound),
            Some(k) => {
                let h = &self.sessions[k].history;
                let mut out: Vec<SessionEntry> = Vec::new();
                let mut i: usize = 0;
                while i < h.len()
                    invariant
                        i <= h.len(),
                        entries_view(out@) == entries_view(h@).take(i as int),
                    decreases h.len() - i,
                {
                    let ghost before = entries_view(out@);
                    out.push(h[i].duplicate());
                    assert(entries_view(out@) =~= before.push(entries_view(h@)[i as int]));
                    assert(entries_view(h@).take(i + 1) =~= entries_view(h@).take(i as int).push(
                        entries_view(h@)[i as int],
                    ));
                    i += 1;
                }
                assert(entries_view(h@).take(h.len() as int) =~= entries_view(h@));
                Ok(out)
            },
        }
    }

    /// A summary of every session, in the order they were created.
    pub fn list_sessions(&self) -> (r: Vec<SessionSummary>)
        ensures
            r@.map_values(|x: SessionSummary| x@) == self.records().map_values(|x: RecordView| summary_of(x)),
    {
        let ghost rs = self.records();
        let mut out: Vec<SessionSummary> = Vec::new();
        let mut i: usize = 0;
        while i < self.sessions.len()
            invariant
                i <= self.sessions.len(),
                rs == self.records(),
                out@.map_values(|x: SessionSummary| x@) == rs.take(i as int).map_values(
                    |x: RecordView| summary_of(x),
                ),
            decreases self.sessions.len() - i,
        {
            let s = &self.sessions[i];
            let ghost before = out@.map_values(|x: SessionSummary| x@);
            out.push(
                SessionSummary {
                    id: s.id.clone(),
                    agent_name: s.agent_name.clone(),
                    state: s.state,
                    created_at: s.created_at.clone(),
                    last_activity: s.last_activity.clone(),
                    entry_count: s.history.len(),
                },
            );
            assert(rs[i as int] == s@);
            assert(out@.map_values(|x: SessionSummary| x@) =~= before.push(summary_of(rs[i as int])));
            assert(rs.take(i + 1).map_values(|x: RecordView| summary_of(x)) =~= rs.take(i as int).map_values(
                |x: RecordView| summary_of(x),
            ).push(summary_of(rs[i as int])));
            i += 1;
        }
        assert(rs.take(rs.len() as int) =~= rs);
        out
    }

    /// Whether the book has session `id`.
    pub fn contains(&self, id: &str) -> (r: bool)
        requires
            self.wf(),
        ensures
            r == self.session(id@) is Some,
    {
        self.find(id).is_some()
    }

    /// Forgets session `id`.
    pub fn close_session(&mut self, id: &str)
        requires
            old(self).wf(),
        ensures
            final(self).wf(),
            final(self).session(id@) is None,
            forall|x: Seq<char>| x != id@ ==> #[trigger] final(self).session(x) == old(self).session(x),
    {
        let ghost rs = self.records();
        match self.find(id) {
            None => {},
            Some(k) => {
                self.sessions.remove(k);
                let ghost nr = self.records();
                assert(nr =~= rs.remove(k as int));
                assert forall|i: int, j: int| 0 <= i < j < nr.len() implies #[trigger] nr[i].id
                    != #[trigger] nr[j].id by {
                    let a = if i < k { i } else { i + 1 };
                    let b = if j < k { j } else { j + 1 };
                    assert(nr[i] == rs[a]);
                    assert(nr[j] == rs[b]);
                    assert(rs[a].id != rs[b].id);
                }
                assert forall|x: Seq<char>| x != id@ implies #[trigger] self.session(x) == old(self).session(x) by {
                    if exists|i: int| 0 <= i < nr.len() && nr[i].id == x {
                        let a = choose|i: int| 0 <= i < nr.len() && nr[i].id == x;
                        let oa = if a < k { a } else { a + 1 };
                        assert(rs[oa].id == x);
                        let b = choose|i: int| 0 <= i < rs.len() && rs[i].id == x;
                        if oa != b {
                            if oa < b {
                                assert(rs[oa].id != rs[b].id);
                            } else {
                                assert(rs[b].id != rs[oa].id);
                            }
                        }
                    } else {
                        if exists|i: int| 0 <= i < rs.len() && rs[i].id == x {
                            let b = choose|i: int| 0 <= i < rs.len() && rs[i].id == x;
                            assert(b != k);
                            let nb = if b < k { b } else { b - 1 };
                            assert(nr[nb].id == x);
                        }
                    }
                }
                proof {
                    let kk = k as int;
                    if exists|i: int| 0 <= i < nr.len() && nr[i].id == id@ {
                        let a = choose|i: int| 0 <= i < nr.len() && nr[i].id == id@;
                        let oa = if a < kk { a } else { a + 1 };
                        assert(rs[oa].id == id@);
                        if oa < kk {
                            assert(rs[oa].id != rs[kk].id);
                        } else {
                            assert(rs[kk].id != rs[oa].id);
                        }
                    }
                }
            },
        }
    }

    /// Forgets every session.
    pub fn close_all(&mut self)
        ensures
            final(self).wf(),
            final(self).records() == Seq::<RecordView>::empty(),
    {
        self.sessions = Vec::new();
        assert(self.records() =~= Seq::<RecordView>::empty());
    }
}

/// `chrono::Utc::now()`, written in RFC 3339 with `Z` for UTC and as many
/// fraction digits as needed (`SecondsFormat::AutoSi`), the form session
/// times are serialized in. The value rests on the clock: nothing is stated
/// of it (chrono panics only on a system clock set before 1970).
#[verifier::external_body]
fn now_timestamp() -> (r: String) {
    chrono::Utc::now().to_rfc3339_opts(chrono::SecondsFormat::AutoSi, true)
}

impl SessionBook {
    /// Registers a new idle session of `agent_name` under a fresh id,
    /// created now; returns the id.
    pub fn create_session(&mut self, agent_name: String) -> (id: String)
        requires
            old(self).wf(),
        ensures
            final(self).wf(),
            id@.len() == 36,
            exists|t: Seq<char>|
                final(self).session(id@) == Some(
                    RecordView {
                        id: id@,
                        agent_name: agent_name@,
                        state: SessionState::Idle,
                        history: Seq::empty(),
                        created_at: t,
                        last_activity: t,
                    },
                ),
            forall|other: Seq<char>| other != id@ ==> #[trigger] final(self).session(other) == old(
                self,
            ).session(other),
    {
        let id = crate::ids::new_session_id();
        let now = now_timestamp();
        let ghost t = now@;
        self.open_session(id.clone(), agent_name, now);
        assert(final(self).session(id@) == Some(
            RecordView {
                id: id@,
                agent_name: agent_name@,
                state: SessionState::Idle,
                history: Seq::empty(),
                created_at: t,
                last_activity: t,
            },
        ));
        id
    }

    /// Records that `prompt` was sent to session `id` now (see
    /// `begin_prompt`).
    pub fn record_prompt(&mut self, id: &str, prompt: String) -> (r: Result<(), SessionError>)
        requires
            old(self).wf(),
        ensures
            final(self).wf(),
            match old(self).session(id@) {
                None => r == Err::<(), SessionError>(SessionError::NotFound) && forall|x: Seq<char>|
                    #[trigger] final(self).session(x) == old(self).session(x),
                Some(rec) => r is Ok && (exists|t: Seq<char>|
                    final(self).session(id@) == Some(prompted(rec, prompt@, t))) && forall|x: Seq<char>|
                    x != id@ ==> #[trigger] final(self).session(x) == old(self).session(x),
            },
    {
        let now = now_timestamp();
        self.begin_prompt(id, prompt, now)
    }

    /// Records that session `id` answered `response` now, trimmed, and
    /// returns the trimmed answer (see `finish_prompt`).
    pub fn record_answer(&mut self, id: &str, response: &str) -> (text: String)
        requires
            old(self).wf(),
        ensures
            final(self).wf(),
            text@ == trim_ws(response@),
            match old(self).session(id@) {
                None => forall|x: Seq<char>| #[trigger] final(self).session(x) == old(self).session(x),
                Some(rec) => (exists|t: Seq<char>|
                    final(self).session(id@) == Some(answered(rec, text@, t))) && forall|x: Seq<char>|
                    x != id@ ==> #[trigger] final(self).session(x) == old(self).session(x),
            },
    {
        let now = now_timestamp();
        self.finish_prompt(id, response, now)
    }
}

/// A prompt and its answer add exactly two entries to a session's history,
/// the prompt and then the answer, and leave the session idle.
pub proof fn lemma_exchange_appends_prompt_then_answer(
    r: RecordView,
    prompt: Seq<char>,
    response: Seq<char>,
    sent_at: Seq<char>,
    answered_at: Seq<char>,
)
    ensures
        answered(prompted(r, prompt, sent_at), response, answered_at).history == r.history + seq![
            EntryView { role: Role::User, content: prompt, timestamp: sent_at },
            EntryView { role: Role::Agent, content: response, timestamp: answered_at },
        ],
        answered(prompted(r, prompt, sent_at), response, answered_at).state == SessionState::Idle,
        answered(prompted(r, prompt, sent_at), response, answered_at).id == r.id,
{
    assert(answered(prompted(r, prompt, sent_at), response, answered_at).history =~= r.history + seq![
        EntryView { role: Role::User, content: prompt, timestamp: sent_at },
        EntryView { role: Role::Agent, content: response, timestamp: answered_at },
    ]);
}

} // verus!
