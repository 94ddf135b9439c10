//! Reaping the tmux sessions of runs that are no longer active: grouping the
//! registered sessions by the tmux server that owns them, and splitting each
//! group by whether that server still lists the session.

use vstd::prelude::*;

use crate::cursor::clone_strings;
use crate::graph::clone_opt_string;
use crate::panes::opt_str_eq;
use crate::strset::{contains_str, sorted_insert, strictly_sorted};
use crate::text::str_eq;

verus! {

/// How tmux is reached for a run: a command prefix, an optional socket and
/// the tmux binary.
pub struct TmuxInvocation {
    pub prefix: Vec<String>,
    pub socket: Option<String>,
    pub tmux_bin: String,
}

pub struct InvocationView {
    pub prefix: Seq<Seq<char>>,
    pub socket: Option<Seq<char>>,
    pub tmux_bin: Seq<char>,
}

impl View for TmuxInvocation {
    type V = InvocationView;

    open spec fn view(&self) -> InvocationView {
        InvocationView {
            prefix: self.prefix.deep_view(),
            socket: self.socket.deep_view(),
            tmux_bin: self.tmux_bin@,
        }
    }
}

/// Whether two lists of strings are equal.
pub fn strings_eq(a: &Vec<String>, b: &Vec<String>) -> (r: bool)
    ensures
        r == (a.deep_view() == b.deep_view()),
{
    if a.len() != b.len() {
        proof {
            if a.deep_view() == b.deep_view() {
                assert(a.deep_view().len() == b.deep_view().len());
            }
        }
        return false;
    }
    let mut i: usize = 0;
    while i < a.len()
        invariant
            i <= a.len(),
            a.len() == b.len(),
            forall|j: int| 0 <= j < i ==> a.deep_view()[j] == b.deep_view()[j],
        decreases a.len() - i,
    {
        if !str_eq(a[i].as_str(), b[i].as_str()) {
            assert(a.deep_view()[i as int] != b.deep_view()[i as int]);
            return false;
        }
        i += 1;
    }
    assert(a.deep_view() =~= b.deep_view());
    true
}

impl TmuxInvocation {
    /// A copy of this invocation.
    pub fn duplicate(&self) -> (r: TmuxInvocation)
        ensures
            r@ == self@,
    {
        TmuxInvocation {
            prefix: clone_strings(&self.prefix),
            socket: clone_opt_string(&self.socket),
            tmux_bin: self.tmux_bin.clone(),
        }
    }

    /// Whether both invocations reach the same tmux server the same way:
    /// equal prefixes, sockets and binaries.
    pub fn same_as(&self, other: &TmuxInvocation) -> (r: bool)
        ensures
            r == (self@ == other@),
    {
        strings_eq(&self.prefix, &other.prefix) && opt_str_eq(&self.socket, &other.socket)
            && str_eq(self.tmux_bin.as_str(), other.tmux_bin.as_str())
    }
}

/// A tmux session registered for a run that may be reaped; the invocation
/// is absent for sessions registered before invocations were stored.
pub struct ReapableSession {
    pub run_id: String,
    pub session_name: String,
    pub tmux_invocation: Option<TmuxInvocation>,
}

pub struct ReapableView {
    pub run_id: Seq<char>,
    pub session_name: Seq<char>,
    pub invocation: Option<InvocationView>,
}

impl View for ReapableSession {
    type V = ReapableView;

    open spec fn view(&self) -> ReapableView {
        ReapableView {
            run_id: self.run_id@,
            session_name: self.session_name@,
            invocation: match self.tmux_invocation {
                Some(i) => Some(i@),
                None => None,
            },
        }
    }
}

pub open spec fn reapable_view(s: Seq<ReapableSession>) -> Seq<ReapableView> {
    s.map_values(|x: ReapableSession| x@)
}

pub open spec fn resolved_view(r: Seq<(String, TmuxInvocation)>) -> Seq<(Seq<char>, InvocationView)> {
    r.map_values(|p: (String, TmuxInvocation)| (p.0@, p.1@))
}

/// The invocation rebuilt for `run_id`: the first entry for it.
pub open spec fn lookup_invocation(r: Seq<(Seq<char>, InvocationView)>, run_id: Seq<char>) -> Option<
    InvocationView,
>
    decreases r.len(),
{
    if r.len() == 0 {
        None
    } else if r[0].0 == run_id {
        Some(r[0].1)
    } else {
        lookup_invocation(r.drop_first(), run_id)
    }
}

/// The invocation that reaches a session: its own, else the one rebuilt for
/// its run; none when its run could not be loaded.
pub open spec fn effective_invocation(s: ReapableView, r: Seq<(Seq<char>, InvocationView)>) -> Option<
    InvocationView,
> {
    match s.invocation {
        Some(v) => Some(v),
        None => lookup_invocation(r, s.run_id),
    }
}

/// The invocation rebuilt for `run_id` among `resolved`, if any.
fn find_resolved(resolved: &Vec<(String, TmuxInvocation)>, run_id: &str) -> (r: Option<TmuxInvocation>)
    ensures
        match r {
            Some(v) => lookup_invocation(resolved_view(resolved@), run_id@) == Some(v@),
            None => lookup_invocation(resolved_view(resolved@), run_id@) is None,
        },
{
    let ghost rv = resolved_view(resolved@);
    let mut i: usize = 0;
    assert(rv.subrange(0, rv.len() as int) =~= rv);
    while i < resolved.len()
        invariant
            i <= resolved.len(),
            rv == resolved_view(resolved@),
            lookup_invocation(rv, run_id@) == lookup_invocation(
                rv.subrange(i as int, rv.len() as int),
                run_id@,
            ),
        decreases resolved.len() - i,
    {
        let ghost sub = rv.subrange(i as int, rv.len() as int);
        assert(sub[0] == rv[i as int]);
        if str_eq(resolved[i].0.as_str(), run_id) {
            return Some(resolved[i].1.duplicate());
        }
        assert(sub.drop_first() =~= rv.subrange(i + 1, rv.len() as int));
        i += 1;
    }
    None
}

/// A tmux session and the runs that registered it, in increasing order.
pub struct SessionRuns {
    pub session_name: String,
    pub run_ids: Vec<String>,
}

pub struct SessionRunsView {
    pub session_name: Seq<char>,
    pub run_ids: Seq<Seq<char>>,
}

impl View for SessionRuns {
    type V = SessionRunsView;

    open spec fn view(&self) -> SessionRunsView {
        SessionRunsView { session_name: self.session_name@, run_ids: self.run_ids.deep_view() }
    }
}

/// The sessions reached through one invocation.
pub struct ReapGroup {
    pub invocation: TmuxInvocation,
    pub sessions: Vec<SessionRuns>,
}

pub struct GroupView {
    pub invocation: InvocationView,
    pub sessions: Seq<SessionRunsView>,
}

impl View for ReapGroup {
    type V = GroupView;

    open spec fn view(&self) -> GroupView {
        GroupView {
            invocation: self.invocation@,
            sessions: self.sessions@.map_values(|s: SessionRuns| s@),
        }
    }
}

pub open spec fn groups_view(g: Seq<ReapGroup>) -> Seq<GroupView> {
    g.map_values(|x: ReapGroup| x@)
}

/// Each session once, each with at least one run, the runs in increasing
/// order; and at least one session.
pub open spec fn sessions_wf(ss: Seq<SessionRunsView>) -> bool {
    &&& ss.len() > 0
    &&& forall|a: int, b: int|
        0 <= a < b < ss.len() ==> #[trigger] ss[a].session_name != #[trigger] ss[b].session_name
    &&& forall|k: int|
        0 <= k < ss.len() ==> strictly_sorted(#[trigger] ss[k].run_ids) && ss[k].run_ids.len() > 0
}

/// Each invocation once, each with well-formed sessions.
pub open spec fn groups_wf(gs: Seq<GroupView>) -> bool {
    &&& forall|a: int, b: int|
        0 <= a < b < gs.len() ==> #[trigger] gs[a].invocation != #[trigger] gs[b].invocation
    &&& forall|g: int| 0 <= g < gs.len() ==> sessions_wf(#[trigger] gs[g].sessions)
}

/// `run` registered session `name` among `ss`.
pub open spec fn in_sessions(ss: Seq<SessionRunsView>, name: Seq<char>, run: Seq<char>) -> bool {
    exists|k: int|
        #![trigger ss[k]]
        0 <= k < ss.len() && ss[k].session_name == name && ss[k].run_ids.contains(run)
}

/// `run` registered session `name` on the server reached through `inv`.
pub open spec fn grouped(gs: Seq<GroupView>, inv: InvocationView, name: Seq<char>, run: Seq<char>) -> bool {
    exists|g: int|
        #![trigger gs[g]]
        0 <= g < gs.len() && gs[g].invocation == inv && in_sessions(gs[g].sessions, name, run)
}

impl SessionRuns {
    /// Adds `run` to the runs of this session.
    fn add_run(&mut self, run: String)
        requires
            strictly_sorted(old(self)@.run_ids),
        ensures
            final(self)@.session_name == old(self)@.session_name,
            strictly_sorted(final(self)@.run_ids),
            forall|x: Seq<char>| #[trigger]
                final(self)@.run_ids.contains(x) <==> (old(self)@.run_ids.contains(x) || x == run@),
    {
        sorted_insert(&mut self.run_ids, run);
    }
}

/// A session registered by the single run `run`.
fn single_session(name: &String, run: &String) -> (r: SessionRuns)
    ensures
        r@.session_name == name@,
        r@.run_ids == seq![run@],
{
    let mut runs: Vec<String> = Vec::new();
    runs.push(run.clone());
    assert(runs.deep_view() =~= seq![run@]);
    SessionRuns { session_name: name.clone(), run_ids: runs }
}

impl ReapGroup {
    /// Records that `run` registered session `name` on this group's server.
    fn add_session_run(&mut self, name: &String, run: &String)
        requires
            sessions_wf(old(self)@.sessions),
        ensures
            final(self)@.invocation == old(self)@.invocation,
            sessions_wf(final(self)@.sessions),
            forall|nm: Seq<char>, rn: Seq<char>|
                #![trigger in_sessions(final(self)@.sessions, nm, rn)]
                in_sessions(final(self)@.sessions, nm, rn) <==> (in_sessions(
                    old(self)@.sessions,
                    nm,
                    rn,
                ) || (nm == name@ && rn == run@)),
    {
        let ghost old_ss = self@.sessions;
        let mut k: usize = 0;
        while k < self.sessions.len() && !str_eq(
            self.sessions[k].session_name.as_str(),
            name.as_str(),
        )
            invariant
                k <= self.sessions.len(),
                self@.sessions == old_ss,
                forall|j: int| 0 <= j < k ==> old_ss[j].session_name != name@,
            decreases self.sessions.len() - k,
        {
            k += 1;
        }
        if k == self.sessions.len() {
            let fresh = single_session(name, run);
            self.sessions.push(fresh);
            let ghost ss = self@.sessions;
            assert(ss =~= old_ss.push(fresh@));
            assert(ss[old_ss.len() as int].run_ids.contains(run@)) by {
                assert(ss[old_ss.len() as int].run_ids[0] == run@);
            }
            assert forall|a: int, b: int|
                0 <= a < b < ss.len() implies #[trigger] ss[a].session_name
                != #[trigger] ss[b].session_name by {
                if b == old_ss.len() {
                    assert(old_ss[a].session_name != name@);
                } else {
                    assert(old_ss[a].session_name != old_ss[b].session_name);
                }
            }
            assert forall|j: int| 0 <= j < ss.len() implies strictly_sorted(
                #[trigger] ss[j].run_ids,
            ) && ss[j].run_ids.len() > 0 by {
                if j < old_ss.len() {
                    assert(ss[j] == old_ss[j]);
                }
            }
            assert forall|nm: Seq<char>, rn: Seq<char>|
                #![trigger in_sessions(ss, nm, rn)]
                in_sessions(ss, nm, rn) <==> (in_sessions(old_ss, nm, rn) || (nm == name@ && rn
                    == run@)) by {
                if in_sessions(ss, nm, rn) {
                    let j = choose|j: int|
                        #![trigger ss[j]]
                        0 <= j < ss.len() && ss[j].session_name == nm && ss[j].run_ids.contains(
                            rn,
                        );
                    if j < old_ss.len() {
                        assert(old_ss[j] == ss[j]);
                    } else {
                        let p = choose|p: int|
                            0 <= p < ss[j].run_ids.len() && ss[j].run_ids[p] == rn;
                        assert(ss[j].run_ids == seq![run@]);
                    }
                }
                if in_sessions(old_ss, nm, rn) {
                    let j = choose|j: int|
                        #![trigger old_ss[j]]
                        0 <= j < old_ss.len() && old_ss[j].session_name == nm
                            && old_ss[j].run_ids.contains(rn);
                    assert(ss[j] == old_ss[j]);
                }
                if nm == name@ && rn == run@ {
                    assert(ss[old_ss.len() as int].session_name == nm);
                }
            }
        } else {
            assert(strictly_sorted(old_ss[k as int].run_ids));
            assert(self.sessions@[k as int]@ == old_ss[k as int]);
            self.sessions[k].add_run(run.clone());
            let ghost ss = self@.sessions;
            assert(ss =~= old_ss.update(k as int, ss[k as int]));
            assert(ss[k as int].run_ids.contains(run@));
            assert forall|a: int, b: int|
                0 <= a < b < ss.len() implies #[trigger] ss[a].session_name
                != #[trigger] ss[b].session_name by {
                assert(old_ss[a].session_name != old_ss[b].session_name);
            }
            assert forall|j: int| 0 <= j < ss.len() implies strictly_sorted(
                #[trigger] ss[j].run_ids,
            ) && ss[j].run_ids.len() > 0 by {
                if j != k {
                    assert(ss[j] == old_ss[j]);
                }
            }
            assert forall|nm: Seq<char>, rn: Seq<char>|
                #![trigger in_sessions(ss, nm, rn)]
                in_sessions(ss, nm, rn) <==> (in_sessions(old_ss, nm, rn) || (nm == name@ && rn
                    == run@)) by {
                if in_sessions(ss, nm, rn) {
                    let j = choose|j: int|
                        #![trigger ss[j]]
                        0 <= j < ss.len() && ss[j].session_name == nm && ss[j].run_ids.contains(
                            rn,
                        );
                    if j != k {
                        assert(old_ss[j] == ss[j]);
                    } else if old_ss[j].run_ids.contains(rn) {
                    } else {
                        assert(rn == run@);
                    }
                }
                if in_sessions(old_ss, nm, rn) {
                    let j = choose|j: int|
                        #![trigger old_ss[j]]
                        0 <= j < old_ss.len() && old_ss[j].session_name == nm
                            && old_ss[j].run_ids.contains(rn);
                    if j != k {
                        assert(ss[j] == old_ss[j]);
                    } else {
                        assert(ss[j].run_ids.contains(rn));
                    }
                }
                if nm == name@ && rn == run@ {
                    assert(ss[k as int].session_name == nm);
                }
            }
        }
    }
}

/// Records that `run` registered session `name` on the server reached
/// through `inv`.
fn add_entry(groups: &mut Vec<ReapGroup>, inv: TmuxInvocation, name: &String, run: &String)
    requires
        groups_wf(groups_view(old(groups)@)),
    ensures
        groups_wf(groups_view(final(groups)@)),
        forall|iv: InvocationView, nm: Seq<char>, rn: Seq<char>|
            #![trigger grouped(groups_view(final(groups)@), iv, nm, rn)]
            grouped(groups_view(final(groups)@), iv, nm, rn) <==> (grouped(
                groups_view(old(groups)@),
                iv,
                nm,
                rn,
            ) || (iv == inv@ && nm == name@ && rn == run@)),
{
    let ghost old_gs = groups_view(groups@);
    let mut g: usize = 0;
    while g < groups.len() && !groups[g].invocation.same_as(&inv)
        invariant
            g <= groups.len(),
            groups_view(groups@) == old_gs,
            forall|j: int| 0 <= j < g ==> old_gs[j].invocation != inv@,
        decreases groups.len() - g,
    {
        g += 1;
    }
    let ghost inv_v = inv@;
    if g == groups.len() {
        let fresh = single_session(name, run);
        let mut sessions: Vec<SessionRuns> = Vec::new();
        sessions.push(fresh);
        let group = ReapGroup { invocation: inv, sessions };
        let ghost gv = group@;
        assert(gv.sessions =~= seq![fresh@]);
        assert(gv.sessions[0].run_ids.contains(run@)) by {
            assert(gv.sessions[0].run_ids[0] == run@);
        }
        assert(in_sessions(gv.sessions, name@, run@)) by {
            assert(gv.sessions[0].session_name == name@);
        }
        groups.push(group);
        let ghost gs = groups_view(groups@);
        assert(gs =~= old_gs.push(gv));
        assert forall|a: int, b: int|
            0 <= a < b < gs.len() implies #[trigger] gs[a].invocation
            != #[trigger] gs[b].invocation by {
            if b == old_gs.len() {
                assert(old_gs[a].invocation != inv_v);
            } else {
                assert(old_gs[a].invocation != old_gs[b].invocation);
            }
        }
        assert forall|j: int| 0 <= j < gs.len() implies sessions_wf(#[trigger] gs[j].sessions) by {
            if j < old_gs.len() {
                assert(gs[j] == old_gs[j]);
            } else {
                assert(gs[j] == gv);
                assert(strictly_sorted(gv.sessions[0].run_ids));
            }
        }
        assert forall|iv: InvocationView, nm: Seq<char>, rn: Seq<char>|
            #![trigger grouped(gs, iv, nm, rn)]
            grouped(gs, iv, nm, rn) <==> (grouped(old_gs, iv, nm, rn) || (iv == inv_v && nm
                == name@ && rn == run@)) by {
            if grouped(gs, iv, nm, rn) {
                let j = choose|j: int|
                    #![trigger gs[j]]
                    0 <= j < gs.len() && gs[j].invocation == iv && in_sessions(
                        gs[j].sessions,
                        nm,
                        rn,
                    );
                if j < old_gs.len() {
                    assert(old_gs[j] == gs[j]);
                } else {
                    let k = choose|k: int|
                        #![trigger gv.sessions[k]]
                        0 <= k < gv.sessions.len() && gv.sessions[k].session_name == nm
                            && gv.sessions[k].run_ids.contains(rn);
                    assert(k == 0);
                    assert(gv.sessions[0].run_ids == seq![run@]);
                }
            }
            if grouped(old_gs, iv, nm, rn) {
                let j = choose|j: int|
                    #![trigger old_gs[j]]
                    0 <= j < old_gs.len() && old_gs[j].invocation == iv && in_sessions(
                        old_gs[j].sessions,
                        nm,
                        rn,
                    );
                assert(gs[j] == old_gs[j]);
            }
            if iv == inv_v && nm == name@ && rn == run@ {
                assert(gs[old_gs.len() as int] == gv);
            }
        }
    } else {
        assert(groups@[g as int]@ == old_gs[g as int]);
        assert(sessions_wf(old_gs[g as int].sessions));
        assert(old_gs[g as int].invocation == inv_v);
        groups[g].add_session_run(name, run);
        let ghost gs = groups_view(groups@);
        let ghost ng = gs[g as int];
        assert(gs =~= old_gs.update(g as int, ng));
        assert(in_sessions(ng.sessions, name@, run@));
        assert forall|a: int, b: int|
            0 <= a < b < gs.len() implies #[trigger] gs[a].invocation
            != #[trigger] gs[b].invocation by {
            assert(old_gs[a].invocation != old_gs[b].invocation);
        }
        assert forall|j: int| 0 <= j < gs.len() implies sessions_wf(#[trigger] gs[j].sessions) by {
            if j != g {
                assert(gs[j] == old_gs[j]);
            }
        }
        assert forall|iv: InvocationView, nm: Seq<char>, rn: Seq<char>|
            #![trigger grouped(gs, iv, nm, rn)]
            grouped(gs, iv, nm, rn) <==> (grouped(old_gs, iv, nm, rn) || (iv == inv_v && nm
                == name@ && rn == run@)) by {
            if grouped(gs, iv, nm, rn) {
                let j = choose|j: int|
                    #![trigger gs[j]]
                    0 <= j < gs.len() && gs[j].invocation == iv && in_sessions(
                        gs[j].sessions,
                        nm,
                        rn,
                    );
                if j != g {
                    assert(old_gs[j] == gs[j]);
                } else if in_sessions(old_gs[j].sessions, nm, rn) {
                } else {
                    assert(nm == name@ && rn == run@);
                }
            }
            if grouped(old_gs, iv, nm, rn) {
                let j = choose|j: int|
                    #![trigger old_gs[j]]
                    0 <= j < old_gs.len() && old_gs[j].invocation == iv && in_sessions(
                        old_gs[j].sessions,
                        nm,
                        rn,
                    );
                if j != g {
                    assert(gs[j] == old_gs[j]);
                } else {
                    assert(in_sessions(gs[j].sessions, nm, rn));
                }
            }
            if iv == inv_v && nm == name@ && rn == run@ {
                assert(gs[g as int] == ng);
            }
        }
    }
}

/// Session `s` is reaped on the server reached through `inv`, as session
/// `name` of run `run`: its run is not active and `inv` reaches it.
pub open spec fn reaps(
    s: ReapableView,
    active: Seq<Seq<char>>,
    r: Seq<(Seq<char>, InvocationView)>,
    inv: InvocationView,
    name: Seq<char>,
    run: Seq<char>,
) -> bool {
    &&& !active.contains(s.run_id)
    &&& effective_invocation(s, r) == Some(inv)
    &&& s.session_name == name
    &&& s.run_id == run
}

/// One of the first `n` sessions is reaped as (`inv`, `name`, `run`).
pub open spec fn reapable_in(
    ss: Seq<ReapableView>,
    n: int,
    active: Seq<Seq<char>>,
    r: Seq<(Seq<char>, InvocationView)>,
    inv: InvocationView,
    name: Seq<char>,
    run: Seq<char>,
) -> bool {
    exists|k: int| 0 <= k < n && #[trigger] reaps(ss[k], active, r, inv, name, run)
}

/// The registered sessions of the runs that are not active, grouped by the
/// invocation that reaches them (their own, else the one rebuilt for their
/// run in `resolved`), each session with the set of runs that registered
/// it. Sessions with neither are left out.
pub fn group_terminal_sessions(
    reapable: &Vec<ReapableSession>,
    active_run_ids: &Vec<String>,
    resolved: &Vec<(String, TmuxInvocation)>,
) -> (r: Vec<ReapGroup>)
    ensures
        groups_wf(groups_view(r@)),
        forall|inv: InvocationView, name: Seq<char>, run: Seq<char>|
            #![trigger grouped(groups_view(r@), inv, name, run)]
            grouped(groups_view(r@), inv, name, run) <==> reapable_in(
                reapable_view(reapable@),
                reapable@.len() as int,
                active_run_ids.deep_view(),
                resolved_view(resolved@),
                inv,
                name,
                run,
            ),
{
    let ghost ss = reapable_view(reapable@);
    let ghost act = active_run_ids.deep_view();
    let ghost rv = resolved_view(resolved@);
    let mut groups: Vec<ReapGroup> = Vec::new();
    let mut i: usize = 0;
    while i < reapable.len()
        invariant
            i <= reapable.len(),
            ss == reapable_view(reapable@),
            act == active_run_ids.deep_view(),
            rv == resolved_view(resolved@),
            groups_wf(groups_view(groups@)),
            forall|inv: InvocationView, name: Seq<char>, run: Seq<char>|
                #![trigger grouped(groups_view(groups@), inv, name, run)]
                grouped(groups_view(groups@), inv, name, run) <==> reapable_in(
                    ss,
                    i as int,
                    act,
                    rv,
                    inv,
                    name,
                    run,
                ),
        decreases reapable.len() - i,
    {
        let s = &reapable[i];
        let ghost sv = ss[i as int];
        assert(sv == s@);
        let skip = contains_str(active_run_ids, s.run_id.as_str());
        let inv = if skip {
            None
        } else {
            match &s.tmux_invocation {
                Some(v) => Some(v.duplicate()),
                None => find_resolved(resolved, s.run_id.as_str()),
            }
        };
        match inv {
            None => {
                assert forall|iv: InvocationView, nm: Seq<char>, rn: Seq<char>|
                    #![trigger reapable_in(ss, i + 1, act, rv, iv, nm, rn)]
                    reapable_in(ss, i + 1, act, rv, iv, nm, rn) == reapable_in(
                        ss,
                        i as int,
                        act,
                        rv,
                        iv,
                        nm,
                        rn,
                    ) by {
                    if reapable_in(ss, i + 1, act, rv, iv, nm, rn) {
                        let k = choose|k: int|
                            0 <= k < i + 1 && #[trigger] reaps(ss[k], act, rv, iv, nm, rn);
                        assert(k != i);
                    }
                }
            },
            Some(v) => {
                let ghost v_view = v@;
                assert(effective_invocation(sv, rv) == Some(v_view));
                add_entry(&mut groups, v, &s.session_name, &s.run_id);
                assert forall|iv: InvocationView, nm: Seq<char>, rn: Seq<char>|
                    #![trigger reapable_in(ss, i + 1, act, rv, iv, nm, rn)]
                    reapable_in(ss, i + 1, act, rv, iv, nm, rn) == (reapable_in(
                        ss,
                        i as int,
                        act,
                        rv,
                        iv,
                        nm,
                        rn,
                    ) || (iv == v_view && nm == sv.session_name && rn == sv.run_id)) by {
                    if reapable_in(ss, i + 1, act, rv, iv, nm, rn) {
                        let k = choose|k: int|
                            0 <= k < i + 1 && #[trigger] reaps(ss[k], act, rv, iv, nm, rn);
                        if k < i {
                            assert(reapable_in(ss, i as int, act, rv, iv, nm, rn));
                        }
                    }
                    if iv == v_view && nm == sv.session_name && rn == sv.run_id {
                        assert(reaps(ss[i as int], act, rv, iv, nm, rn));
                    }
                }
            },
        }
        i += 1;
    }
    groups
}

/// Session `s` belongs to an inactive run and was registered without an
/// invocation, so the one of its run `run` has to be rebuilt.
pub open spec fn needs_invocation(s: ReapableView, active: Seq<Seq<char>>, run: Seq<char>) -> bool {
    &&& !active.contains(s.run_id)
    &&& s.invocation is None
    &&& s.run_id == run
}

/// The runs whose invocation has to be rebuilt before grouping: each
/// inactive run with a session registered without one, once, in order of
/// first appearance.
pub fn runs_needing_invocation(reapable: &Vec<ReapableSession>, active_run_ids: &Vec<String>) -> (r:
    Vec<String>)
    ensures
        r.deep_view().no_duplicates(),
        forall|run: Seq<char>| #[trigger]
            r.deep_view().contains(run) <==> exists|k: int|
                0 <= k < reapable@.len() && #[trigger] needs_invocation(
                    reapable@[k]@,
                    active_run_ids.deep_view(),
                    run,
                ),
{
    let ghost act = active_run_ids.deep_view();
    let mut out: Vec<String> = Vec::new();
    let mut i: usize = 0;
    while i < reapable.len()
        invariant
            i <= reapable.len(),
            act == active_run_ids.deep_view(),
            out.deep_view().no_duplicates(),
            forall|run: Seq<char>| #[trigger]
                out.deep_view().contains(run) <==> exists|k: int|
                    0 <= k < i && #[trigger] needs_invocation(reapable@[k]@, act, run),
        decreases reapable.len() - i,
    {
        let s = &reapable[i];
        let ghost old_out = out.deep_view();
        let needed = s.tmux_invocation.is_none() && !contains_str(active_run_ids, s.run_id.as_str());
        if needed && !contains_str(&out, s.run_id.as_str()) {
            out.push(s.run_id.clone());
            assert(out.deep_view() =~= old_out.push(s.run_id@));
        }
        let ghost nv = out.deep_view();
        assert forall|run: Seq<char>| #[trigger]
            nv.contains(run) <==> exists|k: int|
                0 <= k < i + 1 && #[trigger] needs_invocation(reapable@[k]@, act, run) by {
            if nv.contains(run) && !old_out.contains(run) {
                let p = choose|p: int| 0 <= p < nv.len() && nv[p] == run;
                assert(p == old_out.len());
                assert(needs_invocation(reapable@[i as int]@, act, run));
            }
            if exists|k: int| 0 <= k < i + 1 && #[trigger] needs_invocation(reapable@[k]@, act, run) {
                let k = choose|k: int| 0 <= k < i + 1 && #[trigger] needs_invocation(reapable@[k]@, act, run);
                if k == i {
                    if !old_out.contains(run) {
                        assert(nv[old_out.len() as int] == run);
                    }
                } else {
                    assert(old_out.contains(run));
                }
            }
            if old_out.contains(run) {
                let p = choose|p: int| 0 <= p < old_out.len() && old_out[p] == run;
                assert(nv[p] == run);
            }
        }
        i += 1;
    }
    out
}

impl SessionRuns {
    /// A copy of this entry.
    pub fn duplicate(&self) -> (r: SessionRuns)
        ensures
            r@ == self@,
    {
        SessionRuns { session_name: self.session_name.clone(), run_ids: clone_strings(&self.run_ids) }
    }
}

/// Session `s` is still listed by its server.
pub open spec fn is_live(live_sessions: Seq<Seq<char>>) -> spec_fn(SessionRunsView) -> bool {
    |s: SessionRunsView| live_sessions.contains(s.session_name)
}

/// Session `s` is no longer listed by its server.
pub open spec fn is_absent(live_sessions: Seq<Seq<char>>) -> spec_fn(SessionRunsView) -> bool {
    |s: SessionRunsView| !live_sessions.contains(s.session_name)
}

/// Splits a group's sessions by what reaping does with them, given the
/// sessions that the group's server lists: those it no longer lists, whose
/// registrations are simply dropped, and those it lists, which are killed
/// (and whose registrations are dropped once the kill succeeds). Both keep
/// the group's order.
pub fn split_by_liveness(sessions: &Vec<SessionRuns>, live_sessions: &Vec<String>) -> (r: (
    Vec<SessionRuns>,
    Vec<SessionRuns>,
))
    ensures
        r.0@.map_values(|s: SessionRuns| s@) == sessions@.map_values(|s: SessionRuns| s@).filter(
            is_absent(live_sessions.deep_view()),
        ),
        r.1@.map_values(|s: SessionRuns| s@) == sessions@.map_values(|s: SessionRuns| s@).filter(
            is_live(live_sessions.deep_view()),
        ),
{
    let ghost sv = sessions@.map_values(|s: SessionRuns| s@);
    let ghost live = live_sessions.deep_view();
    let mut absent: Vec<SessionRuns> = Vec::new();
    let mut listed: Vec<SessionRuns> = Vec::new();
    let mut i: usize = 0;
    while i < sessions.len()
        invariant
            i <= sessions.len(),
            sv == sessions@.map_values(|s: SessionRuns| s@),
            live == live_sessions.deep_view(),
            absent@.map_values(|s: SessionRuns| s@) == sv.take(i as int).filter(is_absent(live)),
            listed@.map_values(|s: SessionRuns| s@) == sv.take(i as int).filter(is_live(live)),
        decreases sessions.len() - i,
    {
        proof {
            crate::seqs::lemma_filter_take_step(sv, is_absent(live), i as int);
            crate::seqs::lemma_filter_take_step(sv, is_live(live), i as int);
        }
        let ghost a0 = absent@.map_values(|s: SessionRuns| s@);
        let ghost l0 = listed@.map_values(|s: SessionRuns| s@);
        let copy = sessions[i].duplicate();
        if contains_str(live_sessions, sessions[i].session_name.as_str()) {
            listed.push(copy);
            assert(listed@.map_values(|s: SessionRuns| s@) =~= l0.push(sv[i as int]));
        } else {
            absent.push(copy);
            assert(absent@.map_values(|s: SessionRuns| s@) =~= a0.push(sv[i as int]));
        }
        i += 1;
    }
    proof {
        crate::seqs::lemma_take_full(sv);
    }
    (absent, listed)
}

} // verus!
