//! The tmux panes a finished run may still own: every agent session a node
//! reported, and the pane a node's output names when that pane is one of
//! the run's own sessions.

use vstd::prelude::*;

use crate::results::{results_view, NodeResult, NodeResultView};
use crate::strset::{contains_str, sorted_insert, strictly_sorted};
use crate::text::{trim_str, trim_ws};

verus! {

/// A pane that a key (a node id) may still hold.
#[derive(Debug, Clone, PartialEq, Eq)]
pub struct PaneCandidate {
    pub key: String,
    pub target: String,
}

pub struct CandidateView {
    pub key: Seq<char>,
    pub target: Seq<char>,
}

impl View for PaneCandidate {
    type V = CandidateView;

    open spec fn view(&self) -> CandidateView {
        CandidateView { key: self.key@, target: self.target@ }
    }
}

pub open spec fn candidates_view(s: Seq<PaneCandidate>) -> Seq<CandidateView> {
    s.map_values(|c: PaneCandidate| c@)
}

/// A reported target, trimmed; blank or missing targets are none.
pub open spec fn usable_target(target: Option<Seq<char>>) -> Option<Seq<char>> {
    match target {
        Some(t) => if trim_ws(t).len() > 0 {
            Some(trim_ws(t))
        } else {
            None
        },
        None => None,
    }
}

fn usable_target_exec(target: Option<&str>) -> (r: Option<String>)
    ensures
        r.deep_view() == usable_target(crate::text::opt_str_view(target)),
{
    match target {
        Some(t) => {
            let trimmed = trim_str(t);
            if trimmed.as_str().is_empty() {
                None
            } else {
                Some(trimmed)
            }
        },
        None => None,
    }
}

/// Adds a reported agent session to the run's trusted targets.
pub fn insert_trusted_pane_target(trusted_targets: &mut Vec<String>, target: Option<&str>)
    requires
        strictly_sorted(old(trusted_targets).deep_view()),
    ensures
        strictly_sorted(final(trusted_targets).deep_view()),
        forall|y: Seq<char>| #[trigger]
            final(trusted_targets).deep_view().contains(y) <==> (old(trusted_targets).deep_view().contains(y)
                || usable_target(crate::text::opt_str_view(target)) == Some(y)),
{
    if let Some(t) = usable_target_exec(target) {
        sorted_insert(trusted_targets, t);
    }
}

/// The candidates after reporting `target` for `key`: added once per
/// (key, target) pair.
pub open spec fn with_candidate(cs: Seq<CandidateView>, key: Seq<char>, target: Option<Seq<char>>) -> Seq<CandidateView> {
    match usable_target(target) {
        Some(t) => if exists|i: int| 0 <= i < cs.len() && cs[i].key == key && cs[i].target == t {
            cs
        } else {
            cs.push(CandidateView { key, target: t })
        },
        None => cs,
    }
}

/// Adds the pane `target` under `key` to the candidates, unless it is blank.
pub fn push_pane_candidate(candidates: &mut Vec<PaneCandidate>, key: &str, target: Option<&str>)
    ensures
        candidates_view(final(candidates)@) == with_candidate(
            candidates_view(old(candidates)@),
            key@,
            crate::text::opt_str_view(target),
        ),
{
    let t = match usable_target_exec(target) {
        Some(t) => t,
        None => return ,
    };
    let ghost cs = candidates_view(candidates@);
    let mut i: usize = 0;
    while i < candidates.len()
        invariant
            i <= candidates.len(),
            cs == candidates_view(candidates@),
            candidates@ == old(candidates)@,
            usable_target(crate::text::opt_str_view(target)) == Some(t@),
            forall|j: int| 0 <= j < i ==> !((#[trigger] cs[j]).key == key@ && cs[j].target == t@),
        decreases candidates.len() - i,
    {
        let c = &candidates[i];
        assert(cs[i as int] == c@);
        if crate::text::str_eq(c.key.as_str(), key) && crate::text::str_eq(c.target.as_str(), t.as_str()) {
            assert(cs[i as int].key == key@ && cs[i as int].target == t@);
            return ;
        }
        i += 1;
    }
    let ghost before = candidates@;
    candidates.push(PaneCandidate { key: key.to_owned(), target: t });
    assert(candidates_view(candidates@) =~= candidates_view(before).push(
        CandidateView { key: key@, target: usable_target(crate::text::opt_str_view(target)).unwrap() },
    ));
}

/// A pane named in a node's output counts only when it is one of the run's
/// trusted targets; an untrusted one is ignored. Returns whether the target
/// was trusted.
pub fn push_output_pane_candidate(
    candidates: &mut Vec<PaneCandidate>,
    trusted_targets: &Vec<String>,
    node_id: &str,
    target: Option<&str>,
) -> (trusted: bool)
    ensures
        ({
            let t = usable_target(crate::text::opt_str_view(target));
            &&& trusted == (t is Some && trusted_targets.deep_view().contains(t.unwrap()))
            &&& candidates_view(final(candidates)@) == if trusted {
                with_candidate(candidates_view(old(candidates)@), node_id@, crate::text::opt_str_view(target))
            } else {
                candidates_view(old(candidates)@)
            }
        }),
{
    let t = match usable_target_exec(target) {
        Some(t) => t,
        None => return false,
    };
    if !contains_str(trusted_targets, t.as_str()) {
        return false;
    }
    proof {
        assert(trim_ws(t@) =~= t@) by {
            crate::text::lemma_trim_ws_idempotent(target.unwrap()@);
        }
        assert(usable_target(Some(t@)) == usable_target(crate::text::opt_str_view(target)));
    }
    push_pane_candidate(candidates, node_id, Some(t.as_str()));
    true
}

/// `serde_json::from_str::<serde_json::Value>` of `text`, then `Value::get`
/// of `key` and `Value::as_str`.
pub uninterp spec fn json_string_field(text: Seq<char>, key: Seq<char>) -> Option<Seq<char>>;

/// Parses `text` as JSON with `serde_json` and reads the string under
/// `key`: none when the text is not JSON, has no such key, or the value is
/// not a string. Which texts parse is left to the crate.
#[verifier::external_body]
fn read_json_string_field(text: &str, key: &str) -> (r: Option<String>)
    ensures
        r.deep_view() == json_string_field(text@, key@),
{
    match serde_json::from_str::<serde_json::Value>(text) {
        Ok(value) => value.get(key).and_then(serde_json::Value::as_str).map(str::to_string),
        Err(_) => None,
    }
}

/// The pane a JSON text names: the first of `paneId`, `pane_id`, `target`
/// that holds a string.
pub open spec fn json_pane_target(text: Seq<char>) -> Option<Seq<char>> {
    match json_string_field(text, "paneId"@) {
        Some(t) => Some(t),
        None => match json_string_field(text, "pane_id"@) {
            Some(t) => Some(t),
            None => json_string_field(text, "target"@),
        },
    }
}

/// The pane a JSON text names (see `json_pane_target`).
pub fn pane_target_from_json(text: &str) -> (r: Option<String>)
    ensures
        r.deep_view() == json_pane_target(text@),
{
    match read_json_string_field(text, "paneId") {
        Some(t) => Some(t),
        None => match read_json_string_field(text, "pane_id") {
            Some(t) => Some(t),
            None => read_json_string_field(text, "target"),
        },
    }
}

/// A logged execution: its node and the agent session it ran in.
#[derive(Debug)]
pub struct ExecutionPanes {
    pub node_id: String,
    pub agent_session_id: Option<String>,
}

pub struct ExecutionPanesView {
    pub node_id: Seq<char>,
    pub agent_session_id: Option<Seq<char>>,
}

impl View for ExecutionPanes {
    type V = ExecutionPanesView;

    open spec fn view(&self) -> ExecutionPanesView {
        ExecutionPanesView { node_id: self.node_id@, agent_session_id: self.agent_session_id.deep_view() }
    }
}

/// The run's trusted targets: every agent session a result or an
/// execution reported.
pub open spec fn trusted_set(rs: Seq<NodeResultView>, es: Seq<ExecutionPanesView>) -> Set<Seq<char>> {
    Set::new(
        |y: Seq<char>|
            (exists|i: int| 0 <= i < rs.len() && usable_target(rs[i].agent_session_id) == Some(y)) || (exists|
                j: int,
            |
                0 <= j < es.len() && usable_target(es[j].agent_session_id) == Some(y)),
    )
}

/// The candidates after a node's output names `target`: added when trusted.
pub open spec fn with_output_candidate(
    cs: Seq<CandidateView>,
    trusted: Set<Seq<char>>,
    key: Seq<char>,
    target: Option<Seq<char>>,
) -> Seq<CandidateView> {
    match usable_target(target) {
        Some(t) => if trusted.contains(t) {
            with_candidate(cs, key, target)
        } else {
            cs
        },
        None => cs,
    }
}

/// One result's contributions: its session, the pane its parsed output
/// names, the pane its raw output names.
pub open spec fn with_result(cs: Seq<CandidateView>, trusted: Set<Seq<char>>, r: NodeResultView) -> Seq<CandidateView> {
    let a = with_candidate(cs, r.node_id, r.agent_session_id);
    let b = match r.parsed_output {
        Some(p) => with_output_candidate(a, trusted, r.node_id, json_pane_target(p)),
        None => a,
    };
    with_output_candidate(b, trusted, r.node_id, json_pane_target(r.output))
}

pub open spec fn fold_results(trusted: Set<Seq<char>>, rs: Seq<NodeResultView>) -> Seq<CandidateView>
    decreases rs.len(),
{
    if rs.len() == 0 {
        Seq::empty()
    } else {
        with_result(fold_results(trusted, rs.drop_last()), trusted, rs.last())
    }
}

pub open spec fn fold_executions(cs: Seq<CandidateView>, es: Seq<ExecutionPanesView>) -> Seq<CandidateView>
    decreases es.len(),
{
    if es.len() == 0 {
        cs
    } else {
        with_candidate(fold_executions(cs, es.drop_last()), es.last().node_id, es.last().agent_session_id)
    }
}

/// The pane candidates of a run: for each result, its agent session, then
/// the trusted pane its parsed output names, then the trusted pane its raw
/// output names; then the agent session of each logged execution. The
/// trusted targets are every agent session reported.
pub open spec fn run_candidates(rs: Seq<NodeResultView>, es: Seq<ExecutionPanesView>) -> Seq<CandidateView> {
    fold_executions(fold_results(trusted_set(rs, es), rs), es)
}

fn opt_as_str(o: &Option<String>) -> (r: Option<&str>)
    ensures
        crate::text::opt_str_view(r) == o.deep_view(),
{
    match o {
        Some(s) => Some(s.as_str()),
        None => None,
    }
}

/// The panes a run may hand to cleanup, from its results and executions (see
/// `run_candidates`).
pub fn pane_candidates(results: &Vec<NodeResult>, executions: &Vec<ExecutionPanes>) -> (r: Vec<PaneCandidate>)
    ensures
        candidates_view(r@) == run_candidates(
            results_view(results@),
            executions@.map_values(|x: ExecutionPanes| x@),
        ),
{
    let ghost rs = results_view(results@);
    let ghost es = executions@.map_values(|x: ExecutionPanes| x@);
    let ghost trusted_s = trusted_set(rs, es);
    let mut trusted: Vec<String> = Vec::new();
    let mut i: usize = 0;
    while i < results.len()
        invariant
            i <= results.len(),
            rs == results_view(results@),
            strictly_sorted(trusted.deep_view()),
            forall|y: Seq<char>| #[trigger]
                trusted.deep_view().contains(y) <==> exists|a: int|
                    0 <= a < i && usable_target(rs[a].agent_session_id) == Some(y),
        decreases results.len() - i,
    {
        let sid = opt_as_str(&results[i].agent_session_id);
        assert(rs[i as int] == results@[i as int]@);
        insert_trusted_pane_target(&mut trusted, sid);
        i += 1;
    }
    let mut j: usize = 0;
    while j < executions.len()
        invariant
            j <= executions.len(),
            rs == results_view(results@),
            es == executions@.map_values(|x: ExecutionPanes| x@),
            strictly_sorted(trusted.deep_view()),
            forall|y: Seq<char>| #[trigger]
                trusted.deep_view().contains(y) <==> (exists|a: int|
                    0 <= a < rs.len() && usable_target(rs[a].agent_session_id) == Some(y)) || (exists|
                    b: int,
                |
                    0 <= b < j && usable_target(es[b].agent_session_id) == Some(y)),
        decreases executions.len() - j,
    {
        let sid = opt_as_str(&executions[j].agent_session_id);
        assert(es[j as int] == executions@[j as int]@);
        insert_trusted_pane_target(&mut trusted, sid);
        j += 1;
    }
    assert forall|y: Seq<char>| #[trigger] trusted.deep_view().contains(y) == trusted_s.contains(y) by {}
    let mut candidates: Vec<PaneCandidate> = Vec::new();
    let mut k: usize = 0;
    while k < results.len()
        invariant
            k <= results.len(),
            rs == results_view(results@),
            trusted_s == trusted_set(rs, es),
            forall|y: Seq<char>| #[trigger] trusted.deep_view().contains(y) == trusted_s.contains(y),
            candidates_view(candidates@) == fold_results(trusted_s, rs.take(k as int)),
        decreases results.len() - k,
    {
        let res = &results[k];
        let ghost rv = res@;
        assert(rs[k as int] == rv);
        assert(rs.take(k + 1).drop_last() =~= rs.take(k as int));
        push_pane_candidate(&mut candidates, res.node_id.as_str(), opt_as_str(&res.agent_session_id));
        if let Some(parsed) = &res.parsed_output {
            let t = pane_target_from_json(parsed.as_str());
            push_trusted_output(&mut candidates, &trusted, Ghost(trusted_s), res.node_id.as_str(), opt_as_str(&t));
        }
        let t = pane_target_from_json(res.output.as_str());
        push_trusted_output(&mut candidates, &trusted, Ghost(trusted_s), res.node_id.as_str(), opt_as_str(&t));
        k += 1;
    }
    assert(rs.take(rs.len() as int) =~= rs);
    let ghost base = candidates_view(candidates@);
    let mut m: usize = 0;
    while m < executions.len()
        invariant
            m <= executions.len(),
            es == executions@.map_values(|x: ExecutionPanes| x@),
            candidates_view(candidates@) == fold_executions(base, es.take(m as int)),
        decreases executions.len() - m,
    {
        let e = &executions[m];
        assert(es[m as int] == e@);
        assert(es.take(m + 1).drop_last() =~= es.take(m as int));
        push_pane_candidate(&mut candidates, e.node_id.as_str(), opt_as_str(&e.agent_session_id));
        m += 1;
    }
    assert(es.take(es.len() as int) =~= es);
    candidates
}

fn push_trusted_output(
    candidates: &mut Vec<PaneCandidate>,
    trusted_targets: &Vec<String>,
    trusted_s: Ghost<Set<Seq<char>>>,
    node_id: &str,
    target: Option<&str>,
)
    requires
        forall|y: Seq<char>| #[trigger] trusted_targets.deep_view().contains(y) == trusted_s@.contains(y),
    ensures
        candidates_view(final(candidates)@) == with_output_candidate(
            candidates_view(old(candidates)@),
            trusted_s@,
            node_id@,
            crate::text::opt_str_view(target),
        ),
{
    let _ = push_output_pane_candidate(candidates, trusted_targets, node_id, target);
    proof {
        let ut = usable_target(crate::text::opt_str_view(target));
        if ut is Some {
            assert(trusted_targets.deep_view().contains(ut.unwrap()) == trusted_s@.contains(ut.unwrap()));
        }
    }
}

} // verus!
