//! A node's recorded result, as far as the run's logic reads it, and tables
//! of results keyed by node id.

use vstd::prelude::*;

use crate::counters::{key_lookup, key_pred};
use crate::graph::clone_opt_string;
use crate::routing::{lemma_first_idx, lemma_first_idx_is};
use crate::text::str_eq;

verus! {

/// The result recorded for a node: its output, whether it is preserved from
/// an earlier run (and which), the agent session it ran in, and its parsed
/// output as JSON text.
#[derive(Debug)]
pub struct NodeResult {
    pub node_id: String,
    pub output: String,
    pub stale: bool,
    pub preserved_from_run_id: Option<String>,
    pub agent_session_id: Option<String>,
    pub parsed_output: Option<String>,
}

pub struct NodeResultView {
    pub node_id: Seq<char>,
    pub output: Seq<char>,
    pub stale: bool,
    pub preserved_from_run_id: Option<Seq<char>>,
    pub agent_session_id: Option<Seq<char>>,
    pub parsed_output: Option<Seq<char>>,
}

impl View for NodeResult {
    type V = NodeResultView;

    open spec fn view(&self) -> NodeResultView {
        NodeResultView {
            node_id: self.node_id@,
            output: self.output@,
            stale: self.stale,
            preserved_from_run_id: self.preserved_from_run_id.deep_view(),
            agent_session_id: self.agent_session_id.deep_view(),
            parsed_output: self.parsed_output.deep_view(),
        }
    }
}

pub open spec fn results_view(rs: Seq<NodeResult>) -> Seq<NodeResultView> {
    rs.map_values(|r: NodeResult| r@)
}

impl NodeResult {
    /// A copy of this result.
    pub fn duplicate(&self) -> (r: NodeResult)
        ensures
            r@ == self@,
    {
        NodeResult {
            node_id: self.node_id.clone(),
            output: self.output.clone(),
            stale: self.stale,
            preserved_from_run_id: clone_opt_string(&self.preserved_from_run_id),
            agent_session_id: clone_opt_string(&self.agent_session_id),
            parsed_output: clone_opt_string(&self.parsed_output),
        }
    }
}

/// A copy of a table of results.
pub fn clone_results(v: &Vec<NodeResult>) -> (r: Vec<NodeResult>)
    ensures
        results_view(r@) == results_view(v@),
{
    let mut out: Vec<NodeResult> = Vec::new();
    let mut i: usize = 0;
    while i < v.len()
        invariant
            i <= v.len(),
            results_view(out@) == results_view(v@).take(i as int),
        decreases v.len() - i,
    {
        let ghost before = results_view(out@);
        out.push(v[i].duplicate());
        assert(results_view(out@) =~= before.push(results_view(v@)[i as int]));
        assert(results_view(v@).take(i + 1) =~= results_view(v@).take(i as int).push(
            results_view(v@)[i as int],
        ));
        i += 1;
    }
    assert(results_view(v@).take(v.len() as int) =~= results_view(v@));
    out
}

/// The results by node id.
pub open spec fn result_entries(rs: Seq<NodeResultView>) -> Seq<(Seq<char>, NodeResultView)> {
    rs.map_values(|r: NodeResultView| (r.node_id, r))
}

/// The result recorded for node `id` (the first one for it).
pub open spec fn result_of(rs: Seq<NodeResultView>, id: Seq<char>) -> Option<NodeResultView> {
    key_lookup(result_entries(rs), id)
}

/// The index of the first result for node `id`.
pub fn find_result(results: &Vec<NodeResult>, id: &str) -> (r: Option<usize>)
    ensures
        match r {
            Some(k) => k < results.len() && crate::counters::first_key_index(
                result_entries(results_view(results@)),
                id@,
            ) == k && result_of(results_view(results@), id@) == Some(results@[k as int]@),
            None => crate::counters::first_key_index(result_entries(results_view(results@)), id@)
                == -1 && result_of(results_view(results@), id@) is None,
        },
{
    let ghost ev = result_entries(results_view(results@));
    let ghost p = key_pred(ev, id@);
    let mut i: usize = 0;
    while i < results.len()
        invariant
            i <= results.len(),
            ev == result_entries(results_view(results@)),
            p == key_pred(ev, id@),
            forall|j: int| 0 <= j < i ==> !#[trigger] p(j),
        decreases results.len() - i,
    {
        if str_eq(results[i].node_id.as_str(), id) {
            proof {
                assert(p(i as int));
                lemma_first_idx_is(p, ev.len() as int, i as int);
            }
            return Some(i);
        }
        i += 1;
    }
    proof {
        lemma_first_idx(p, 0, ev.len() as int);
    }
    None
}

/// The table with `r` recorded: it replaces the first result for its node,
/// or is appended when its node has none.
pub open spec fn with_result(rs: Seq<NodeResultView>, r: NodeResultView) -> Seq<NodeResultView> {
    let i = crate::counters::first_key_index(result_entries(rs), r.node_id);
    if i >= 0 {
        rs.update(i, r)
    } else {
        rs.push(r)
    }
}

/// Records `r` in a table of results (see `with_result`).
pub fn record_result(results: &mut Vec<NodeResult>, r: NodeResult)
    ensures
        results_view(final(results)@) == with_result(results_view(old(results)@), r@),
{
    let ghost rv = r@;
    match find_result(results, r.node_id.as_str()) {
        Some(k) => {
            let ghost ov = results_view(results@);
            results.set(k, r);
            assert(results_view(results@) =~= ov.update(k as int, rv));
        },
        None => {
            let ghost ov = results_view(results@);
            results.push(r);
            assert(results_view(results@) =~= ov.push(rv));
        },
    }
}

} // verus!
