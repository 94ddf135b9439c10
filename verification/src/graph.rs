//! The workflow graph that the scheduler walks: nodes, edges and the queries
//! over them (outgoing and inbound edges, reachability, collector inputs).

use vstd::prelude::*;

use crate::seqs::{lemma_filter_first, lemma_filter_take_step, lemma_no_dup_len_bound, lemma_take_full};
use crate::strset::{contains_str, sorted_insert, strictly_sorted};
use crate::text::{opt_str_view, chars_of, slice_chars, string_of, trim_chars, trim_ws, Strip, str_eq};


verus! {

/// How an edge leaves its source node.
#[derive(PartialEq, Eq, Structural, Clone, Copy, Debug)]
pub enum WorkflowEdgeOutcome {
    Success,
    Branch,
    LoopContinue,
    LoopExit,
    Reject,
}

/// What happens to a split family when one of its branches fails.
#[derive(PartialEq, Eq, Structural, Clone, Copy, Debug)]
pub enum SplitFailurePolicy {
    BestEffortContinue,
    DrainThenFail,
    FailFastCancel,
}

/// The kind of a node, with the settings that the scheduler reads.
#[derive(Debug)]
pub enum NodeKind {
    Task,
    Approval,
    Split,
    Collector,
    ParallelBatch,
    Subflow,
    Call,
    Decide { prompt: String, outcomes: Vec<String> },
    Spawn,
    Send { text: String },
    Wait { timeout: Option<u64> },
    Capture,
    Kill,
    RunAgent { prompt: Option<String>, timeout: Option<u64> },
}

#[derive(Debug)]
pub struct WorkflowNode {
    pub id: String,
    pub name: String,
    pub kind: NodeKind,
    pub prompt: String,
    pub timeout: Option<u64>,
    pub continue_session_from: Option<String>,
    pub loop_max_iterations: Option<u32>,
    pub split_failure_policy: SplitFailurePolicy,
}

#[derive(Debug)]
pub struct WorkflowEdge {
    pub id: String,
    pub from: String,
    pub to: String,
    pub label: Option<String>,
    pub outcome: WorkflowEdgeOutcome,
    pub branch_id: Option<String>,
}

/// The nodes and edges of one workflow (the root or a subflow).
#[derive(Debug)]
pub struct WorkflowGraph {
    pub nodes: Vec<WorkflowNode>,
    pub edges: Vec<WorkflowEdge>,
}

pub enum NodeKindView {
    Task,
    Approval,
    Split,
    Collector,
    ParallelBatch,
    Subflow,
    Call,
    Decide { prompt: Seq<char>, outcomes: Seq<Seq<char>> },
    Spawn,
    Send { text: Seq<char> },
    Wait { timeout: Option<u64> },
    Capture,
    Kill,
    RunAgent { prompt: Option<Seq<char>>, timeout: Option<u64> },
}

pub struct NodeView {
    pub id: Seq<char>,
    pub name: Seq<char>,
    pub kind: NodeKindView,
    pub prompt: Seq<char>,
    pub timeout: Option<u64>,
    pub continue_session_from: Option<Seq<char>>,
    pub loop_max_iterations: Option<u32>,
    pub split_failure_policy: SplitFailurePolicy,
}

pub struct EdgeView {
    pub id: Seq<char>,
    pub from: Seq<char>,
    pub to: Seq<char>,
    pub label: Option<Seq<char>>,
    pub outcome: WorkflowEdgeOutcome,
    pub branch_id: Option<Seq<char>>,
}

pub struct GraphView {
    pub nodes: Seq<NodeView>,
    pub edges: Seq<EdgeView>,
}

impl View for NodeKind {
    type V = NodeKindView;

    open spec fn view(&self) -> NodeKindView {
        match self {
            NodeKind::Task => NodeKindView::Task,
            NodeKind::Approval => NodeKindView::Approval,
            NodeKind::Split => NodeKindView::Split,
            NodeKind::Collector => NodeKindView::Collector,
            NodeKind::ParallelBatch => NodeKindView::ParallelBatch,
            NodeKind::Subflow => NodeKindView::Subflow,
            NodeKind::Call => NodeKindView::Call,
            NodeKind::Decide { prompt, outcomes } => NodeKindView::Decide {
                prompt: prompt@,
                outcomes: outcomes.deep_view(),
            },
            NodeKind::Spawn => NodeKindView::Spawn,
            NodeKind::Send { text } => NodeKindView::Send { text: text@ },
            NodeKind::Wait { timeout } => NodeKindView::Wait { timeout: *timeout },
            NodeKind::Capture => NodeKindView::Capture,
            NodeKind::Kill => NodeKindView::Kill,
            NodeKind::RunAgent { prompt, timeout } => NodeKindView::RunAgent {
                prompt: prompt.deep_view(),
                timeout: *timeout,
            },
        }
    }
}

impl View for WorkflowNode {
    type V = NodeView;

    open spec fn view(&self) -> NodeView {
        NodeView {
            id: self.id@,
            name: self.name@,
            kind: self.kind@,
            prompt: self.prompt@,
            timeout: self.timeout,
            continue_session_from: self.continue_session_from.deep_view(),
            loop_max_iterations: self.loop_max_iterations,
            split_failure_policy: self.split_failure_policy,
        }
    }
}

impl View for WorkflowEdge {
    type V = EdgeView;

    open spec fn view(&self) -> EdgeView {
        EdgeView {
            id: self.id@,
            from: self.from@,
            to: self.to@,
            label: self.label.deep_view(),
            outcome: self.outcome,
            branch_id: self.branch_id.deep_view(),
        }
    }
}

impl View for WorkflowGraph {
    type V = GraphView;

    open spec fn view(&self) -> GraphView {
        GraphView {
            nodes: self.nodes@.map_values(|n: WorkflowNode| n@),
            edges: self.edges@.map_values(|e: WorkflowEdge| e@),
        }
    }
}

/// A copy of an optional string.
pub fn clone_opt_string(s: &Option<String>) -> (r: Option<String>)
    ensures
        r.deep_view() == s.deep_view(),
{
    match s {
        Some(v) => Some(v.clone()),
        None => None,
    }
}

impl WorkflowEdge {
/// A copy of the edge.
    pub fn duplicate(&self) -> (r: WorkflowEdge)
        ensures
            r@ == self@,
    {
        WorkflowEdge {
            id: self.id.clone(),
            from: self.from.clone(),
            to: self.to.clone(),
            label: clone_opt_string(&self.label),
            outcome: self.outcome,
            branch_id: clone_opt_string(&self.branch_id),
        }
    }
}

/// The key under which an edge's input arrives at a collector: its label,
/// or else its source node id.
pub open spec fn merge_key(e: EdgeView) -> Seq<char> {
    match e.label {
        Some(l) => l,
        None => e.from,
    }
}

/// The key under which a collector merges what arrives along `edge` (see `merge_key`).
pub fn merge_key_for_edge(edge: &WorkflowEdge) -> (r: String)
    ensures
        r@ == merge_key(edge@),
{
    match &edge.label {
        Some(l) => l.clone(),
        None => edge.from.clone(),
    }
}

/// The edges leaving `id`, in the graph's edge order.
pub open spec fn outgoing(g: GraphView, id: Seq<char>) -> Seq<EdgeView> {
    g.edges.filter(|e: EdgeView| e.from == id)
}

/// The edges entering `id`, in the graph's edge order.
pub open spec fn inbound(g: GraphView, id: Seq<char>) -> Seq<EdgeView> {
    g.edges.filter(|e: EdgeView| e.to == id)
}

pub open spec fn is_success_from(id: Seq<char>) -> spec_fn(EdgeView) -> bool {
    |e: EdgeView| e.from == id && e.outcome == WorkflowEdgeOutcome::Success
}

/// The first success edge leaving `id`, in edge order.
pub open spec fn first_success_edge(g: GraphView, id: Seq<char>) -> Option<EdgeView> {
    let s = g.edges.filter(is_success_from(id));
    if s.len() > 0 {
        Some(s[0])
    } else {
        None
    }
}

/// One edge leads from `a` to `b`.
pub open spec fn edge_step(g: GraphView, a: Seq<char>, b: Seq<char>) -> bool {
    exists|i: int| 0 <= i < g.edges.len() && g.edges[i].from == a && g.edges[i].to == b
}

pub open spec fn is_path(g: GraphView, p: Seq<Seq<char>>) -> bool {
    &&& p.len() > 0
    &&& forall|k: int| 0 <= k < p.len() - 1 ==> edge_step(g, #[trigger] p[k], p[k + 1])
}

/// `to` can be reached from `from` along edges (in zero or more steps).
pub open spec fn reachable(g: GraphView, from: Seq<char>, to: Seq<char>) -> bool {
    exists|p: Seq<Seq<char>>| is_path(g, p) && p[0] == from && p.last() == to
}


/// The first success edge leaving `node_id`.
pub fn select_success_edge(graph: &WorkflowGraph, node_id: &str) -> (r: Option<WorkflowEdge>)
    ensures
        match r {
            Some(e) => first_success_edge(graph@, node_id@) == Some(e@),
            None => first_success_edge(graph@, node_id@) is None,
        },
{
    let ghost es = graph@.edges;
    let ghost p = is_success_from(node_id@);
    let mut i: usize = 0;
    while i < graph.edges.len()
        invariant
            i <= graph.edges.len(),
            es == graph@.edges,
            p == is_success_from(node_id@),
            es.take(i as int).filter(p).len() == 0,
        decreases graph.edges.len() - i,
    {
        proof {
            lemma_filter_take_step(es, p, i as int);
        }
        let e = &graph.edges[i];
        if str_eq(e.from.as_str(), node_id) && e.outcome == WorkflowEdgeOutcome::Success {
            proof {
                lemma_filter_first(es, p, i as int);
            }
            return Some(e.duplicate());
        }
        i += 1;
    }
    proof {
        lemma_take_full(es);
    }
    None
}

/// Every visited node's edges lead to visited nodes, so everything reachable
/// from a visited node is visited.
proof fn lemma_closed_contains_reachable(
    g: GraphView,
    visited: Seq<Seq<char>>,
    start: Seq<char>,
    x: Seq<char>,
)
    requires
        visited.contains(start),
        forall|i: int|
            0 <= i < g.edges.len() && visited.contains(#[trigger] g.edges[i].from)
                ==> visited.contains(g.edges[i].to),
        reachable(g, start, x),
    ensures
        visited.contains(x),
{
    let p = choose|p: Seq<Seq<char>>| is_path(g, p) && p[0] == start && p.last() == x;
    lemma_path_prefix_visited(g, visited, p, p.len() - 1);
}

proof fn lemma_path_prefix_visited(g: GraphView, visited: Seq<Seq<char>>, p: Seq<Seq<char>>, k: int)
    requires
        is_path(g, p),
        0 <= k < p.len(),
        visited.contains(p[0]),
        forall|i: int|
            0 <= i < g.edges.len() && visited.contains(#[trigger] g.edges[i].from)
                ==> visited.contains(g.edges[i].to),
    ensures
        visited.contains(p[k]),
    decreases k,
{
    if k > 0 {
        lemma_path_prefix_visited(g, visited, p, k - 1);
        assert(edge_step(g, p[k - 1], p[k]));
        let i = choose|i: int|
            0 <= i < g.edges.len() && g.edges[i].from == p[k - 1] && g.edges[i].to == p[k];
        assert(visited.contains(g.edges[i].to));
    }
}

/// Extending a path by one edge.
proof fn lemma_path_extend(g: GraphView, start: Seq<char>, y: Seq<char>, i: int)
    requires
        reachable(g, start, y),
        0 <= i < g.edges.len(),
        g.edges[i].from == y,
    ensures
        reachable(g, start, g.edges[i].to),
{
    let p = choose|p: Seq<Seq<char>>| is_path(g, p) && p[0] == start && p.last() == y;
    let q = p.push(g.edges[i].to);
    assert forall|k: int| 0 <= k < q.len() - 1 implies edge_step(g, #[trigger] q[k], q[k + 1]) by {
        if k < p.len() - 1 {
            assert(q[k] == p[k] && q[k + 1] == p[k + 1]);
        } else {
            assert(q[k] == y);
        }
    }
    assert(is_path(g, q) && q[0] == start && q.last() == g.edges[i].to);
}

/// The nodes reachable from `start_node_id` along edges, `start_node_id`
/// included, each once.
pub fn collect_descendants(graph: &WorkflowGraph, start_node_id: &str) -> (r: Vec<String>)
    ensures
        r.deep_view().no_duplicates(),
        forall|x: Seq<char>| #[trigger]
            r.deep_view().contains(x) <==> reachable(graph@, start_node_id@, x),
{
    let ghost g = graph@;
    let ghost universe = seq![start_node_id@] + g.edges.map_values(|e: EdgeView| e.to);
    let mut visited: Vec<String> = Vec::new();
    visited.push(start_node_id.to_owned());
    proof {
        let p = seq![start_node_id@];
        assert(is_path(g, p) && p[0] == start_node_id@ && p.last() == start_node_id@);
        assert(visited.deep_view() =~= seq![start_node_id@]);
        assert(universe[0] == start_node_id@);
        assert(universe.len() == g.edges.len() + 1);
    }
    let mut h: usize = 0;
    while h < visited.len()
        invariant
            g == graph@,
            universe == seq![start_node_id@] + g.edges.map_values(|e: EdgeView| e.to),
            h <= visited.len() <= g.edges.len() + 1,
            universe.len() == g.edges.len() + 1,
            visited.deep_view().no_duplicates(),
            visited.deep_view().contains(start_node_id@),
            forall|x: Seq<char>| #[trigger]
                visited.deep_view().contains(x) ==> reachable(g, start_node_id@, x),
            forall|x: Seq<char>| #[trigger]
                visited.deep_view().contains(x) ==> universe.contains(x),
            forall|j: int, i: int|
                #![trigger visited.deep_view()[j], g.edges[i]]
                0 <= j < h && 0 <= i < g.edges.len() && g.edges[i].from
                    == visited.deep_view()[j] ==> visited.deep_view().contains(g.edges[i].to),
        decreases g.edges.len() + 1 - h,
    {
        let cur = visited[h].clone();
        let ghost before = visited.deep_view();
        let mut i: usize = 0;
        while i < graph.edges.len()
            invariant
                g == graph@,
                universe == seq![start_node_id@] + g.edges.map_values(|e: EdgeView| e.to),
                i <= g.edges.len(),
                h < visited.len(),
                h < before.len(),
                visited.len() <= g.edges.len() + 1,
                universe.len() == g.edges.len() + 1,
                cur@ == visited.deep_view()[h as int],
                visited.deep_view().len() >= before.len(),
                forall|k: int| 0 <= k < before.len() ==> visited.deep_view()[k] == before[k],
                visited.deep_view().no_duplicates(),
                visited.deep_view().contains(start_node_id@),
                forall|x: Seq<char>| #[trigger]
                    visited.deep_view().contains(x) ==> reachable(g, start_node_id@, x),
                forall|x: Seq<char>| #[trigger]
                    visited.deep_view().contains(x) ==> universe.contains(x),
                forall|j: int, i2: int|
                    #![trigger before[j], g.edges[i2]]
                    0 <= j < h && 0 <= i2 < g.edges.len() && g.edges[i2].from
                        == before[j] ==> visited.deep_view().contains(g.edges[i2].to),
                forall|i2: int|
                    0 <= i2 < i && (#[trigger] g.edges[i2]).from == cur@
                        ==> visited.deep_view().contains(g.edges[i2].to),
            decreases g.edges.len() - i,
        {
            let e = &graph.edges[i];
            if str_eq(e.from.as_str(), cur.as_str()) && !contains_str(&visited, e.to.as_str()) {
                let ghost old_vis = visited.deep_view();
                proof {
                    assert(old_vis.contains(cur@)) by {
                        assert(old_vis[h as int] == cur@);
                    }
                    lemma_path_extend(g, start_node_id@, cur@, i as int);
                    assert(universe[i + 1] == g.edges[i as int].to);
                }
                visited.push(e.to.clone());
                proof {
                    let nv = visited.deep_view();
                    assert(nv =~= old_vis.push(e.to@));
                    assert forall|x: Seq<char>| #[trigger] nv.contains(x) implies (old_vis.contains(x)
                        || x == e.to@) by {
                        let k = choose|k: int| 0 <= k < nv.len() && nv[k] == x;
                        if k < old_vis.len() {
                            assert(old_vis[k] == x);
                        }
                    }
                    assert forall|x: Seq<char>| old_vis.contains(x) implies #[trigger] nv.contains(x) by {
                        let k = choose|k: int| 0 <= k < old_vis.len() && old_vis[k] == x;
                        assert(nv[k] == x);
                    }
                    assert(nv[nv.len() - 1] == e.to@);
                    lemma_no_dup_len_bound(nv, universe);
                }
            }
            i += 1;
        }
        proof {
            let vd = visited.deep_view();
            assert forall|j: int, i2: int|
                #![trigger vd[j], g.edges[i2]]
                0 <= j < h + 1 && 0 <= i2 < g.edges.len() && g.edges[i2].from
                    == vd[j] implies vd.contains(g.edges[i2].to) by {
                assert(vd[j] == before[j]);
            }
        }
        h += 1;
    }
    proof {
        let vd = visited.deep_view();
        assert forall|i: int|
            0 <= i < g.edges.len() && vd.contains(#[trigger] g.edges[i].from)
                implies vd.contains(g.edges[i].to) by {
            let j = choose|j: int| 0 <= j < vd.len() && vd[j] == g.edges[i].from;
            assert(g.edges[i].from == vd[j]);
        }
        assert forall|x: Seq<char>| reachable(g, start_node_id@, x) implies #[trigger] vd.contains(
            x,
        ) by {
            lemma_closed_contains_reachable(g, vd, start_node_id@, x);
        }
    }
    visited
}


/// The merge keys that a collector waits for: one per inbound edge, each
/// edge's label or else its source id, as an ordered set.
pub fn collector_required_inputs(graph: &WorkflowGraph, collector_id: &str) -> (r: Vec<String>)
    ensures
        strictly_sorted(r.deep_view()),
        forall|x: Seq<char>| #[trigger]
            r.deep_view().contains(x) <==> exists|i: int|
                0 <= i < graph@.edges.len() && graph@.edges[i].to == collector_id@ && merge_key(
                    #[trigger] graph@.edges[i],
                ) == x,
{
    let ghost g = graph@;
    let mut out: Vec<String> = Vec::new();
    let mut i: usize = 0;
    while i < graph.edges.len()
        invariant
            g == graph@,
            i <= g.edges.len(),
            strictly_sorted(out.deep_view()),
            forall|x: Seq<char>| #[trigger]
                out.deep_view().contains(x) <==> exists|k: int|
                    0 <= k < i && g.edges[k].to == collector_id@ && merge_key(#[trigger] g.edges[k])
                        == x,
        decreases g.edges.len() - i,
    {
        let e = &graph.edges[i];
        let ghost before = out.deep_view();
        if str_eq(e.to.as_str(), collector_id) {
            let key = merge_key_for_edge(e);
            sorted_insert(&mut out, key);
        }
        proof {
            assert forall|x: Seq<char>| #[trigger] out.deep_view().contains(x) <==> exists|k: int|
                0 <= k < i + 1 && g.edges[k].to == collector_id@ && merge_key(#[trigger] g.edges[k])
                    == x by {
                if out.deep_view().contains(x) && !before.contains(x) {
                    assert(merge_key(g.edges[i as int]) == x);
                }
                if exists|k: int|
                    0 <= k < i + 1 && g.edges[k].to == collector_id@ && merge_key(
                        #[trigger] g.edges[k],
                    ) == x {
                    let k = choose|k: int|
                        0 <= k < i + 1 && g.edges[k].to == collector_id@ && merge_key(
                            #[trigger] g.edges[k],
                        ) == x;
                    if k < i {
                        assert(before.contains(x));
                    }
                }
            }
        }
        i += 1;
    }
    out
}

/// The source node ids of the edges entering `node_id`, in edge order.
pub fn inbound_sources(graph: &WorkflowGraph, node_id: &str) -> (r: Vec<String>)
    ensures
        r.deep_view() == inbound(graph@, node_id@).map_values(|e: EdgeView| e.from),
{
    let ghost g = graph@;
    let ghost p = |e: EdgeView| e.to == node_id@;
    let mut out: Vec<String> = Vec::new();
    let mut i: usize = 0;
    while i < graph.edges.len()
        invariant
            g == graph@,
            p == (|e: EdgeView| e.to == node_id@),
            i <= g.edges.len(),
            out.deep_view() == g.edges.take(i as int).filter(p).map_values(|e: EdgeView| e.from),
        decreases g.edges.len() - i,
    {
        proof {
            lemma_filter_take_step(g.edges, p, i as int);
        }
        let e = &graph.edges[i];
        let ghost before = out.deep_view();
        if str_eq(e.to.as_str(), node_id) {
            out.push(e.from.clone());
            proof {
                let f = g.edges.take(i as int).filter(p);
                assert(p(g.edges[i as int]));
                assert(g.edges.take(i + 1).filter(p) == f.push(g.edges[i as int]));
                assert(f.push(g.edges[i as int]).map_values(|e: EdgeView| e.from) =~= f.map_values(
                    |e: EdgeView| e.from,
                ).push(g.edges[i as int].from));
                assert(out.deep_view() =~= before.push(e.from@));
            }
        }
        i += 1;
    }
    proof {
        lemma_take_full(g.edges);
    }
    out
}

/// The nodes whose `continue_session_from` source must keep its pane alive:
/// the sources named by nodes that have not completed yet, as an ordered set.
pub fn build_session_persistence_set(graph: &WorkflowGraph, completed: &Vec<String>) -> (r: Vec<
    String,
>)
    ensures
        strictly_sorted(r.deep_view()),
        forall|x: Seq<char>| #[trigger]
            r.deep_view().contains(x) <==> exists|i: int|
                0 <= i < graph@.nodes.len() && !completed.deep_view().contains(
                    #[trigger] graph@.nodes[i].id,
                ) && graph@.nodes[i].continue_session_from == Some(x),
{
    let ghost g = graph@;
    let mut out: Vec<String> = Vec::new();
    let mut i: usize = 0;
    while i < graph.nodes.len()
        invariant
            g == graph@,
            i <= g.nodes.len(),
            strictly_sorted(out.deep_view()),
            forall|x: Seq<char>| #[trigger]
                out.deep_view().contains(x) <==> exists|k: int|
                    0 <= k < i && !completed.deep_view().contains(#[trigger] g.nodes[k].id)
                        && g.nodes[k].continue_session_from == Some(x),
        decreases g.nodes.len() - i,
    {
        let n = &graph.nodes[i];
        let ghost before = out.deep_view();
        if !contains_str(completed, n.id.as_str()) {
            if let Some(src) = &n.continue_session_from {
                sorted_insert(&mut out, src.clone());
            }
        }
        proof {
            assert forall|x: Seq<char>| #[trigger] out.deep_view().contains(x) <==> exists|k: int|
                0 <= k < i + 1 && !completed.deep_view().contains(#[trigger] g.nodes[k].id)
                    && g.nodes[k].continue_session_from == Some(x) by {
                if out.deep_view().contains(x) && !before.contains(x) {
                    assert(g.nodes[i as int].continue_session_from == Some(x));
                    assert(!completed.deep_view().contains(g.nodes[i as int].id));
                }
                if exists|k: int|
                    0 <= k < i + 1 && !completed.deep_view().contains(#[trigger] g.nodes[k].id)
                        && g.nodes[k].continue_session_from == Some(x) {
                    let k = choose|k: int|
                        0 <= k < i + 1 && !completed.deep_view().contains(#[trigger] g.nodes[k].id)
                            && g.nodes[k].continue_session_from == Some(x);
                    if k < i {
                        assert(before.contains(x));
                    }
                }
            }
        }
        i += 1;
    }
    out
}

/// Node kinds that an agent runner executes.
pub open spec fn is_runner_kind(k: NodeKindView) -> bool {
    match k {
        NodeKindView::Task | NodeKindView::Decide { .. } | NodeKindView::Spawn
        | NodeKindView::Send { .. } | NodeKindView::Wait { .. } | NodeKindView::Capture
        | NodeKindView::Kill | NodeKindView::RunAgent { .. } => true,
        _ => false,
    }
}

/// Whether a node of this kind runs an agent.
pub fn is_runner_node_kind(kind: &NodeKind) -> (r: bool)
    ensures
        r == is_runner_kind(kind@),
{
    match kind {
        NodeKind::Task | NodeKind::Decide { .. } | NodeKind::Spawn | NodeKind::Send { .. }
        | NodeKind::Wait { .. } | NodeKind::Capture | NodeKind::Kill | NodeKind::RunAgent {
            ..
        } => true,
        _ => false,
    }
}

/// The prompt text a node runs with: a run-agent node's own prompt when set,
/// a send node's non-empty text, a decide node's prompt, else the node prompt.
pub open spec fn prompt_template(n: NodeView) -> Seq<char> {
    match n.kind {
        NodeKindView::RunAgent { prompt, .. } => match prompt {
            Some(p) => p,
            None => n.prompt,
        },
        NodeKindView::Send { text } => if text.len() == 0 {
            n.prompt
        } else {
            text
        },
        NodeKindView::Decide { prompt, .. } => prompt,
        _ => n.prompt,
    }
}

/// The prompt template a node runs with (see `prompt_template`).
pub fn prompt_template_for_node(node: &WorkflowNode) -> (r: &str)
    ensures
        r@ == prompt_template(node@),
{
    match &node.kind {
        NodeKind::RunAgent { prompt, .. } => match prompt {
            Some(p) => p.as_str(),
            None => node.prompt.as_str(),
        },
        NodeKind::Send { text } => {
            if text.as_str().is_empty() {
                node.prompt.as_str()
            } else {
                text.as_str()
            }
        },
        NodeKind::Decide { prompt, .. } => prompt.as_str(),
        _ => node.prompt.as_str(),
    }
}

/// The timeout a node runs with: a run-agent or wait node's own timeout when
/// set, else the node timeout.
pub open spec fn node_timeout(n: NodeView) -> Option<u64> {
    match n.kind {
        NodeKindView::RunAgent { timeout, .. } => if timeout is Some {
            timeout
        } else {
            n.timeout
        },
        NodeKindView::Wait { timeout } => if timeout is Some {
            timeout
        } else {
            n.timeout
        },
        _ => n.timeout,
    }
}

/// The timeout a node runs with (see `node_timeout`).
pub fn timeout_for_node(node: &WorkflowNode) -> (r: Option<u64>)
    ensures
        r == node_timeout(node@),
{
    match &node.kind {
        NodeKind::RunAgent { timeout, .. } => if timeout.is_some() {
            *timeout
        } else {
            node.timeout
        },
        NodeKind::Wait { timeout } => if timeout.is_some() {
            *timeout
        } else {
            node.timeout
        },
        _ => node.timeout,
    }
}

/// Index of the first node with id `node_id`.
pub fn find_node(graph: &WorkflowGraph, node_id: &str) -> (r: Option<usize>)
    ensures
        match r {
            Some(k) => k < graph@.nodes.len() && graph@.nodes[k as int].id == node_id@ && forall|
                j: int,
            | 0 <= j < k ==> graph@.nodes[j].id != node_id@,
            None => forall|j: int| 0 <= j < graph@.nodes.len() ==> graph@.nodes[j].id != node_id@,
        },
{
    let mut i: usize = 0;
    while i < graph.nodes.len()
        invariant
            i <= graph@.nodes.len(),
            forall|j: int| 0 <= j < i ==> graph@.nodes[j].id != node_id@,
        decreases graph.nodes.len() - i,
    {
        if str_eq(graph.nodes[i].id.as_str(), node_id) {
            return Some(i);
        }
        i += 1;
    }
    None
}

/// A node with no edge leaving it.
pub open spec fn is_terminal(g: GraphView, id: Seq<char>) -> bool {
    forall|i: int| 0 <= i < g.edges.len() ==> (#[trigger] g.edges[i]).from != id
}

fn has_outgoing(graph: &WorkflowGraph, node_id: &str) -> (r: bool)
    ensures
        r == !is_terminal(graph@, node_id@),
{
    let mut i: usize = 0;
    while i < graph.edges.len()
        invariant
            i <= graph@.edges.len(),
            forall|j: int| 0 <= j < i ==> (#[trigger] graph@.edges[j]).from != node_id@,
        decreases graph.edges.len() - i,
    {
        if str_eq(graph.edges[i].from.as_str(), node_id) {
            assert(graph@.edges[i as int].from == node_id@);
            return true;
        }
        i += 1;
    }
    false
}

/// Why a subflow's exit node could not be determined.
#[derive(PartialEq, Eq, Structural, Clone, Copy, Debug)]
pub enum SubflowExitError {
    /// No exit node was configured and the subflow does not have exactly one
    /// terminal node.
    NotExactlyOneTerminal,
}

/// The ids of the terminal nodes, in node order.
pub open spec fn terminal_ids(g: GraphView) -> Seq<Seq<char>> {
    g.nodes.filter(|n: NodeView| is_terminal(g, n.id)).map_values(|n: NodeView| n.id)
}

/// The exit node of a subflow call: the configured id when it is non-blank
/// after trimming, else the subflow's single terminal node.
pub open spec fn subflow_exit(configured: Option<Seq<char>>, g: GraphView) -> Result<
    Seq<char>,
    SubflowExitError,
> {
    if configured is Some && trim_ws(configured.unwrap()).len() > 0 {
        Ok(trim_ws(configured.unwrap()))
    } else if terminal_ids(g).len() == 1 {
        Ok(terminal_ids(g)[0])
    } else {
        Err(SubflowExitError::NotExactlyOneTerminal)
    }
}

/// The exit node of a subflow call (see `subflow_exit`).
pub fn resolve_subflow_exit_node(exit_node_id: Option<&str>, subflow: &WorkflowGraph) -> (r: Result<
    String,
    SubflowExitError,
>)
    ensures
        match r {
            Ok(id) => subflow_exit(opt_str_view(exit_node_id), subflow@) == Ok::<
                Seq<char>,
                SubflowExitError,
            >(id@),
            Err(e) => subflow_exit(opt_str_view(exit_node_id), subflow@) == Err::<
                Seq<char>,
                SubflowExitError,
            >(e),
        },
{
    if let Some(configured) = exit_node_id {
        let chars = chars_of(configured);
        let trimmed = trim_chars(chars.as_slice(), Strip::Whitespace);
        if trimmed.len() > 0 {
            return Ok(string_of(trimmed.as_slice()));
        }
    }
    let ghost g = subflow@;
    let ghost p = |n: NodeView| is_terminal(g, n.id);
    let mut found: Vec<String> = Vec::new();
    let mut i: usize = 0;
    while i < subflow.nodes.len()
        invariant
            g == subflow@,
            p == (|n: NodeView| is_terminal(g, n.id)),
            i <= g.nodes.len(),
            found.deep_view() == g.nodes.take(i as int).filter(p).map_values(|n: NodeView| n.id),
        decreases g.nodes.len() - i,
    {
        proof {
            lemma_filter_take_step(g.nodes, p, i as int);
        }
        let n = &subflow.nodes[i];
        let ghost before = found.deep_view();
        if !has_outgoing(subflow, n.id.as_str()) {
            found.push(n.id.clone());
            proof {
                let f = g.nodes.take(i as int).filter(p);
                assert(p(g.nodes[i as int]));
                assert(g.nodes.take(i + 1).filter(p) == f.push(g.nodes[i as int]));
                assert(f.push(g.nodes[i as int]).map_values(|n: NodeView| n.id) =~= f.map_values(
                    |n: NodeView| n.id,
                ).push(g.nodes[i as int].id));
                assert(found.deep_view() =~= before.push(n.id@));
            }
        }
        i += 1;
    }
    proof {
        lemma_take_full(g.nodes);
    }
    if found.len() == 1 {
        Ok(found[0].clone())
    } else {
        Err(SubflowExitError::NotExactlyOneTerminal)
    }
}

/// The nodes a source map has entries for.
pub open spec fn source_map_keys(r: Seq<(String, Vec<String>)>) -> Seq<Seq<char>> {
    r.map_values(|e: (String, Vec<String>)| e.0@)
}

/// For every node that edges enter, the sources of those edges, in edge
/// order; each such node once, in order of its first inbound edge.
pub fn build_inbound_source_map(graph: &WorkflowGraph) -> (r: Vec<(String, Vec<String>)>)
    ensures
        source_map_keys(r@).no_duplicates(),
        forall|k: Seq<char>| #[trigger]
            source_map_keys(r@).contains(k) <==> exists|i: int|
                0 <= i < graph@.edges.len() && (#[trigger] graph@.edges[i]).to == k,
        forall|i: int|
            0 <= i < r.len() ==> (#[trigger] r@[i]).1.deep_view() == inbound(graph@, r@[i].0@).map_values(
                |e: EdgeView| e.from,
            ),
{
    let ghost g = graph@;
    let mut out: Vec<(String, Vec<String>)> = Vec::new();
    let mut keys: Vec<String> = Vec::new();
    let mut i: usize = 0;
    while i < graph.edges.len()
        invariant
            i <= graph.edges.len(),
            g == graph@,
            keys.len() == out.len(),
            forall|j: int| 0 <= j < out.len() ==> (#[trigger] out@[j]).0@ == keys.deep_view()[j],
            keys.deep_view().no_duplicates(),
            forall|k: Seq<char>| #[trigger]
                keys.deep_view().contains(k) <==> exists|a: int| 0 <= a < i && (#[trigger] g.edges[a]).to == k,
            forall|j: int|
                0 <= j < out.len() ==> (#[trigger] out@[j]).1.deep_view() == inbound(g, out@[j].0@).map_values(
                    |e: EdgeView| e.from,
                ),
        decreases graph.edges.len() - i,
    {
        let to = graph.edges[i].to.as_str();
        assert(g.edges[i as int].to == to@);
        if !contains_str(&keys, to) {
            let sources = inbound_sources(graph, to);
            let ghost kb = keys.deep_view();
            keys.push(to.to_owned());
            out.push((to.to_owned(), sources));
            proof {
                assert(keys.deep_view() =~= kb.push(to@));
                assert forall|a: int, b: int| 0 <= a < b < keys.deep_view().len() implies keys.deep_view()[a]
                    != keys.deep_view()[b] by {
                    if b == kb.len() {
                        assert(kb.contains(kb[a]));
                    }
                }
                assert forall|k: Seq<char>| #[trigger]
                    keys.deep_view().contains(k) <==> exists|a: int|
                        0 <= a < i + 1 && (#[trigger] g.edges[a]).to == k by {
                    if keys.deep_view().contains(k) {
                        let c = choose|c: int| 0 <= c < keys.deep_view().len() && keys.deep_view()[c] == k;
                        if c < kb.len() {
                            assert(kb.contains(k));
                        }
                    }
                    if exists|a: int| 0 <= a < i + 1 && (#[trigger] g.edges[a]).to == k {
                        let a = choose|a: int| 0 <= a < i + 1 && (#[trigger] g.edges[a]).to == k;
                        if a < i {
                            assert(kb.contains(k));
                            let c = choose|c: int| 0 <= c < kb.len() && kb[c] == k;
                            assert(keys.deep_view()[c] == k);
                        } else {
                            assert(keys.deep_view()[kb.len() as int] == k);
                        }
                    }
                }
            }
        }
        i += 1;
    }
    proof {
        assert(source_map_keys(out@) =~= keys.deep_view());
    }
    out
}

} // verus!
