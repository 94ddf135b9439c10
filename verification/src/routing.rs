//! Where a cursor goes after a node completes: the branch a decide node
//! named, a loop's continue or exit edge, a branch edge, or the success edge.

use vstd::prelude::*;

use crate::graph::{NodeKindView, NodeKind, NodeView, GraphView, WorkflowEdge, WorkflowEdgeOutcome, WorkflowGraph, WorkflowNode};
use crate::text::{chars_of, decimal, digit_char, extend_chars, extend_str, lemma_decimal_roundtrip, str_eq, string_of, trim_chars, trim_ws, Strip};

verus! {

/// The first index in `lo..hi` where `p` holds, or -1.
pub open spec fn first_idx(p: spec_fn(int) -> bool, lo: int, hi: int) -> int
    decreases hi - lo,
{
    if lo >= hi {
        -1
    } else if p(lo) {
        lo
    } else {
        first_idx(p, lo + 1, hi)
    }
}

/// `first_idx` finds the first index in range that satisfies `p`, or -1.
pub proof fn lemma_first_idx(p: spec_fn(int) -> bool, lo: int, hi: int)
    requires
        0 <= lo,
    ensures
        first_idx(p, lo, hi) == -1 <==> forall|j: int| lo <= j < hi ==> !#[trigger] p(j),
        first_idx(p, lo, hi) != -1 ==> {
            let r = first_idx(p, lo, hi);
            &&& lo <= r < hi
            &&& p(r)
            &&& forall|j: int| lo <= j < r ==> !#[trigger] p(j)
        },
    decreases hi - lo,
{
    if lo < hi {
        lemma_first_idx(p, lo + 1, hi);
        if p(lo) {
            assert(first_idx(p, lo, hi) == lo);
            assert(!(forall|j: int| lo <= j < hi ==> !#[trigger] p(j)));
        } else {
            assert(first_idx(p, lo, hi) == first_idx(p, lo + 1, hi));
            if first_idx(p, lo + 1, hi) == -1 {
                assert forall|j: int| lo <= j < hi implies !#[trigger] p(j) by {
                    if j > lo {
                        assert(lo + 1 <= j < hi);
                    }
                }
            } else {
                let r = first_idx(p, lo + 1, hi);
                assert(p(r));
                assert(!(forall|j: int| lo <= j < hi ==> !#[trigger] p(j)));
                assert forall|j: int| lo <= j < r implies !#[trigger] p(j) by {
                    if j > lo {
                        assert(lo + 1 <= j < r);
                    }
                }
            }
        }
    } else {
        assert(first_idx(p, lo, hi) == -1);
    }
}

/// An index reached by scanning in order is the first index.
pub proof fn lemma_first_idx_is(p: spec_fn(int) -> bool, hi: int, i: int)
    requires
        0 <= i < hi,
        p(i),
        forall|j: int| 0 <= j < i ==> !#[trigger] p(j),
    ensures
        first_idx(p, 0, hi) == i,
{
    lemma_first_idx(p, 0, hi);
    let r = first_idx(p, 0, hi);
    if r != i {
        if r < i {
            assert(!p(r));
        } else {
            assert(!p(i));
        }
    }
}

/// Edge `i` leaves `id` with `outcome`, and carries `label` when one is given.
pub open spec fn edge_is(g: GraphView, id: Seq<char>, outcome: WorkflowEdgeOutcome, label: Option<Seq<char>>, i: int) -> bool {
    &&& g.edges[i].from == id
    &&& g.edges[i].outcome == outcome
    &&& (label is Some ==> g.edges[i].label == label)
}

pub open spec fn first_edge_is(g: GraphView, id: Seq<char>, outcome: WorkflowEdgeOutcome, label: Option<Seq<char>>) -> int {
    first_idx(|i: int| edge_is(g, id, outcome, label, i), 0, g.edges.len() as int)
}

fn opt_str_eq_ref(a: &Option<String>, b: &str) -> (r: bool)
    ensures
        r == (a.deep_view() == Some(b@)),
{
    match a {
        Some(x) => str_eq(x.as_str(), b),
        None => false,
    }
}

/// Index of the first edge leaving `node_id` with `outcome` (and `label`).
pub fn find_edge(graph: &WorkflowGraph, node_id: &str, outcome: WorkflowEdgeOutcome, label: Option<&str>) -> (r: Option<usize>)
    ensures
        match r {
            Some(i) => i < graph.edges.len() && i as int == first_edge_is(graph@, node_id@, outcome, crate::text::opt_str_view(label)),
            None => first_edge_is(graph@, node_id@, outcome, crate::text::opt_str_view(label)) == -1,
        },
{
    let ghost g = graph@;
    let ghost lv = crate::text::opt_str_view(label);
    let ghost p = |i: int| edge_is(g, node_id@, outcome, lv, i);
    let mut i: usize = 0;
    while i < graph.edges.len()
        invariant
            i <= graph.edges.len(),
            g == graph@,
            p == (|i: int| edge_is(g, node_id@, outcome, lv, i)),
            lv == crate::text::opt_str_view(label),
            forall|j: int| 0 <= j < i ==> !#[trigger] p(j),
        decreases graph.edges.len() - i,
    {
        let e = &graph.edges[i];
        assert(g.edges[i as int] == e@);
        let label_ok = match label {
            Some(l) => opt_str_eq_ref(&e.label, l),
            None => true,
        };
        if str_eq(e.from.as_str(), node_id) && e.outcome == outcome && label_ok {
            proof {
                assert(edge_is(g, node_id@, outcome, lv, i as int));
                assert(p(i as int));
                lemma_first_idx_is(p, g.edges.len() as int, i as int);
            }
            return Some(i);
        }
        i += 1;
    }
    proof {
        lemma_first_idx(p, 0, g.edges.len() as int);
    }
    None
}

/// Index of the first branch edge leaving `node_id` whose condition matched.
pub open spec fn first_matched_branch(g: GraphView, id: Seq<char>, verdicts: Seq<bool>) -> int {
    first_idx(|i: int| edge_is(g, id, WorkflowEdgeOutcome::Branch, None, i) && verdicts[i], 0, g.edges.len() as int)
}

fn find_matched_branch(graph: &WorkflowGraph, node_id: &str, verdicts: &Vec<bool>) -> (r: Option<usize>)
    requires
        verdicts.len() == graph.edges.len(),
    ensures
        match r {
            Some(i) => i as int == first_matched_branch(graph@, node_id@, verdicts@),
            None => first_matched_branch(graph@, node_id@, verdicts@) == -1,
        },
{
    let ghost g = graph@;
    let ghost p = |i: int| edge_is(g, node_id@, WorkflowEdgeOutcome::Branch, None, i) && verdicts@[i];
    let mut i: usize = 0;
    while i < graph.edges.len()
        invariant
            i <= graph.edges.len() == verdicts.len(),
            g == graph@,
            p == (|i: int| edge_is(g, node_id@, WorkflowEdgeOutcome::Branch, None, i) && verdicts@[i]),
            forall|j: int| 0 <= j < i ==> !#[trigger] p(j),
        decreases graph.edges.len() - i,
    {
        let e = &graph.edges[i];
        assert(g.edges[i as int] == e@);
        if str_eq(e.from.as_str(), node_id) && e.outcome == WorkflowEdgeOutcome::Branch && verdicts[i] {
            proof {
                assert(edge_is(g, node_id@, WorkflowEdgeOutcome::Branch, None, i as int));
                assert(p(i as int));
                lemma_first_idx_is(p, g.edges.len() as int, i as int);
            }
            return Some(i);
        }
        i += 1;
    }
    proof {
        lemma_first_idx(p, 0, g.edges.len() as int);
    }
    None
}

/// The decimal digits of `n`.
pub fn decimal_string(n: u64) -> (r: String)
    ensures
        r@ == decimal(n as nat),
    decreases n,
{
    let mut digits: Vec<char> = Vec::new();
    if n >= 10 {
        let head = decimal_string(n / 10);
        extend_str(&mut digits, head.as_str());
    }
    let d = n % 10;
    let c = if d == 0 { '0' } else if d == 1 { '1' } else if d == 2 { '2' } else if d == 3 { '3' } else if d == 4 { '4' } else if d == 5 { '5' } else if d == 6 { '6' } else if d == 7 { '7' } else if d == 8 { '8' } else { '9' };
    assert(c == digit_char((n % 10) as nat));
    digits.push(c);
    proof {
        if n < 10 {
            assert(digits@ =~= seq![digit_char(n as nat)]);
        } else {
            assert(digits@ =~= decimal((n / 10) as nat).push(digit_char((n % 10) as nat)));
        }
    }
    string_of(digits.as_slice())
}

/// What a routing decision did, for the events and logs it produces.
#[derive(Debug, Clone, Copy, PartialEq, Eq, Structural)]
pub enum DecisionKind {
    /// A decide node's output named a branch edge's label.
    DecideMatched,
    /// A decide node's output named no branch edge; the success edge is taken.
    DecideUnmatched,
    /// A loop reached its iteration cap; `fails_run` when it has no exit edge.
    LoopMaxReached { fails_run: bool },
    /// A loop condition was evaluated; `continue_loop` when it matched.
    LoopVerdict { continue_loop: bool },
    /// A branch edge was taken (the first whose condition matched, else the
    /// first branch edge).
    BranchTaken,
    /// The success edge (if any) is taken.
    DefaultSuccess,
}

/// Where a cursor goes next, and why.
pub struct NextDecision {
    pub next_edge: Option<WorkflowEdge>,
    pub control_type: String,
    pub reason: String,
    pub kind: DecisionKind,
}

/// A routing decision: the index of the next edge (-1 for none), the control
/// type, the reason, and what kind of decision it was.
pub struct DecisionView {
    pub edge: int,
    pub control_type: Seq<char>,
    pub reason: Seq<char>,
    pub kind: DecisionKind,
}

/// The iteration cap of a loop node (5 when unset).
pub open spec fn loop_cap(n: NodeView) -> u32 {
    match n.loop_max_iterations {
        Some(m) => m,
        None => 5,
    }
}

/// The routing decision after node `n` succeeded with `output`.
/// `loop_verdict` is the loop condition's verdict when the node has a loop
/// condition and the result parsed output; `verdicts[i]` holds when edge `i`
/// has a condition that matched the parsed output.
pub open spec fn next_decision(
    g: GraphView,
    n: NodeView,
    output: Seq<char>,
    loop_verdict: Option<bool>,
    verdicts: Seq<bool>,
    iteration: u32,
) -> DecisionView {
    let id = n.id;
    let succ = first_edge_is(g, id, WorkflowEdgeOutcome::Success, None);
    if n.kind is Decide {
        let label = trim_ws(output);
        let b = first_edge_is(g, id, WorkflowEdgeOutcome::Branch, Some(label));
        if b >= 0 {
            DecisionView { edge: b, control_type: "branch"@, reason: label, kind: DecisionKind::DecideMatched }
        } else {
            DecisionView {
                edge: succ,
                control_type: "success"@,
                reason: "decide outcome \""@ + label + "\" has no matching branch edge"@,
                kind: DecisionKind::DecideUnmatched,
            }
        }
    } else {
        let lc = first_edge_is(g, id, WorkflowEdgeOutcome::LoopContinue, None);
        let le = first_edge_is(g, id, WorkflowEdgeOutcome::LoopExit, None);
        let cap = loop_cap(n);
        let bs = first_edge_is(g, id, WorkflowEdgeOutcome::Branch, None);
        if lc >= 0 && iteration >= cap {
            DecisionView {
                edge: le,
                control_type: "loop_exit"@,
                reason: "max iterations ("@ + decimal(cap as nat) + ") reached"@,
                kind: DecisionKind::LoopMaxReached { fails_run: le < 0 },
            }
        } else if lc >= 0 && loop_verdict is Some {
            let matched = loop_verdict.unwrap();
            DecisionView {
                edge: if matched { lc } else { le },
                control_type: if matched { "loop_continue"@ } else { "loop_exit"@ },
                reason: "iteration "@ + decimal(iteration as nat),
                kind: DecisionKind::LoopVerdict { continue_loop: matched },
            }
        } else if bs >= 0 {
            let bc = first_matched_branch(g, id, verdicts);
            let chosen = if bc >= 0 { bc } else { bs };
            DecisionView {
                edge: chosen,
                control_type: "branch"@,
                reason: match g.edges[chosen].label {
                    Some(l) => l,
                    None => g.edges[chosen].id,
                },
                kind: DecisionKind::BranchTaken,
            }
        } else {
            DecisionView { edge: succ, control_type: "success"@, reason: seq![], kind: DecisionKind::DefaultSuccess }
        }
    }
}

fn edge_at(graph: &WorkflowGraph, i: Option<usize>) -> (r: Option<WorkflowEdge>)
    requires
        i is Some ==> i.unwrap() < graph.edges.len(),
    ensures
        match i {
            Some(k) => r is Some && r.unwrap()@ == graph@.edges[k as int],
            None => r is None,
        },
{
    match i {
        Some(k) => Some(graph.edges[k].duplicate()),
        None => None,
    }
}

/// Chooses where the cursor goes after `node` succeeded with `output`.
pub fn select_next_decision(
    graph: &WorkflowGraph,
    node: &WorkflowNode,
    output: &str,
    loop_verdict: Option<bool>,
    branch_verdicts: &Vec<bool>,
    iteration: u32,
) -> (r: NextDecision)
    requires
        branch_verdicts.len() == graph.edges.len(),
    ensures
        ({
            let d = next_decision(graph@, node@, output@, loop_verdict, branch_verdicts@, iteration);
            &&& r.control_type@ == d.control_type
            &&& r.reason@ == d.reason
            &&& r.kind == d.kind
            &&& d.edge < graph@.edges.len()
            &&& match r.next_edge {
                Some(e) => d.edge >= 0 && e@ == graph@.edges[d.edge],
                None => d.edge == -1,
            }
        }),
{
    let ghost g = graph@;
    let id = node.id.as_str();
    let succ = find_edge(graph, id, WorkflowEdgeOutcome::Success, None);
    proof {
        lemma_first_idx(|i: int| edge_is(g, node@.id, WorkflowEdgeOutcome::Success, None, i), 0, g.edges.len() as int);
    }
    if let NodeKind::Decide { .. } = &node.kind {
        let out_chars = chars_of(output);
        let label_chars = trim_chars(out_chars.as_slice(), Strip::Whitespace);
        let label = string_of(label_chars.as_slice());
        let b = find_edge(graph, id, WorkflowEdgeOutcome::Branch, Some(label.as_str()));
        proof {
            lemma_first_idx(|i: int| edge_is(g, node@.id, WorkflowEdgeOutcome::Branch, Some(label@), i), 0, g.edges.len() as int);
        }
        if b.is_some() {
            return NextDecision {
                next_edge: edge_at(graph, b),
                control_type: "branch".to_owned(),
                reason: label,
                kind: DecisionKind::DecideMatched,
            };
        }
        let mut reason: Vec<char> = Vec::new();
        extend_str(&mut reason, "decide outcome \"");
        extend_chars(&mut reason, label_chars.as_slice());
        extend_str(&mut reason, "\" has no matching branch edge");
        return NextDecision {
            next_edge: edge_at(graph, succ),
            control_type: "success".to_owned(),
            reason: string_of(reason.as_slice()),
            kind: DecisionKind::DecideUnmatched,
        };
    }
    let lc = find_edge(graph, id, WorkflowEdgeOutcome::LoopContinue, None);
    let le = find_edge(graph, id, WorkflowEdgeOutcome::LoopExit, None);
    let bs = find_edge(graph, id, WorkflowEdgeOutcome::Branch, None);
    proof {
        lemma_first_idx(|i: int| edge_is(g, node@.id, WorkflowEdgeOutcome::LoopContinue, None, i), 0, g.edges.len() as int);
        lemma_first_idx(|i: int| edge_is(g, node@.id, WorkflowEdgeOutcome::LoopExit, None, i), 0, g.edges.len() as int);
        lemma_first_idx(|i: int| edge_is(g, node@.id, WorkflowEdgeOutcome::Branch, None, i), 0, g.edges.len() as int);
    }
    let cap: u32 = match node.loop_max_iterations {
        Some(m) => m,
        None => 5,
    };
    if lc.is_some() && iteration >= cap {
        let mut reason: Vec<char> = Vec::new();
        extend_str(&mut reason, "max iterations (");
        let digits = decimal_string(cap as u64);
        extend_str(&mut reason, digits.as_str());
        extend_str(&mut reason, ") reached");
        return NextDecision {
            next_edge: edge_at(graph, le),
            control_type: "loop_exit".to_owned(),
            reason: string_of(reason.as_slice()),
            kind: DecisionKind::LoopMaxReached { fails_run: le.is_none() },
        };
    }
    if lc.is_some() && loop_verdict.is_some() {
        let matched = loop_verdict.unwrap();
        let mut reason: Vec<char> = Vec::new();
        extend_str(&mut reason, "iteration ");
        let digits = decimal_string(iteration as u64);
        extend_str(&mut reason, digits.as_str());
        return NextDecision {
            next_edge: if matched { edge_at(graph, lc) } else { edge_at(graph, le) },
            control_type: if matched { "loop_continue".to_owned() } else { "loop_exit".to_owned() },
            reason: string_of(reason.as_slice()),
            kind: DecisionKind::LoopVerdict { continue_loop: matched },
        };
    }
    if bs.is_some() {
        let bc = find_matched_branch(graph, id, branch_verdicts);
        proof {
            lemma_first_idx(|i: int| edge_is(g, node@.id, WorkflowEdgeOutcome::Branch, None, i) && branch_verdicts@[i], 0, g.edges.len() as int);
        }
        let chosen = if bc.is_some() { bc.unwrap() } else { bs.unwrap() };
        let e = &graph.edges[chosen];
        let reason = match &e.label {
            Some(l) => l.clone(),
            None => e.id.clone(),
        };
        return NextDecision {
            next_edge: Some(e.duplicate()),
            control_type: "branch".to_owned(),
            reason,
            kind: DecisionKind::BranchTaken,
        };
    }
    NextDecision {
        next_edge: edge_at(graph, succ),
        control_type: "success".to_owned(),
        reason: String::new(),
        kind: DecisionKind::DefaultSuccess,
    }
}

} // verus!
