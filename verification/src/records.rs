//! The records a run keeps and reports: its decision and transition logs,
//! the summary of an interrupted run, the errors of run control, the
//! context of a node preview, and the wire names of node types and edge
//! outcomes.

use vstd::prelude::*;

use crate::cursor::{PendingApproval, RuntimeStatus};
use crate::graph::WorkflowEdgeOutcome;

verus! {

/// One routing decision of a run.
#[derive(Debug, Clone, PartialEq, Eq)]
pub struct DecisionLog {
    pub kind: String,
    pub node_id: String,
    pub chosen_branch: Option<String>,
    pub chosen_label: Option<String>,
    pub verdict: Option<String>,
    pub duration: Option<String>,
    pub deterministic: bool,
    pub raw_request: Option<String>,
    pub raw_response: Option<String>,
    pub timestamp: String,
}

/// One move of a cursor from a node to the next (or to none).
#[derive(Debug, Clone, PartialEq, Eq)]
pub struct TransitionLog {
    pub cursor_id: Option<String>,
    pub from_node_id: String,
    pub to_node_id: Option<String>,
    pub control_type: String,
    pub reason: String,
    pub timestamp: String,
}

pub struct TransitionView {
    pub cursor_id: Option<Seq<char>>,
    pub from_node_id: Seq<char>,
    pub to_node_id: Option<Seq<char>>,
    pub control_type: Seq<char>,
    pub reason: Seq<char>,
    pub timestamp: Seq<char>,
}

impl View for TransitionLog {
    type V = TransitionView;

    open spec fn view(&self) -> TransitionView {
        TransitionView {
            cursor_id: self.cursor_id.deep_view(),
            from_node_id: self.from_node_id@,
            to_node_id: self.to_node_id.deep_view(),
            control_type: self.control_type@,
            reason: self.reason@,
            timestamp: self.timestamp@,
        }
    }
}

impl TransitionLog {
/// A transition record.
    pub fn new(
        cursor_id: Option<String>,
        from_node_id: String,
        to_node_id: Option<String>,
        control_type: &str,
        reason: &str,
        timestamp: String,
    ) -> (r: TransitionLog)
        ensures
            r@ == (TransitionView {
                cursor_id: cursor_id.deep_view(),
                from_node_id: from_node_id@,
                to_node_id: to_node_id.deep_view(),
                control_type: control_type@,
                reason: reason@,
                timestamp: timestamp@,
            }),
    {
        TransitionLog {
            cursor_id,
            from_node_id,
            to_node_id,
            control_type: control_type.to_owned(),
            reason: reason.to_owned(),
            timestamp,
        }
    }
}

/// What a run that did not finish reports when the runtime starts again.
#[derive(Debug, Clone, PartialEq, Eq)]
pub struct InterruptedRunSummary {
    pub run_id: String,
    pub status: RuntimeStatus,
    pub workflow_name: String,
    pub current_node_id: Option<String>,
    pub current_node_name: Option<String>,
    pub total_executed: u32,
    pub started_at: String,
    pub updated_at: String,
    pub pending_approval: Option<PendingApproval>,
}

/// Why a run-control request was refused.
#[derive(Debug, PartialEq, Eq)]
pub enum RunControlError {
    RunNotFound,
    TerminalState,
    AlreadyActive,
    NodeNotFound,
    NoActiveInteraction,
    StaleInteractionSession,
    Internal(String),
}

/// The message of a run-control error.
pub open spec fn run_control_message(e: RunControlError) -> Seq<char> {
    match e {
        RunControlError::RunNotFound => "run not found"@,
        RunControlError::TerminalState => "run is in terminal state"@,
        RunControlError::AlreadyActive => "run is already actively executing"@,
        RunControlError::NodeNotFound => "node not found in workflow"@,
        RunControlError::NoActiveInteraction => "no active interaction for this run"@,
        RunControlError::StaleInteractionSession => "interaction session is stale"@,
        RunControlError::Internal(m) => m@,
    }
}

impl RunControlError {
    /// The error's message.
    pub fn message(&self) -> (r: String)
        ensures
            r@ == run_control_message(*self),
    {
        match self {
            RunControlError::RunNotFound => "run not found".to_string(),
            RunControlError::TerminalState => "run is in terminal state".to_string(),
            RunControlError::AlreadyActive => "run is already actively executing".to_string(),
            RunControlError::NodeNotFound => "node not found in workflow".to_string(),
            RunControlError::NoActiveInteraction => "no active interaction for this run".to_string(),
            RunControlError::StaleInteractionSession => "interaction session is stale".to_string(),
            RunControlError::Internal(m) => m.clone(),
        }
    }
}

/// The mocked context a single node runs in when previewed: the variables
/// and the outputs of other nodes, each by name in key order.
#[derive(Debug, Clone, Default)]
pub struct NodeTestContext {
    pub variables: Vec<(String, String)>,
    pub node_outputs: Vec<(String, String)>,
    pub previous_output: String,
    pub branch_origin: Option<String>,
    pub branch_choice: Option<String>,
}

/// A node type, as workflows name it.
#[derive(Debug, Clone, Copy, PartialEq, Eq, Structural)]
pub enum WorkflowNodeType {
    Task,
    Approval,
    Split,
    Collector,
    Decide,
    ParallelBatch,
    Subflow,
    Call,
    Spawn,
    Send,
    Wait,
    Capture,
    Kill,
    RunAgent,
}

/// The wire names of the node types, in declaration order.
pub open spec fn node_type_tags() -> Seq<Seq<char>> {
    seq![
        "task"@,
        "approval"@,
        "split"@,
        "collector"@,
        "decide"@,
        "parallel_batch"@,
        "subflow"@,
        "call"@,
        "spawn"@,
        "send"@,
        "wait"@,
        "capture"@,
        "kill"@,
        "run_agent"@,
    ]
}

/// The wire names of the edge outcomes, in declaration order.
pub open spec fn edge_outcome_tags() -> Seq<Seq<char>> {
    seq!["success"@, "branch"@, "loop_continue"@, "loop_exit"@, "reject"@]
}

/// The wire name of a node type.
pub open spec fn node_type_tag(t: WorkflowNodeType) -> Seq<char> {
    match t {
        WorkflowNodeType::Task => "task"@,
        WorkflowNodeType::Approval => "approval"@,
        WorkflowNodeType::Split => "split"@,
        WorkflowNodeType::Collector => "collector"@,
        WorkflowNodeType::Decide => "decide"@,
        WorkflowNodeType::ParallelBatch => "parallel_batch"@,
        WorkflowNodeType::Subflow => "subflow"@,
        WorkflowNodeType::Call => "call"@,
        WorkflowNodeType::Spawn => "spawn"@,
        WorkflowNodeType::Send => "send"@,
        WorkflowNodeType::Wait => "wait"@,
        WorkflowNodeType::Capture => "capture"@,
        WorkflowNodeType::Kill => "kill"@,
        WorkflowNodeType::RunAgent => "run_agent"@,
    }
}

/// The wire name of an edge outcome.
pub open spec fn edge_outcome_tag(o: WorkflowEdgeOutcome) -> Seq<char> {
    match o {
        WorkflowEdgeOutcome::Success => "success"@,
        WorkflowEdgeOutcome::Branch => "branch"@,
        WorkflowEdgeOutcome::LoopContinue => "loop_continue"@,
        WorkflowEdgeOutcome::LoopExit => "loop_exit"@,
        WorkflowEdgeOutcome::Reject => "reject"@,
    }
}

/// The wire name of a node type.
pub fn node_type_name(t: WorkflowNodeType) -> (r: &'static str)
    ensures
        r@ == node_type_tag(t),
{
    match t {
        WorkflowNodeType::Task => "task",
        WorkflowNodeType::Approval => "approval",
        WorkflowNodeType::Split => "split",
        WorkflowNodeType::Collector => "collector",
        WorkflowNodeType::Decide => "decide",
        WorkflowNodeType::ParallelBatch => "parallel_batch",
        WorkflowNodeType::Subflow => "subflow",
        WorkflowNodeType::Call => "call",
        WorkflowNodeType::Spawn => "spawn",
        WorkflowNodeType::Send => "send",
        WorkflowNodeType::Wait => "wait",
        WorkflowNodeType::Capture => "capture",
        WorkflowNodeType::Kill => "kill",
        WorkflowNodeType::RunAgent => "run_agent",
    }
}

/// The wire name of an edge outcome.
pub fn edge_outcome_name(o: WorkflowEdgeOutcome) -> (r: &'static str)
    ensures
        r@ == edge_outcome_tag(o),
{
    match o {
        WorkflowEdgeOutcome::Success => "success",
        WorkflowEdgeOutcome::Branch => "branch",
        WorkflowEdgeOutcome::LoopContinue => "loop_continue",
        WorkflowEdgeOutcome::LoopExit => "loop_exit",
        WorkflowEdgeOutcome::Reject => "reject",
    }
}

/// Every node type's wire name, in declaration order.
pub fn workflow_node_type_tags() -> (r: Vec<&'static str>)
    ensures
        r@.map_values(|s: &'static str| s@) == node_type_tags(),
{
    let r = vec![
        node_type_name(WorkflowNodeType::Task),
        node_type_name(WorkflowNodeType::Approval),
        node_type_name(WorkflowNodeType::Split),
        node_type_name(WorkflowNodeType::Collector),
        node_type_name(WorkflowNodeType::Decide),
        node_type_name(WorkflowNodeType::ParallelBatch),
        node_type_name(WorkflowNodeType::Subflow),
        node_type_name(WorkflowNodeType::Call),
        node_type_name(WorkflowNodeType::Spawn),
        node_type_name(WorkflowNodeType::Send),
        node_type_name(WorkflowNodeType::Wait),
        node_type_name(WorkflowNodeType::Capture),
        node_type_name(WorkflowNodeType::Kill),
        node_type_name(WorkflowNodeType::RunAgent),
    ];
    assert(r@.map_values(|s: &'static str| s@) =~= node_type_tags());
    r
}

/// Every edge outcome's wire name, in declaration order.
pub fn workflow_edge_outcome_tags() -> (r: Vec<&'static str>)
    ensures
        r@.map_values(|s: &'static str| s@) == edge_outcome_tags(),
{
    let r = vec![
        edge_outcome_name(WorkflowEdgeOutcome::Success),
        edge_outcome_name(WorkflowEdgeOutcome::Branch),
        edge_outcome_name(WorkflowEdgeOutcome::LoopContinue),
        edge_outcome_name(WorkflowEdgeOutcome::LoopExit),
        edge_outcome_name(WorkflowEdgeOutcome::Reject),
    ];
    assert(r@.map_values(|s: &'static str| s@) =~= edge_outcome_tags());
    r
}

} // verus!
