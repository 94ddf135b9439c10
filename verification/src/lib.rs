//! Verified core of a local-first graph workflow runner: the decisions that
//! the scheduler takes over workflow graphs, cursors, collector barriers,
//! approvals, decide nodes and tmux pane bookkeeping.

pub mod approvals;
pub mod bindings;
pub mod barrier;
pub mod candidates;
pub mod collectors;
pub mod counters;
pub mod cursor;
pub mod decide;
pub mod graph;
pub mod ids;
pub mod lifecycle;
pub mod naming;
pub mod nearest;
pub mod panes;
pub mod reaper;
pub mod records;
pub mod registry;
pub mod restart;
pub mod resume;
pub mod results;
pub mod routing;
pub mod scheduler;
pub mod seqs;
pub mod session;
pub mod skip;
pub mod strset;
pub mod task;
pub mod template;
pub mod text;
