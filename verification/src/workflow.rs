//! Task workflow states and the rule that derives them from a task's closure
//! state, its wait time and whether an open dependency blocks it.
use vstd::prelude::*;
use crate::time::{instant_before, is_before, parse_timestamp, timestamp_of, Timestamp};

verus! {

/// Kinds of records that workspace search returns.
#[derive(Debug, Clone, Copy, PartialEq, Eq, Structural)]
pub enum SearchRecordKind {
    Note,
    Task,
    Event,
}

/// Where a task stands in its workflow.
#[derive(Debug, Clone, Copy, PartialEq, Eq, Structural)]
pub enum TaskWorkflowState {
    Ready,
    Waiting,
    Blocked,
    Done,
    Canceled,
    Conflicted,
}

/// Why an open task is not ready.
#[derive(Debug, Clone, Copy, PartialEq, Eq, Structural)]
pub enum TaskWaitReason {
    Time,
    Dependency,
}

/// How a task was closed, as recorded in its source.
#[derive(Debug, Clone, Copy, PartialEq, Eq, Structural)]
pub enum TaskClosure {
    Open,
    Done,
    Canceled,
    Conflicted,
}

/// The name a workflow state has in queries and output.
pub open spec fn workflow_state_name(state: TaskWorkflowState) -> Seq<char> {
    match state {
        TaskWorkflowState::Ready => "ready"@,
        TaskWorkflowState::Waiting => "waiting"@,
        TaskWorkflowState::Blocked => "blocked"@,
        TaskWorkflowState::Done => "done"@,
        TaskWorkflowState::Canceled => "canceled"@,
        TaskWorkflowState::Conflicted => "conflicted"@,
    }
}

/// The name a wait reason has in queries and output.
pub open spec fn wait_reason_name(reason: TaskWaitReason) -> Seq<char> {
    match reason {
        TaskWaitReason::Time => "time"@,
        TaskWaitReason::Dependency => "dependency"@,
    }
}

impl TaskWorkflowState {
    pub fn as_str(self) -> (name: &'static str)
        ensures
            name@ == workflow_state_name(self),
    {
        match self {
            TaskWorkflowState::Ready => "ready",
            TaskWorkflowState::Waiting => "waiting",
            TaskWorkflowState::Blocked => "blocked",
            TaskWorkflowState::Done => "done",
            TaskWorkflowState::Canceled => "canceled",
            TaskWorkflowState::Conflicted => "conflicted",
        }
    }
}

impl TaskWaitReason {
    pub fn as_str(self) -> (name: &'static str)
        ensures
            name@ == wait_reason_name(self),
    {
        match self {
            TaskWaitReason::Time => "time",
            TaskWaitReason::Dependency => "dependency",
        }
    }
}

/// Whether a task's wait text names an instant after `now`.  A wait that is
/// absent or not valid RFC 3339 does not hold a task back.
pub open spec fn waits_past(wait: Option<Seq<char>>, now: Timestamp) -> bool {
    match wait {
        Some(text) => match timestamp_of(text) {
            Some(until) => instant_before(now, until),
            None => false,
        },
        None => false,
    }
}

/// The workflow state of a task: closed tasks keep their closure; an open
/// task waits while its wait time lies after `now`, is blocked while an open
/// dependency remains, and is ready otherwise.
pub open spec fn workflow_state_spec(
    closure: TaskClosure,
    wait: Option<Seq<char>>,
    blocked: bool,
    now: Timestamp,
) -> TaskWorkflowState {
    match closure {
        TaskClosure::Done => TaskWorkflowState::Done,
        TaskClosure::Canceled => TaskWorkflowState::Canceled,
        TaskClosure::Conflicted => TaskWorkflowState::Conflicted,
        TaskClosure::Open => if waits_past(wait, now) {
            TaskWorkflowState::Waiting
        } else if blocked {
            TaskWorkflowState::Blocked
        } else {
            TaskWorkflowState::Ready
        },
    }
}

/// The wait reasons reported with a workflow state: time first, then
/// dependency, and none for a closed task.
pub open spec fn wait_reasons_spec(
    closure: TaskClosure,
    wait: Option<Seq<char>>,
    blocked: bool,
    now: Timestamp,
) -> Seq<TaskWaitReason> {
    match closure {
        TaskClosure::Open => {
            let time = if waits_past(wait, now) {
                seq![TaskWaitReason::Time]
            } else {
                seq![]
            };
            let dependency = if blocked {
                seq![TaskWaitReason::Dependency]
            } else {
                seq![]
            };
            time + dependency
        },
        _ => seq![],
    }
}

pub open spec fn opt_view(s: Option<String>) -> Option<Seq<char>> {
    match s {
        Some(t) => Some(t@),
        None => None,
    }
}

/// Derives a task's workflow state and wait reasons from its closure, its
/// `wait` attribute, whether an open dependency blocks it, and the instant
/// `now`.
pub fn derive_task_workflow_state(
    closure: TaskClosure,
    wait: &Option<String>,
    blocked: bool,
    now: &Timestamp,
) -> (result: (TaskWorkflowState, Vec<TaskWaitReason>))
    ensures
        result.0 == workflow_state_spec(closure, opt_view(*wait), blocked, *now),
        result.1@ == wait_reasons_spec(closure, opt_view(*wait), blocked, *now),
{
    match closure {
        TaskClosure::Done => (TaskWorkflowState::Done, Vec::new()),
        TaskClosure::Canceled => (TaskWorkflowState::Canceled, Vec::new()),
        TaskClosure::Conflicted => (TaskWorkflowState::Conflicted, Vec::new()),
        TaskClosure::Open => {
            let mut reasons: Vec<TaskWaitReason> = Vec::new();
            let waiting = match wait {
                Some(text) => match parse_timestamp(text.as_str()) {
                    Some(until) => is_before(now, &until),
                    None => false,
                },
                None => false,
            };
            if waiting {
                reasons.push(TaskWaitReason::Time);
            }
            if blocked {
                reasons.push(TaskWaitReason::Dependency);
            }
            let state = if waiting {
                TaskWorkflowState::Waiting
            } else if blocked {
                TaskWorkflowState::Blocked
            } else {
                TaskWorkflowState::Ready
            };
            proof {
                assert(waiting == waits_past(opt_view(*wait), *now));
                let time: Seq<TaskWaitReason> = if waiting {
                    seq![TaskWaitReason::Time]
                } else {
                    seq![]
                };
                let dependency: Seq<TaskWaitReason> = if blocked {
                    seq![TaskWaitReason::Dependency]
                } else {
                    seq![]
                };
                assert(reasons@ =~= time + dependency);
            }
            (state, reasons)
        },
    }
}

/// A task is actionable exactly when it is ready; a ready task has no wait
/// reason, and every non-ready open task has at least one.
pub proof fn lemma_ready_iff_no_wait_reason(wait: Option<Seq<char>>, blocked: bool, now: Timestamp)
    ensures
        (workflow_state_spec(TaskClosure::Open, wait, blocked, now) == TaskWorkflowState::Ready)
            <==> wait_reasons_spec(TaskClosure::Open, wait, blocked, now).len() == 0,
{
}

} // verus!
