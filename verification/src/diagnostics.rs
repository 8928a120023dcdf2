//! Workspace diagnostics: their owned form, the dependency-cycle context
//! they are checked against, and the codes event references report.
use vstd::prelude::*;
use crate::references::{copy_ref, dependency_cycle_contains, on_cycle, ref_graph, ref_key};
use crate::refs::TaskRef;
use crate::text::str_eq;

verus! {

/// How severe a diagnostic is.
#[derive(Debug, Clone, Copy, PartialEq, Eq, Structural)]
pub enum DiagnosticSeverity {
    Error,
    Warning,
    Information,
    Hint,
}

/// A diagnostic owned by the workspace: code, severity, message, the byte
/// span it concerns and related spans.
#[derive(Debug, PartialEq, Eq)]
pub struct WorkspaceDiagnostic {
    pub code: String,
    pub severity: DiagnosticSeverity,
    pub message: String,
    pub range: std::ops::Range<usize>,
    pub related: Vec<std::ops::Range<usize>>,
}

/// What diagnostics of one document need to know of the whole workspace:
/// each task's dependencies.
#[derive(Debug)]
pub struct WorkspaceDiagnosticContext {
    task_dependency_graph: Vec<(TaskRef, Vec<TaskRef>)>,
}

impl WorkspaceDiagnosticContext {
    /// The dependency graph the context was made from.
    pub closed spec fn graph(&self) -> Seq<(TaskRef, Vec<TaskRef>)> {
        self.task_dependency_graph@
    }

    /// A context over a dependency graph (each task with its dependencies).
    pub fn new(task_dependency_graph: Vec<(TaskRef, Vec<TaskRef>)>) -> (context: WorkspaceDiagnosticContext)
        ensures
            context.graph() == task_dependency_graph@,
    {
        WorkspaceDiagnosticContext { task_dependency_graph }
    }

    /// Whether the task lies on a dependency cycle.
    pub fn in_dependency_cycle(&self, task: &TaskRef) -> (cycle: bool)
        ensures
            cycle == on_cycle(ref_graph(self.graph()), ref_key(*task)),
    {
        dependency_cycle_contains(&self.task_dependency_graph, task)
    }
}

/// The tasks of a dependency graph that lie on a cycle, in the graph's order.
pub open spec fn cycle_members_spec(graph: Seq<(TaskRef, Vec<TaskRef>)>, n: int) -> Seq<TaskRef>
    decreases n,
{
    if n <= 0 {
        seq![]
    } else if on_cycle(ref_graph(graph), ref_key(graph[n - 1].0)) {
        cycle_members_spec(graph, n - 1).push(graph[n - 1].0)
    } else {
        cycle_members_spec(graph, n - 1)
    }
}

/// The tasks of the graph that lie on a dependency cycle.
pub fn dependency_cycle_members(graph: &Vec<(TaskRef, Vec<TaskRef>)>) -> (members: Vec<TaskRef>)
    ensures
        members@ == cycle_members_spec(graph@, graph@.len() as int),
{
    let mut members: Vec<TaskRef> = Vec::new();
    let mut i: usize = 0;
    while i < graph.len()
        invariant
            i <= graph.len(),
            members@ == cycle_members_spec(graph@, i as int),
        decreases graph.len() - i,
    {
        if dependency_cycle_contains(graph, &graph[i].0) {
            members.push(copy_ref(&graph[i].0));
        }
        i = i + 1;
    }
    members
}

/// The code a task-reference diagnostic takes when the reference stands in
/// an event: the task codes are renamed, any other code is kept.
pub open spec fn event_code(code: Seq<char>) -> Seq<char> {
    if code == "task.invalid-target"@ {
        "event.invalid-task-reference"@
    } else if code == "task.unresolved-path"@ {
        "event.unresolved-task-path"@
    } else if code == "task.unresolved-anchor"@ {
        "event.unresolved-task"@
    } else if code == "task.ambiguous-anchor"@ {
        "event.ambiguous-task"@
    } else if code == "task.non-task-target"@ {
        "event.target-not-task"@
    } else {
        code
    }
}

/// Renames a task-reference diagnostic code for a reference in an event.
pub fn event_diagnostic_code(code: &str) -> (renamed: String)
    ensures
        renamed@ == event_code(code@),
{
    if str_eq(code, "task.invalid-target") {
        "event.invalid-task-reference".to_string()
    } else if str_eq(code, "task.unresolved-path") {
        "event.unresolved-task-path".to_string()
    } else if str_eq(code, "task.unresolved-anchor") {
        "event.unresolved-task".to_string()
    } else if str_eq(code, "task.ambiguous-anchor") {
        "event.ambiguous-task".to_string()
    } else if str_eq(code, "task.non-task-target") {
        "event.target-not-task".to_string()
    } else {
        code.to_string()
    }
}

} // verus!
