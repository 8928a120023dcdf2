//! The workspace diagnostics of a document's tasks: references that do not
//! reach a task, tasks that depend on themselves or lie on a dependency
//! cycle, completed tasks that still wait on open work, and blocked tasks.
//! Resolving references and finding open dependencies is the caller's part.
use vstd::prelude::*;
use crate::diagnostics::{DiagnosticSeverity, WorkspaceDiagnostic, WorkspaceDiagnosticContext};
use crate::ids::decimal;
use crate::references::{on_cycle, ref_graph, ref_key};
use crate::refs::TaskRef;
use crate::text::{chars_of, extend_chars, str_eq, string_from_chars};
use crate::workflow::TaskClosure;

verus! {

/// What a task reference resolved to.
#[derive(Debug)]
pub enum TaskTargetResolution {
    Task { target: TaskRef },
    Invalid,
    UnresolvedPath { path: String },
    UnresolvedAnchor { id: String },
    AmbiguousAnchor { id: String },
    NotTask { id: String },
}

/// A task reference: how it is written, where, and what it resolved to.
#[derive(Debug)]
pub struct TaskReferenceFacts {
    pub source: String,
    pub range: std::ops::Range<usize>,
    pub resolution: TaskTargetResolution,
}

/// An open task that a task depends on: which, and where it stands in its
/// document.
#[derive(Debug)]
pub struct Blocker {
    pub target: TaskRef,
    pub selection_range: std::ops::Range<usize>,
}

/// What the diagnostics of one task read.
#[derive(Debug)]
pub struct TaskDiagnosticFacts {
    pub id: Option<String>,
    pub depth: usize,
    pub closure: TaskClosure,
    pub selection_range: std::ops::Range<usize>,
    /// Where the task's completion is recorded (present for a done task).
    pub done_range: Option<std::ops::Range<usize>>,
    pub prev: Option<TaskReferenceFacts>,
    pub depends: Vec<TaskReferenceFacts>,
    /// The open tasks among its dependencies.
    pub blockers: Vec<Blocker>,
}

/// A diagnostic as plain values.
pub open spec fn diag_view(d: WorkspaceDiagnostic) -> (Seq<char>, DiagnosticSeverity, Seq<char>, std::ops::Range<usize>, Seq<std::ops::Range<usize>>) {
    (d.code@, d.severity, d.message@, d.range, d.related@)
}

pub open spec fn quoted(x: Seq<char>) -> Seq<char> {
    seq!['\''] + x + seq!['\'']
}

pub open spec fn anchor_quoted(id: Seq<char>) -> Seq<char> {
    seq!['\'', '#'] + id + seq!['\'']
}

/// The diagnostic of a reference that does not reach a task, for its role
/// (`prev` or `dependency`).
pub open spec fn target_diagnostic(r: TaskReferenceFacts, role: Seq<char>) -> Option<(Seq<char>, DiagnosticSeverity, Seq<char>, std::ops::Range<usize>, Seq<std::ops::Range<usize>>)> {
    let warn = |code: Seq<char>, message: Seq<char>| Some((code, DiagnosticSeverity::Warning, message, r.range, Seq::<std::ops::Range<usize>>::empty()));
    match r.resolution {
        TaskTargetResolution::Task { .. } => None,
        TaskTargetResolution::Invalid => warn("task.invalid-target"@, "invalid task "@ + role + " target "@ + quoted(r.source@)),
        TaskTargetResolution::UnresolvedPath { path } => warn("task.unresolved-path"@, "unresolved task document "@ + quoted(path@)),
        TaskTargetResolution::UnresolvedAnchor { id } => warn("task.unresolved-anchor"@, "unresolved task anchor "@ + anchor_quoted(id@)),
        TaskTargetResolution::AmbiguousAnchor { id } => warn("task.ambiguous-anchor"@, "task anchor "@ + anchor_quoted(id@) + " is ambiguous"@),
        TaskTargetResolution::NotTask { id } => warn("task.non-task-target"@, "anchor "@ + anchor_quoted(id@) + " does not identify a task"@),
    }
}

/// Whether `r` names the task `id` of the document at `path`.
pub open spec fn is_task_at(r: TaskRef, path: Seq<char>, id: Option<String>) -> bool {
    &&& r.path@ == path
    &&& match (r.id, id) {
        (Some(a), Some(b)) => a@ == b@,
        _ => false,
    }
}

/// The diagnostics of one dependency: its target diagnostic, or a
/// self-dependency when it resolves to the task itself.
pub open spec fn dependency_diagnostics(path: Seq<char>, t: TaskDiagnosticFacts, d: TaskReferenceFacts) -> Seq<(Seq<char>, DiagnosticSeverity, Seq<char>, std::ops::Range<usize>, Seq<std::ops::Range<usize>>)> {
    match target_diagnostic(d, "dependency"@) {
        Some(x) => seq![x],
        None => match d.resolution {
            TaskTargetResolution::Task { target } => if is_task_at(target, path, t.id) {
                seq![(
                    "task.self-dependency"@,
                    DiagnosticSeverity::Warning,
                    "task depends on itself through "@ + quoted(d.source@),
                    d.range,
                    Seq::<std::ops::Range<usize>>::empty(),
                )]
            } else {
                seq![]
            },
            _ => seq![],
        },
    }
}

pub open spec fn dependencies_diagnostics(path: Seq<char>, t: TaskDiagnosticFacts, ds: Seq<TaskReferenceFacts>) -> Seq<(Seq<char>, DiagnosticSeverity, Seq<char>, std::ops::Range<usize>, Seq<std::ops::Range<usize>>)>
    decreases ds.len(),
{
    if ds.len() == 0 {
        seq![]
    } else {
        dependencies_diagnostics(path, t, ds.drop_last()) + dependency_diagnostics(path, t, ds.last())
    }
}

/// `n` and a noun, singular for one.
pub open spec fn counted(n: nat, one: Seq<char>, many: Seq<char>) -> Seq<char> {
    decimal(n) + seq![' '] + if n == 1 { one } else { many }
}

/// The spans of the blockers that stand in the document at `path`.
pub open spec fn local_blocker_spans(path: Seq<char>, bs: Seq<Blocker>) -> Seq<std::ops::Range<usize>>
    decreases bs.len(),
{
    if bs.len() == 0 {
        seq![]
    } else if bs.last().target.path@ == path {
        local_blocker_spans(path, bs.drop_last()).push(bs.last().selection_range)
    } else {
        local_blocker_spans(path, bs.drop_last())
    }
}

/// Whether some blocker is the task `id` of the document at `path`.
pub open spec fn blocks_with(path: Seq<char>, bs: Seq<Blocker>, id: Option<String>) -> bool {
    exists|k: int| 0 <= k < bs.len() && is_task_at(#[trigger] bs[k].target, path, id)
}

/// The open descendants of task `i` (the tasks after it that are deeper,
/// up to the first that is not) that are not among its blockers.
pub open spec fn open_descendants(path: Seq<char>, tasks: Seq<TaskDiagnosticFacts>, i: int, j: int) -> Seq<std::ops::Range<usize>>
    decreases tasks.len() - j,
{
    if j < 0 || j >= tasks.len() || tasks[j].depth <= tasks[i].depth {
        seq![]
    } else {
        let rest = open_descendants(path, tasks, i, j + 1);
        if tasks[j].closure == TaskClosure::Open && (tasks[j].id is None || !blocks_with(path, tasks[i].blockers@, tasks[j].id)) {
            seq![tasks[j].selection_range] + rest
        } else {
            rest
        }
    }
}

/// The diagnostic of a task's `prev` reference, if any.
pub open spec fn prev_diagnostics(t: TaskDiagnosticFacts) -> Seq<(Seq<char>, DiagnosticSeverity, Seq<char>, std::ops::Range<usize>, Seq<std::ops::Range<usize>>)> {
    match t.prev {
        Some(p) => match target_diagnostic(p, "prev"@) {
            Some(x) => seq![x],
            None => seq![],
        },
        None => seq![],
    }
}

/// The diagnostic of a task on a dependency cycle.
pub open spec fn cycle_diagnostics(path: Seq<char>, graph: Seq<(TaskRef, Vec<TaskRef>)>, t: TaskDiagnosticFacts) -> Seq<(Seq<char>, DiagnosticSeverity, Seq<char>, std::ops::Range<usize>, Seq<std::ops::Range<usize>>)> {
    match t.id {
        Some(id) => if on_cycle(ref_graph(graph), crate::references::ref_key_of(path, Some(id@))) {
            seq![(
                "task.dependency-cycle"@,
                DiagnosticSeverity::Warning,
                "task "@ + anchor_quoted(id@) + " participates in a dependency cycle"@,
                t.selection_range,
                Seq::<std::ops::Range<usize>>::empty(),
            )]
        } else {
            seq![]
        },
        None => seq![],
    }
}

/// The diagnostics of a completed task that still waits on open
/// dependencies or contains open descendants.
pub open spec fn done_diagnostics(path: Seq<char>, tasks: Seq<TaskDiagnosticFacts>, i: int) -> Seq<(Seq<char>, DiagnosticSeverity, Seq<char>, std::ops::Range<usize>, Seq<std::ops::Range<usize>>)> {
    let t = tasks[i];
    let n = t.blockers.len() as nat;
    let descendants = open_descendants(path, tasks, i, i + 1);
    if t.closure == TaskClosure::Done {
        let done_range = t.done_range.unwrap();
        (if n > 0 {
            seq![(
                "task.done-with-open-dependency"@,
                DiagnosticSeverity::Warning,
                "completed task still depends on "@ + counted(n, "open task"@, "open tasks"@),
                done_range,
                local_blocker_spans(path, t.blockers@),
            )]
        } else {
            seq![]
        }) + (if descendants.len() > 0 {
            seq![(
                "task.done-with-open-descendant"@,
                DiagnosticSeverity::Warning,
                "completed task still contains "@ + counted(descendants.len(), "open descendant"@, "open descendants"@),
                done_range,
                descendants,
            )]
        } else {
            seq![]
        })
    } else {
        seq![]
    }
}

/// The hint on an open task that open dependencies block.
pub open spec fn blocked_diagnostics(t: TaskDiagnosticFacts) -> Seq<(Seq<char>, DiagnosticSeverity, Seq<char>, std::ops::Range<usize>, Seq<std::ops::Range<usize>>)> {
    let n = t.blockers.len() as nat;
    if t.closure == TaskClosure::Open && n > 0 {
        seq![(
            "task.blocked"@,
            DiagnosticSeverity::Hint,
            "task is blocked by "@ + counted(n, "open dependency"@, "open dependencies"@),
            t.selection_range,
            Seq::<std::ops::Range<usize>>::empty(),
        )]
    } else {
        seq![]
    }
}

/// The diagnostics of task `i` of the document at `path`.
pub open spec fn task_diagnostics(
    path: Seq<char>,
    graph: Seq<(TaskRef, Vec<TaskRef>)>,
    tasks: Seq<TaskDiagnosticFacts>,
    i: int,
) -> Seq<(Seq<char>, DiagnosticSeverity, Seq<char>, std::ops::Range<usize>, Seq<std::ops::Range<usize>>)> {
    let t = tasks[i];
    prev_diagnostics(t) + dependencies_diagnostics(path, t, t.depends@) + cycle_diagnostics(path, graph, t)
        + done_diagnostics(path, tasks, i) + blocked_diagnostics(t)
}

/// The diagnostics of the first `n` tasks, in order.
pub open spec fn tasks_diagnostics(
    path: Seq<char>,
    graph: Seq<(TaskRef, Vec<TaskRef>)>,
    tasks: Seq<TaskDiagnosticFacts>,
    n: int,
) -> Seq<(Seq<char>, DiagnosticSeverity, Seq<char>, std::ops::Range<usize>, Seq<std::ops::Range<usize>>)>
    decreases n,
{
    if n <= 0 {
        seq![]
    } else {
        tasks_diagnostics(path, graph, tasks, n - 1) + task_diagnostics(path, graph, tasks, n - 1)
    }
}

// ---------------------------------------------------------------------------
// Computing the diagnostics.

fn copy_range(r: &std::ops::Range<usize>) -> (c: std::ops::Range<usize>)
    ensures
        c == *r,
{
    std::ops::Range { start: r.start, end: r.end }
}

fn push_quoted(out: &mut Vec<char>, x: &str)
    ensures
        final(out)@ == old(out)@ + quoted(x@),
{
    out.push('\'');
    let chars = chars_of(x);
    extend_chars(out, &chars);
    out.push('\'');
    assert(final(out)@ =~= old(out)@ + quoted(x@));
}

fn push_anchor_quoted(out: &mut Vec<char>, id: &str)
    ensures
        final(out)@ == old(out)@ + anchor_quoted(id@),
{
    out.push('\'');
    out.push('#');
    let chars = chars_of(id);
    extend_chars(out, &chars);
    out.push('\'');
    assert(final(out)@ =~= old(out)@ + anchor_quoted(id@));
}

fn push_str(out: &mut Vec<char>, s: &str)
    ensures
        final(out)@ == old(out)@ + s@,
{
    let chars = chars_of(s);
    extend_chars(out, &chars);
}

fn push_counted(out: &mut Vec<char>, n: usize, one: &str, many: &str)
    ensures
        final(out)@ == old(out)@ + counted(n as nat, one@, many@),
{
    let digits = crate::ids::decimal_chars(n);
    extend_chars(out, &digits);
    out.push(' ');
    if n == 1 {
        push_str(out, one);
    } else {
        push_str(out, many);
    }
    assert(final(out)@ =~= old(out)@ + counted(n as nat, one@, many@));
}

fn diagnostic(
    code: &str,
    severity: DiagnosticSeverity,
    message: &Vec<char>,
    range: &std::ops::Range<usize>,
    related: Vec<std::ops::Range<usize>>,
) -> (d: WorkspaceDiagnostic)
    ensures
        diag_view(d) == (code@, severity, message@, *range, related@),
{
    WorkspaceDiagnostic {
        code: code.to_string(),
        severity,
        message: string_from_chars(message),
        range: copy_range(range),
        related,
    }
}

fn target_diagnostic_exec(r: &TaskReferenceFacts, role: &str) -> (d: Option<WorkspaceDiagnostic>)
    ensures
        match target_diagnostic(*r, role@) {
            Some(x) => d matches Some(y) && diag_view(y) == x,
            None => d is None,
        },
{
    let mut m: Vec<char> = Vec::new();
    match &r.resolution {
        TaskTargetResolution::Task { .. } => None,
        TaskTargetResolution::Invalid => {
            push_str(&mut m, "invalid task ");
            push_str(&mut m, role);
            push_str(&mut m, " target ");
            push_quoted(&mut m, r.source.as_str());
            Some(diagnostic("task.invalid-target", DiagnosticSeverity::Warning, &m, &r.range, Vec::new()))
        },
        TaskTargetResolution::UnresolvedPath { path } => {
            push_str(&mut m, "unresolved task document ");
            push_quoted(&mut m, path.as_str());
            Some(diagnostic("task.unresolved-path", DiagnosticSeverity::Warning, &m, &r.range, Vec::new()))
        },
        TaskTargetResolution::UnresolvedAnchor { id } => {
            push_str(&mut m, "unresolved task anchor ");
            push_anchor_quoted(&mut m, id.as_str());
            Some(diagnostic("task.unresolved-anchor", DiagnosticSeverity::Warning, &m, &r.range, Vec::new()))
        },
        TaskTargetResolution::AmbiguousAnchor { id } => {
            push_str(&mut m, "task anchor ");
            push_anchor_quoted(&mut m, id.as_str());
            push_str(&mut m, " is ambiguous");
            Some(diagnostic("task.ambiguous-anchor", DiagnosticSeverity::Warning, &m, &r.range, Vec::new()))
        },
        TaskTargetResolution::NotTask { id } => {
            push_str(&mut m, "anchor ");
            push_anchor_quoted(&mut m, id.as_str());
            push_str(&mut m, " does not identify a task");
            Some(diagnostic("task.non-task-target", DiagnosticSeverity::Warning, &m, &r.range, Vec::new()))
        },
    }
}

fn is_task_at_exec(r: &TaskRef, path: &str, id: &Option<String>) -> (b: bool)
    ensures
        b == is_task_at(*r, path@, *id),
{
    str_eq(r.path.as_str(), path) && match (&r.id, id) {
        (Some(a), Some(b)) => str_eq(a.as_str(), b.as_str()),
        _ => false,
    }
}

fn local_blocker_spans_exec(path: &str, bs: &Vec<Blocker>) -> (spans: Vec<std::ops::Range<usize>>)
    ensures
        spans@ == local_blocker_spans(path@, bs@),
{
    let mut spans: Vec<std::ops::Range<usize>> = Vec::new();
    let mut k: usize = 0;
    while k < bs.len()
        invariant
            k <= bs.len(),
            spans@ == local_blocker_spans(path@, bs@.take(k as int)),
        decreases bs.len() - k,
    {
        proof {
            assert(bs@.take(k + 1).drop_last() == bs@.take(k as int));
            assert(bs@.take(k + 1).last() == bs@[k as int]);
        }
        if str_eq(bs[k].target.path.as_str(), path) {
            spans.push(copy_range(&bs[k].selection_range));
        }
        k = k + 1;
    }
    assert(bs@.take(bs.len() as int) == bs@);
    spans
}

fn blocks_with_exec(path: &str, bs: &Vec<Blocker>, id: &Option<String>) -> (b: bool)
    ensures
        b == blocks_with(path@, bs@, *id),
{
    let mut k: usize = 0;
    while k < bs.len()
        invariant
            k <= bs.len(),
            forall|x: int| 0 <= x < k ==> !is_task_at(#[trigger] bs@[x].target, path@, *id),
        decreases bs.len() - k,
    {
        if is_task_at_exec(&bs[k].target, path, id) {
            return true;
        }
        k = k + 1;
    }
    false
}

fn open_descendants_exec(path: &str, tasks: &Vec<TaskDiagnosticFacts>, i: usize) -> (spans: Vec<std::ops::Range<usize>>)
    requires
        i < tasks.len(),
    ensures
        spans@ == open_descendants(path@, tasks@, i as int, i + 1),
{
    let mut spans: Vec<std::ops::Range<usize>> = Vec::new();
    let mut j: usize = i + 1;
    while j < tasks.len() && tasks[j].depth > tasks[i].depth
        invariant
            i < tasks.len(),
            i + 1 <= j <= tasks.len(),
            open_descendants(path@, tasks@, i as int, i + 1) == spans@ + open_descendants(path@, tasks@, i as int, j as int),
        decreases tasks.len() - j,
    {
        let wanted = match tasks[j].closure {
            TaskClosure::Open => match &tasks[j].id {
                None => true,
                Some(_) => !blocks_with_exec(path, &tasks[i].blockers, &tasks[j].id),
            },
            _ => false,
        };
        let ghost before = spans@;
        if wanted {
            spans.push(copy_range(&tasks[j].selection_range));
            assert(before + (seq![tasks@[j as int].selection_range] + open_descendants(path@, tasks@, i as int, j + 1)) =~= spans@
                + open_descendants(path@, tasks@, i as int, j + 1));
        }
        j = j + 1;
    }
    assert(open_descendants(path@, tasks@, i as int, j as int) =~= seq![]);
    spans
}

pub open spec fn views(ds: Seq<WorkspaceDiagnostic>) -> Seq<(Seq<char>, DiagnosticSeverity, Seq<char>, std::ops::Range<usize>, Seq<std::ops::Range<usize>>)> {
    ds.map_values(|d: WorkspaceDiagnostic| diag_view(d))
}

proof fn lemma_views_push(ds: Seq<WorkspaceDiagnostic>, d: WorkspaceDiagnostic)
    ensures
        views(ds.push(d)) == views(ds).push(diag_view(d)),
{
    assert(views(ds.push(d)) =~= views(ds).push(diag_view(d)));
}

fn push_prev(out: &mut Vec<WorkspaceDiagnostic>, t: &TaskDiagnosticFacts)
    ensures
        views(final(out)@) == views(old(out)@) + prev_diagnostics(*t),
{
    match &t.prev {
        Some(p) => match target_diagnostic_exec(p, "prev") {
            Some(d) => {
                proof {
                    lemma_views_push(out@, d);
                }
                out.push(d);
            },
            None => {},
        },
        None => {},
    }
    assert(views(final(out)@) =~= views(old(out)@) + prev_diagnostics(*t));
}

fn push_dependencies(out: &mut Vec<WorkspaceDiagnostic>, path: &str, t: &TaskDiagnosticFacts)
    ensures
        views(final(out)@) == views(old(out)@) + dependencies_diagnostics(path@, *t, t.depends@),
{
    let ghost start = views(out@);
    let mut k: usize = 0;
    while k < t.depends.len()
        invariant
            k <= t.depends.len(),
            views(out@) == start + dependencies_diagnostics(path@, *t, t.depends@.take(k as int)),
        decreases t.depends.len() - k,
    {
        let d = &t.depends[k];
        let ghost before = views(out@);
        proof {
            assert(t.depends@.take(k + 1).drop_last() == t.depends@.take(k as int));
            assert(t.depends@.take(k + 1).last() == t.depends@[k as int]);
        }
        match target_diagnostic_exec(d, "dependency") {
            Some(x) => {
                proof {
                    lemma_views_push(out@, x);
                }
                out.push(x);
            },
            None => match &d.resolution {
                TaskTargetResolution::Task { target } => {
                    if is_task_at_exec(target, path, &t.id) {
                        let mut m: Vec<char> = Vec::new();
                        push_str(&mut m, "task depends on itself through ");
                        push_quoted(&mut m, d.source.as_str());
                        let x = diagnostic("task.self-dependency", DiagnosticSeverity::Warning, &m, &d.range, Vec::new());
                        proof {
                            lemma_views_push(out@, x);
                        }
                        out.push(x);
                    }
                },
                _ => {},
            },
        }
        assert(views(out@) =~= before + dependency_diagnostics(path@, *t, *d));
        assert(start + dependencies_diagnostics(path@, *t, t.depends@.take(k + 1)) =~= before + dependency_diagnostics(path@, *t, *d));
        k = k + 1;
    }
    assert(t.depends@.take(t.depends.len() as int) == t.depends@);
}

fn push_cycle(out: &mut Vec<WorkspaceDiagnostic>, path: &str, t: &TaskDiagnosticFacts, context: &WorkspaceDiagnosticContext)
    ensures
        views(final(out)@) == views(old(out)@) + cycle_diagnostics(path@, context.graph(), *t),
{
    match &t.id {
        Some(id) => {
            let own = TaskRef { path: path.to_string(), id: Some(id.clone()) };
            assert(ref_key(own) == crate::references::ref_key_of(path@, Some(id@)));
            if context.in_dependency_cycle(&own) {
                let mut m: Vec<char> = Vec::new();
                push_str(&mut m, "task ");
                push_anchor_quoted(&mut m, id.as_str());
                push_str(&mut m, " participates in a dependency cycle");
                let x = diagnostic("task.dependency-cycle", DiagnosticSeverity::Warning, &m, &t.selection_range, Vec::new());
                proof {
                    lemma_views_push(out@, x);
                }
                out.push(x);
            }
        },
        None => {},
    }
    assert(views(final(out)@) =~= views(old(out)@) + cycle_diagnostics(path@, context.graph(), *t));
}

fn push_done(out: &mut Vec<WorkspaceDiagnostic>, path: &str, tasks: &Vec<TaskDiagnosticFacts>, i: usize)
    requires
        i < tasks.len(),
        tasks@[i as int].closure == TaskClosure::Done ==> tasks@[i as int].done_range is Some,
    ensures
        views(final(out)@) == views(old(out)@) + done_diagnostics(path@, tasks@, i as int),
{
    let t = &tasks[i];
    let n = t.blockers.len();
    match t.closure {
        TaskClosure::Done => {
            let done_range = match &t.done_range {
                Some(r) => r,
                None => {
                    return;
                },
            };
            let ghost start = views(out@);
            if n > 0 {
                let mut m: Vec<char> = Vec::new();
                push_str(&mut m, "completed task still depends on ");
                push_counted(&mut m, n, "open task", "open tasks");
                let related = local_blocker_spans_exec(path, &t.blockers);
                let x = diagnostic("task.done-with-open-dependency", DiagnosticSeverity::Warning, &m, done_range, related);
                proof {
                    lemma_views_push(out@, x);
                }
                out.push(x);
            }
            let ghost middle = views(out@);
            let descendants = open_descendants_exec(path, tasks, i);
            if descendants.len() > 0 {
                let mut m: Vec<char> = Vec::new();
                push_str(&mut m, "completed task still contains ");
                push_counted(&mut m, descendants.len(), "open descendant", "open descendants");
                let x = diagnostic("task.done-with-open-descendant", DiagnosticSeverity::Warning, &m, done_range, descendants);
                proof {
                    lemma_views_push(out@, x);
                }
                out.push(x);
            }
            assert(views(out@) =~= views(old(out)@) + done_diagnostics(path@, tasks@, i as int));
        },
        _ => {
            assert(views(out@) =~= views(old(out)@) + done_diagnostics(path@, tasks@, i as int));
        },
    }
}

fn push_blocked(out: &mut Vec<WorkspaceDiagnostic>, t: &TaskDiagnosticFacts)
    ensures
        views(final(out)@) == views(old(out)@) + blocked_diagnostics(*t),
{
    let n = t.blockers.len();
    match t.closure {
        TaskClosure::Open => {
            if n > 0 {
                let mut m: Vec<char> = Vec::new();
                push_str(&mut m, "task is blocked by ");
                push_counted(&mut m, n, "open dependency", "open dependencies");
                let x = diagnostic("task.blocked", DiagnosticSeverity::Hint, &m, &t.selection_range, Vec::new());
                proof {
                    lemma_views_push(out@, x);
                }
                out.push(x);
            }
        },
        _ => {},
    }
    assert(views(final(out)@) =~= views(old(out)@) + blocked_diagnostics(*t));
}

/// The workspace diagnostics of the tasks of the document at `path`, in
/// order (see `task_diagnostics`); `context` gives the dependency graph.
pub fn task_workspace_diagnostics(
    path: &str,
    tasks: &Vec<TaskDiagnosticFacts>,
    context: &WorkspaceDiagnosticContext,
) -> (diagnostics: Vec<WorkspaceDiagnostic>)
    requires
        forall|i: int| 0 <= i < tasks.len() && #[trigger] tasks@[i].closure == TaskClosure::Done ==> tasks@[i].done_range is Some,
    ensures
        views(diagnostics@) == tasks_diagnostics(path@, context.graph(), tasks@, tasks.len() as int),
        forall|q: int| 0 <= q < diagnostics.len() ==> lists_open_descendants(tasks@, #[trigger] views(diagnostics@)[q]),
{
    let mut out: Vec<WorkspaceDiagnostic> = Vec::new();
    let mut i: usize = 0;
    assert(views(out@) =~= seq![]);
    while i < tasks.len()
        invariant
            i <= tasks.len(),
            forall|x: int| 0 <= x < tasks.len() && #[trigger] tasks@[x].closure == TaskClosure::Done ==> tasks@[x].done_range is Some,
            views(out@) == tasks_diagnostics(path@, context.graph(), tasks@, i as int),
        decreases tasks.len() - i,
    {
        let t = &tasks[i];
        let ghost start = views(out@);
        push_prev(&mut out, t);
        push_dependencies(&mut out, path, t);
        push_cycle(&mut out, path, t, context);
        assert(tasks@[i as int].closure == TaskClosure::Done ==> tasks@[i as int].done_range is Some);
        push_done(&mut out, path, tasks, i);
        push_blocked(&mut out, t);
        assert(views(out@) =~= start + task_diagnostics(path@, context.graph(), tasks@, i as int));
        i = i + 1;
    }
    proof {
        lemma_done_diagnostics_list_open_descendants(path@, context.graph(), tasks@, tasks.len() as int);
    }
    out
}

// ---------------------------------------------------------------------------
// What a done-with-open-descendant diagnostic lists.

/// Task `m` lies in the subtree of task `i` (every task after `i` up to `m`
/// is deeper), is still open, and has the selection range `span`.
pub open spec fn open_descendant_at(tasks: Seq<TaskDiagnosticFacts>, i: int, m: int, span: std::ops::Range<usize>) -> bool {
    &&& 0 <= i < m < tasks.len()
    &&& forall|x: int| i < x <= m ==> (#[trigger] tasks[x]).depth > tasks[i].depth
    &&& tasks[m].closure == TaskClosure::Open
    &&& tasks[m].selection_range == span
}

/// A done-with-open-descendant diagnostic lists only open descendants: for
/// some task, each span it lists is the selection range of a later, deeper
/// task in that task's subtree that is still open.
pub open spec fn lists_open_descendants(
    tasks: Seq<TaskDiagnosticFacts>,
    d: (Seq<char>, DiagnosticSeverity, Seq<char>, std::ops::Range<usize>, Seq<std::ops::Range<usize>>),
) -> bool {
    d.0 == "task.done-with-open-descendant"@ ==> exists|i: int, ms: Seq<int>| #[trigger] descendants_witnessed(tasks, i, i + 1, d.4, ms)
}

/// `ms` gives, for each span of `spans`, an open descendant of task `i` at
/// `j` or later with that selection range.
pub open spec fn descendants_witnessed(tasks: Seq<TaskDiagnosticFacts>, i: int, j: int, spans: Seq<std::ops::Range<usize>>, ms: Seq<int>) -> bool {
    ms.len() == spans.len() && forall|k: int| 0 <= k < spans.len() ==> j <= #[trigger] ms[k] && open_descendant_at(tasks, i, ms[k], spans[k])
}

proof fn lemma_open_descendant_spans(path: Seq<char>, tasks: Seq<TaskDiagnosticFacts>, i: int, j: int) -> (ms: Seq<int>)
    requires
        0 <= i < j,
        forall|x: int| i < x < j && x < tasks.len() ==> (#[trigger] tasks[x]).depth > tasks[i].depth,
    ensures
        descendants_witnessed(tasks, i, j, open_descendants(path, tasks, i, j), ms),
    decreases tasks.len() - j,
{
    let od = open_descendants(path, tasks, i, j);
    if j < tasks.len() && tasks[j].depth > tasks[i].depth {
        let rest = open_descendants(path, tasks, i, j + 1);
        let mr = lemma_open_descendant_spans(path, tasks, i, j + 1);
        let keep = tasks[j].closure == TaskClosure::Open && (tasks[j].id is None || !blocks_with(path, tasks[i].blockers@, tasks[j].id));
        if keep {
            assert(od == seq![tasks[j].selection_range] + rest);
            let ms = seq![j] + mr;
            assert forall|k: int| 0 <= k < od.len() implies j <= #[trigger] ms[k] && open_descendant_at(tasks, i, ms[k], od[k]) by {
                if k > 0 {
                    assert(ms[k] == mr[k - 1]);
                    assert(od[k] == rest[k - 1]);
                }
            }
            ms
        } else {
            assert(od == rest);
            assert forall|k: int| 0 <= k < od.len() implies j <= #[trigger] mr[k] && open_descendant_at(tasks, i, mr[k], od[k]) by {
                assert(mr[k] >= j + 1);
            }
            mr
        }
    } else {
        assert(od.len() == 0);
        Seq::empty()
    }
}

proof fn lemma_dependencies_unrelated(path: Seq<char>, t: TaskDiagnosticFacts, ds: Seq<TaskReferenceFacts>)
    ensures
        forall|q: int| 0 <= q < dependencies_diagnostics(path, t, ds).len() ==> (#[trigger] dependencies_diagnostics(path, t, ds)[q]).4.len() == 0,
    decreases ds.len(),
{
    if ds.len() > 0 {
        lemma_dependencies_unrelated(path, t, ds.drop_last());
        let a = dependencies_diagnostics(path, t, ds.drop_last());
        let b = dependency_diagnostics(path, t, ds.last());
        assert forall|q: int| 0 <= q < (a + b).len() implies (#[trigger] (a + b)[q]).4.len() == 0 by {
            if q >= a.len() {
                assert((a + b)[q] == b[q - a.len()]);
            } else {
                assert((a + b)[q] == a[q]);
            }
        }
    }
}

proof fn lemma_task_lists_open_descendants(path: Seq<char>, graph: Seq<(TaskRef, Vec<TaskRef>)>, tasks: Seq<TaskDiagnosticFacts>, i: int)
    requires
        0 <= i < tasks.len(),
    ensures
        forall|q: int| 0 <= q < task_diagnostics(path, graph, tasks, i).len() ==> lists_open_descendants(
            tasks,
            #[trigger] task_diagnostics(path, graph, tasks, i)[q],
        ),
{
    let t = tasks[i];
    let p = prev_diagnostics(t);
    let d = dependencies_diagnostics(path, t, t.depends@);
    let c = cycle_diagnostics(path, graph, t);
    let dn = done_diagnostics(path, tasks, i);
    let b = blocked_diagnostics(t);
    lemma_dependencies_unrelated(path, t, t.depends@);
    let ms = lemma_open_descendant_spans(path, tasks, i, i + 1);
    reveal_strlit("task.done-with-open-dependency");
    reveal_strlit("task.done-with-open-descendant");
    assert("task.done-with-open-dependency"@[22] != "task.done-with-open-descendant"@[22]);
    let all = p + d + c + dn + b;
    assert(task_diagnostics(path, graph, tasks, i) == all);
    assert forall|q: int| 0 <= q < all.len() implies lists_open_descendants(tasks, #[trigger] all[q]) by {
        let x = all[q];
        let none: Seq<int> = Seq::empty();
        if q < p.len() {
            assert(x == p[q]);
            assert(x.4.len() == 0);
            assert(descendants_witnessed(tasks, 0, 1, x.4, none));
        } else if q < p.len() + d.len() {
            assert(x == d[q - p.len()]);
            assert(x.4.len() == 0);
            assert(descendants_witnessed(tasks, 0, 1, x.4, none));
        } else if q < p.len() + d.len() + c.len() {
            assert(x == c[q - p.len() - d.len()]);
            assert(x.4.len() == 0);
            assert(descendants_witnessed(tasks, 0, 1, x.4, none));
        } else if q < p.len() + d.len() + c.len() + dn.len() {
            let r = q - p.len() - d.len() - c.len();
            assert(x == dn[r]);
            let od = open_descendants(path, tasks, i, i + 1);
            if t.closure == TaskClosure::Done {
                let done_range = t.done_range.unwrap();
                let n = t.blockers.len() as nat;
                let first: Seq<(Seq<char>, DiagnosticSeverity, Seq<char>, std::ops::Range<usize>, Seq<std::ops::Range<usize>>)> = if n > 0 {
                    seq![(
                        "task.done-with-open-dependency"@,
                        DiagnosticSeverity::Warning,
                        "completed task still depends on "@ + counted(n, "open task"@, "open tasks"@),
                        done_range,
                        local_blocker_spans(path, t.blockers@),
                    )]
                } else {
                    seq![]
                };
                let second: Seq<(Seq<char>, DiagnosticSeverity, Seq<char>, std::ops::Range<usize>, Seq<std::ops::Range<usize>>)> = if od.len() > 0 {
                    seq![(
                        "task.done-with-open-descendant"@,
                        DiagnosticSeverity::Warning,
                        "completed task still contains "@ + counted(od.len(), "open descendant"@, "open descendants"@),
                        done_range,
                        od,
                    )]
                } else {
                    seq![]
                };
                assert(dn == first + second);
                if r < first.len() {
                    assert(x == first[r]);
                    assert(x.0 == "task.done-with-open-dependency"@);
                    assert(x.0 != "task.done-with-open-descendant"@);
                } else {
                    assert(x == second[r - first.len()]);
                    assert(x.4 == od);
                    assert(descendants_witnessed(tasks, i, i + 1, x.4, ms));
                }
            } else {
                assert(dn.len() == 0);
            }
        } else {
            assert(x == b[q - p.len() - d.len() - c.len() - dn.len()]);
            assert(x.4.len() == 0);
            assert(descendants_witnessed(tasks, 0, 1, x.4, none));
        }
    }
}

/// Every done-with-open-descendant diagnostic of a document's tasks lists
/// only open tasks from the subtree of a task: done or cancelled
/// descendants are never reported.
pub proof fn lemma_done_diagnostics_list_open_descendants(
    path: Seq<char>,
    graph: Seq<(TaskRef, Vec<TaskRef>)>,
    tasks: Seq<TaskDiagnosticFacts>,
    n: int,
)
    requires
        0 <= n <= tasks.len(),
    ensures
        forall|q: int| 0 <= q < tasks_diagnostics(path, graph, tasks, n).len() ==> lists_open_descendants(
            tasks,
            #[trigger] tasks_diagnostics(path, graph, tasks, n)[q],
        ),
    decreases n,
{
    if n > 0 {
        lemma_done_diagnostics_list_open_descendants(path, graph, tasks, n - 1);
        lemma_task_lists_open_descendants(path, graph, tasks, n - 1);
        let a = tasks_diagnostics(path, graph, tasks, n - 1);
        let b = task_diagnostics(path, graph, tasks, n - 1);
        assert forall|q: int| 0 <= q < (a + b).len() implies lists_open_descendants(tasks, #[trigger] (a + b)[q]) by {
            if q >= a.len() {
                assert((a + b)[q] == b[q - a.len()]);
            } else {
                assert((a + b)[q] == a[q]);
            }
        }
    }
}

} // verus!
