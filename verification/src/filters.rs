//! CEL filters of task queries and searches: compiling their text into the
//! library's expression tree, the variables a task is evaluated with, and
//! running a filter on them.  Parsing and evaluation are the `cel` crate's.
use vstd::prelude::*;
use cel::common::ast::{Expr, LiteralValue};
use crate::cursor::{TaskPageQueryError, TaskQueryFilter, TaskQueryFilterGroup};
use crate::paths::{display_relative, display_workspace_path};
use crate::predicate::{
    candidate_meaning, group_views, pred_holds, task_candidate_predicate, CelExpr, CelLiteral, CelValue, TaskCandidatePredicate,
    TaskPredicateFacts,
};
use crate::refs::{display_task_ref, id_view, task_ref_text, TaskRef};
use crate::task_page::FilterOutcome;
use crate::text::{chars_of, extend_chars, str_eq, string_from_chars};
use crate::search::{best_field_score, field_views, fuzzy_score_spec, search_score, search_score_spec, SearchRecord, WorkspaceSearchError};
use crate::shorthand::{instant_date, local_date};
use crate::time::{parse_timestamp, timestamp_of, Timestamp};
use crate::workflow::{wait_reason_name, workflow_state_name, SearchRecordKind, TaskWaitReason, TaskWorkflowState};

verus! {

#[verifier::external_type_specification]
#[verifier::external_body]
pub struct ExCelIdedExpr(cel::IdedExpr);

#[verifier::external_type_specification]
#[verifier::external_body]
pub struct ExCelValue(cel::Value);

#[verifier::external_type_specification]
#[verifier::external_body]
pub struct ExCelExecutionError(cel::ExecutionError);

/// What `cel::Program::compile` makes of a filter's text: its expression
/// tree in the library's form, or the parse error's text.
pub uninterp spec fn cel_compiled(source: Seq<char>) -> Result<CelExpr, Seq<char>>;

/// Turns a parsed CEL expression into the library's form, node for node:
/// literals, identifiers and global calls kept, everything else opaque;
/// part of `compile_cel`'s conversion.
#[verifier::external_body]
fn cel_expression(expression: &cel::IdedExpr) -> CelExpr {
    match &expression.expr {
        Expr::Literal(LiteralValue::Null) => CelExpr::Literal(CelLiteral::Null),
        Expr::Literal(LiteralValue::Boolean(b)) => CelExpr::Literal(CelLiteral::Bool(*b.inner())),
        Expr::Literal(LiteralValue::Int(i)) => CelExpr::Literal(CelLiteral::Int(*i.inner())),
        Expr::Literal(LiteralValue::String(s)) => CelExpr::Literal(CelLiteral::Str(s.inner().to_string())),
        Expr::Literal(_) => CelExpr::Literal(CelLiteral::Other),
        Expr::Ident(name) => CelExpr::Ident(name.clone()),
        Expr::Call(c) if c.target.is_none() => CelExpr::Call(c.func_name.clone(), c.args.iter().map(cel_expression).collect()),
        _ => CelExpr::Other,
    }
}

/// Compiles a filter with `cel::Program::compile`; the result is the name
/// `cel_compiled` of the text (the tree converted by `cel_expression`, the
/// error by its `to_string`).
#[verifier::external_body]
fn compile_cel(source: &str) -> (compiled: Result<CelExpr, String>)
    ensures
        match compiled {
            Ok(e) => cel_compiled(source@) == Ok::<CelExpr, Seq<char>>(e),
            Err(error) => cel_compiled(source@) == Err::<CelExpr, Seq<char>>(error@),
        },
{
    cel::Program::compile(source).map(|p| cel_expression(p.expression())).map_err(|e| e.to_string())
}

/// The message of a filter that does not compile.
pub open spec fn invalid_query(error: Seq<char>) -> Seq<char> {
    "invalid CEL query: "@ + error
}

fn invalid_query_text(error: &String) -> (message: String)
    ensures
        message@ == invalid_query(error@),
{
    let mut m = chars_of("invalid CEL query: ");
    extend_chars(&mut m, &chars_of(error.as_str()));
    string_from_chars(&m)
}

/// Compiles a search filter: its tree, or `invalid CEL query: ` and the
/// parse error.
pub fn compile_search_filter(source: &str) -> (compiled: Result<CelExpr, String>)
    ensures
        match cel_compiled(source@) {
            Ok(e) => compiled == Ok::<CelExpr, String>(e),
            Err(error) => compiled matches Err(m) && m@ == invalid_query(error),
        },
{
    match compile_cel(source) {
        Ok(e) => Ok(e),
        Err(error) => Err(invalid_query_text(&error)),
    }
}

/// Every filter of the groups compiles.
pub open spec fn filters_compile(groups: Seq<TaskQueryFilterGroup>) -> bool {
    forall|g: int, f: int|
        0 <= g < groups.len() && 0 <= f < groups[g].filters.len() ==> #[trigger] cel_compiled(groups[g].filters@[f].expression@) is Ok
}

/// `e` is the error of the first filter (in group order) that does not
/// compile: its source, and `invalid CEL query: ` with the parse error.
pub open spec fn first_compile_error(groups: Seq<TaskQueryFilterGroup>, e: TaskPageQueryError) -> bool {
    exists|g: int, f: int|
        #![trigger groups[g].filters@[f]]
        0 <= g < groups.len() && 0 <= f < groups[g].filters.len() && (forall|h: int, k: int|
            (0 <= h < g && 0 <= k < groups[h].filters.len()) || (h == g && 0 <= k < f) ==> #[trigger] cel_compiled(
                groups[h].filters@[k].expression@,
            ) is Ok) && (cel_compiled(groups[g].filters@[f].expression@) matches Err(error) && e matches TaskPageQueryError::Filter {
            source,
            message,
        } && source@ == groups[g].filters@[f].source@ && message@ == invalid_query(error))
}

/// Compiles the filters of a query's groups: every filter's tree, with its
/// source, group by group; or, for the first filter (in group order) that
/// does not compile, the error `Filter` with its source and `invalid CEL
/// query: ` and the parse error.
pub fn compile_filter_groups(groups: &Vec<TaskQueryFilterGroup>) -> (compiled: Result<Vec<Vec<(String, CelExpr)>>, TaskPageQueryError>)
    ensures
        compiled is Ok <==> filters_compile(groups@),
        match compiled {
            Ok(cs) => cs.len() == groups.len() && forall|g: int|
                0 <= g < groups.len() ==> (#[trigger] cs@[g]).len() == groups@[g].filters.len() && forall|f: int|
                    0 <= f < cs@[g].len() ==> (#[trigger] cs@[g]@[f]).0@ == groups@[g].filters@[f].source@ && cel_compiled(
                        groups@[g].filters@[f].expression@,
                    ) == Ok::<CelExpr, Seq<char>>(cs@[g]@[f].1),
            Err(e) => first_compile_error(groups@, e),
        },
{
    let mut out: Vec<Vec<(String, CelExpr)>> = Vec::new();
    let mut g: usize = 0;
    while g < groups.len()
        invariant
            g <= groups.len(),
            out.len() == g,
            forall|h: int|
                0 <= h < g ==> (#[trigger] out@[h]).len() == groups@[h].filters.len() && forall|f: int|
                    0 <= f < out@[h].len() ==> (#[trigger] out@[h]@[f]).0@ == groups@[h].filters@[f].source@ && cel_compiled(
                        groups@[h].filters@[f].expression@,
                    ) == Ok::<CelExpr, Seq<char>>(out@[h]@[f].1),
        decreases groups.len() - g,
    {
        let filters = &groups[g].filters;
        let mut compiled_group: Vec<(String, CelExpr)> = Vec::new();
        let mut f: usize = 0;
        while f < filters.len()
            invariant
                g < groups.len(),
                out.len() == g,
                forall|h: int|
                    0 <= h < g ==> (#[trigger] out@[h]).len() == groups@[h].filters.len() && forall|k: int|
                        0 <= k < out@[h].len() ==> (#[trigger] out@[h]@[k]).0@ == groups@[h].filters@[k].source@ && cel_compiled(
                            groups@[h].filters@[k].expression@,
                        ) == Ok::<CelExpr, Seq<char>>(out@[h]@[k].1),
                filters@ == groups@[g as int].filters@,
                f <= filters.len(),
                compiled_group.len() == f,
                forall|k: int|
                    0 <= k < f ==> (#[trigger] compiled_group@[k]).0@ == filters@[k].source@ && cel_compiled(filters@[k].expression@)
                        == Ok::<CelExpr, Seq<char>>(compiled_group@[k].1),
            decreases filters.len() - f,
        {
            match compile_cel(filters[f].expression.as_str()) {
                Ok(e) => compiled_group.push((filters[f].source.clone(), e)),
                Err(error) => {
                    let message = invalid_query_text(&error);
                    let err = TaskPageQueryError::Filter { source: filters[f].source.clone(), message };
                    proof {
                        assert forall|h: int, k: int|
                            (0 <= h < g && 0 <= k < groups@[h].filters.len()) || (h == g && 0 <= k < f) implies #[trigger] cel_compiled(
                                groups@[h].filters@[k].expression@,
                            ) is Ok by {
                            if h < g {
                                assert(out@[h].len() == groups@[h].filters.len());
                                assert(cel_compiled(groups@[h].filters@[k].expression@) == Ok::<CelExpr, Seq<char>>(out@[h]@[k].1));
                            } else {
                                assert(compiled_group@[k].0@ == filters@[k].source@);
                            }
                        }
                        assert(groups@[g as int].filters@[f as int] == filters@[f as int]);
                        assert(cel_compiled(groups@[g as int].filters@[f as int].expression@) is Err);
                        assert(!filters_compile(groups@));
                    }
                    return Err(err);
                },
            }
            f = f + 1;
        }
        out.push(compiled_group);
        g = g + 1;
    }
    assert forall|h: int, k: int|
        0 <= h < groups.len() && 0 <= k < groups@[h].filters.len() implies #[trigger] cel_compiled(groups@[h].filters@[k].expression@) is Ok by {
        assert(out@[h].len() == groups@[h].filters.len());
        assert(cel_compiled(groups@[h].filters@[k].expression@) == Ok::<CelExpr, Seq<char>>(out@[h]@[k].1));
    }
    Ok(out)
}

/// The compiled trees of the groups' filters, group by group.
pub open spec fn compiled_trees(groups: Seq<TaskQueryFilterGroup>) -> Seq<Seq<CelExpr>> {
    groups.map_values(
        |g: TaskQueryFilterGroup|
            g.filters@.map_values(
                |f: TaskQueryFilter|
                    match cel_compiled(f.expression@) {
                        Ok(e) => e,
                        Err(_) => CelExpr::Other,
                    },
            ),
    )
}

/// The trees of compiled groups, without their sources.
fn trees_of(compiled: Vec<Vec<(String, CelExpr)>>) -> (trees: Vec<Vec<CelExpr>>)
    ensures
        trees.len() == compiled.len(),
        forall|g: int|
            0 <= g < trees.len() ==> (#[trigger] trees@[g]).len() == compiled@[g].len() && forall|f: int|
                0 <= f < trees@[g].len() ==> #[trigger] trees@[g]@[f] == compiled@[g]@[f].1,
{
    let ghost original = compiled@;
    let mut rest = compiled;
    let mut trees: Vec<Vec<CelExpr>> = Vec::new();
    while rest.len() > 0
        invariant
            trees.len() + rest.len() == original.len(),
            forall|k: int| 0 <= k < rest.len() ==> #[trigger] rest@[k] == original[trees.len() + k],
            forall|g: int|
                0 <= g < trees.len() ==> (#[trigger] trees@[g]).len() == original[g].len() && forall|f: int|
                    0 <= f < trees@[g].len() ==> #[trigger] trees@[g]@[f] == original[g]@[f].1,
        decreases rest.len(),
    {
        let ghost before = rest@;
        let mut group = rest.remove(0);
        assert(group@ == original[trees.len() as int]@);
        assert forall|k: int| 0 <= k < rest.len() implies #[trigger] rest@[k] == original[trees.len() + 1 + k] by {
            assert(rest@[k] == before[k + 1]);
        }
        let ghost whole = group@;
        let mut tree: Vec<CelExpr> = Vec::new();
        while group.len() > 0
            invariant
                tree.len() + group.len() == whole.len(),
                forall|k: int| 0 <= k < group.len() ==> #[trigger] group@[k] == whole[tree.len() + k],
                forall|f: int| 0 <= f < tree.len() ==> #[trigger] tree@[f] == whole[f].1,
            decreases group.len(),
        {
            let ghost gb = group@;
            let (_, e) = group.remove(0);
            assert forall|k: int| 0 <= k < group.len() implies #[trigger] group@[k] == whole[tree.len() + 1 + k] by {
                assert(group@[k] == gb[k + 1]);
            }
            tree.push(e);
        }
        trees.push(tree);
    }
    trees
}

/// The candidate predicate a store may apply before a query's filters run:
/// none for a tree page (whose ancestors must stay available), otherwise
/// `task_candidate_predicate` of the compiled filters.  A filter that does
/// not compile refuses the query as `compile_filter_groups` does.
pub fn query_candidate_predicate(groups: &Vec<TaskQueryFilterGroup>, include_ancestors: bool) -> (result: Result<
    Option<TaskCandidatePredicate>,
    TaskPageQueryError,
>)
    ensures
        !filters_compile(groups@) ==> (result matches Err(e) && first_compile_error(groups@, e)),
        filters_compile(groups@) && include_ancestors ==> result == Ok::<Option<TaskCandidatePredicate>, TaskPageQueryError>(None),
        filters_compile(groups@) && !include_ancestors ==> (result matches Ok(p) && (p matches Some(q) ==> q
            != TaskCandidatePredicate::Constant(true)) && forall|facts: TaskPredicateFacts, oracle: spec_fn(CelExpr) -> CelValue|
            #![trigger candidate_meaning(compiled_trees(groups@), facts, oracle)]
            match p {
                Some(q) => pred_holds(q, facts) == candidate_meaning(compiled_trees(groups@), facts, oracle),
                None => candidate_meaning(compiled_trees(groups@), facts, oracle),
            }),
{
    let compiled = match compile_filter_groups(groups) {
        Ok(c) => c,
        Err(e) => {
            return Err(e);
        },
    };
    if include_ancestors {
        return Ok(None);
    }
    let ghost c = compiled@;
    let trees = trees_of(compiled);
    assert(group_views(trees@) =~= compiled_trees(groups@)) by {
        assert forall|g: int| 0 <= g < trees.len() implies #[trigger] group_views(trees@)[g] == compiled_trees(groups@)[g] by {
            assert forall|f: int| 0 <= f < trees@[g].len() implies #[trigger] trees@[g]@[f] == compiled_trees(groups@)[g][f] by {
                assert(cel_compiled(groups@[g].filters@[f].expression@) == Ok::<CelExpr, Seq<char>>(c[g]@[f].1));
            }
            assert(group_views(trees@)[g] =~= compiled_trees(groups@)[g]);
        }
    }
    Ok(task_candidate_predicate(&trees))
}

// ---------------------------------------------------------------------------
// Variables and evaluation.

/// A variable's value as the library hands it to CEL.
#[derive(Debug)]
pub enum FilterValue {
    Null,
    Bool(bool),
    Int(i64),
    Text(String),
    Texts(Vec<String>),
    Instant(Timestamp),
}

/// A variable's value as plain values.
pub enum FilterValueView {
    Null,
    Bool(bool),
    Int(i64),
    Text(Seq<char>),
    Texts(Seq<Seq<char>>),
    Instant(Timestamp),
}

pub open spec fn filter_value_view(v: FilterValue) -> FilterValueView {
    match v {
        FilterValue::Null => FilterValueView::Null,
        FilterValue::Bool(b) => FilterValueView::Bool(b),
        FilterValue::Int(i) => FilterValueView::Int(i),
        FilterValue::Text(s) => FilterValueView::Text(s@),
        FilterValue::Texts(v) => FilterValueView::Texts(v@.map_values(|s: String| s@)),
        FilterValue::Instant(t) => FilterValueView::Instant(t),
    }
}

pub open spec fn variables_view(vars: Seq<(String, FilterValue)>) -> Seq<(Seq<char>, FilterValueView)> {
    vars.map_values(|p: (String, FilterValue)| (p.0@, filter_value_view(p.1)))
}

/// chrono can hold the instant at its offset: the instant, the offset and
/// the local date and time they make are in its range.
pub open spec fn chrono_instant(t: Timestamp) -> bool {
    instant_date(t.seconds, t.nanos, t.offset_seconds) is Some
}

/// Every instant among the variables is one chrono can hold.
pub open spec fn instants_held(variables: Seq<(Seq<char>, FilterValueView)>) -> bool {
    forall|i: int| 0 <= i < variables.len() ==> ((#[trigger] variables[i]).1 matches FilterValueView::Instant(t) ==> chrono_instant(t))
}

/// An instant as a variable: the instant where chrono can hold it, null
/// otherwise.
pub open spec fn instant_view(t: Timestamp) -> FilterValueView {
    if chrono_instant(t) {
        FilterValueView::Instant(t)
    } else {
        FilterValueView::Null
    }
}

fn instant_value(t: Timestamp) -> (v: FilterValue)
    ensures
        filter_value_view(v) == instant_view(t),
{
    match local_date(t.seconds, t.nanos, t.offset_seconds) {
        Some(_) => FilterValue::Instant(t),
        None => FilterValue::Null,
    }
}

/// The CEL value of a variable: null, a boolean, an integer, a string, a
/// list of strings, or a timestamp at its offset; part of `evaluate_cel`'s
/// conversion.
#[verifier::external_body]
fn cel_value(value: &FilterValue) -> cel::Value {
    match value {
        FilterValue::Null => cel::Value::Null,
        FilterValue::Bool(b) => cel::Value::Bool(*b),
        FilterValue::Int(i) => cel::Value::Int(*i),
        FilterValue::Text(s) => cel::Value::from(s.clone()),
        FilterValue::Texts(v) => cel::Value::from(v.clone()),
        FilterValue::Instant(t) => chrono::FixedOffset::east_opt(t.offset_seconds).and_then(|zone| {
            chrono::DateTime::from_timestamp(t.seconds, t.nanos).map(|d| cel::Value::Timestamp(d.with_timezone(&zone)))
        }).unwrap_or(cel::Value::Null),
    }
}

/// The library's form of a run's result, one arm per case; part of
/// `evaluate_cel`'s conversion.
#[verifier::external_body]
fn cel_outcome(result: Result<cel::Value, cel::ExecutionError>) -> FilterOutcome {
    match result {
        Ok(cel::Value::Bool(true)) => FilterOutcome::Matched,
        Ok(cel::Value::Bool(false)) => FilterOutcome::NotMatched,
        Err(cel::ExecutionError::NoSuchKey(_)) => FilterOutcome::MissingKey,
        Ok(value) => FilterOutcome::NotBool(format!("{value:?}")),
        Err(error) => FilterOutcome::Failed(error.to_string()),
    }
}

/// That running the filter `source` with `variables` (`cel::Program::compile`
/// of the text, then `execute` in a `cel::Context` binding the variables)
/// can give `outcome`.  A relation, not a function: cel's maps are std
/// `HashMap`s with per-process hashing, so one text and one set of
/// variables can give different outcomes.
pub uninterp spec fn cel_may_give(source: Seq<char>, variables: Seq<(Seq<char>, FilterValueView)>, outcome: FilterOutcome) -> bool;

/// Runs a filter with `cel::Program::compile` and `execute` in a
/// `cel::Context` binding the variables.  The outcome is one that
/// `cel_may_give` relates to the text and these variables; a text that does
/// not compile gives `Failed` with the parse error's text.  Which outcome a
/// compiled filter gives is otherwise left unsaid, as cel's maps may make it
/// vary between runs.  Every instant handed over is
/// one chrono can hold, so no timestamp function of cel meets one it
/// refuses.
#[verifier::external_body]
pub(crate) fn evaluate_cel(source: &str, variables: &Vec<(String, FilterValue)>) -> (outcome: FilterOutcome)
    requires
        instants_held(variables_view(variables@)),
    ensures
        cel_may_give(source@, variables_view(variables@), outcome),
        match cel_compiled(source@) {
            Err(e) => outcome matches FilterOutcome::Failed(m) && m@ == e,
            Ok(_) => true,
        },
{
    let program = match cel::Program::compile(source) {
        Ok(program) => program,
        Err(error) => return FilterOutcome::Failed(error.to_string()),
    };
    let mut context = cel::Context::default();
    for (name, value) in variables.iter() {
        context.add_variable_from_value(name.clone(), cel_value(value));
    }
    cel_outcome(program.execute(&context))
}

/// What a task filter reads of a task.
#[derive(Debug)]
pub struct TaskFilterFacts {
    pub path: String,
    pub id: Option<String>,
    pub title: String,
    pub created: Option<i64>,
    pub due: Option<i64>,
    pub priority: Option<i32>,
    pub wait: Option<i64>,
    pub done: Option<i64>,
    pub canceled: Option<i64>,
    pub recur: Option<String>,
    pub prev: Option<String>,
    pub focused: bool,
    pub focused_since: Option<i64>,
    pub depends_on: Vec<TaskRef>,
    pub directly_blocking: Vec<TaskRef>,
    pub state: TaskWorkflowState,
    pub wait_reasons: Vec<TaskWaitReason>,
    pub blocked: bool,
    pub actionable: bool,
}

/// The instant of milliseconds since the epoch, in UTC.
pub open spec fn millis_instant(m: i64) -> Timestamp {
    Timestamp { seconds: (m as int / 1000) as i64, nanos: ((m as int % 1000) * 1_000_000) as u32, offset_seconds: 0 }
}

pub open spec fn millis_value(m: Option<i64>) -> FilterValueView {
    match m {
        Some(v) => instant_view(millis_instant(v)),
        None => FilterValueView::Null,
    }
}

pub open spec fn text_value(s: Option<String>) -> FilterValueView {
    match s {
        Some(v) => FilterValueView::Text(v@),
        None => FilterValueView::Null,
    }
}

pub open spec fn refs_text(root: Seq<char>, refs: Seq<TaskRef>) -> Seq<Seq<char>> {
    refs.map_values(|r: TaskRef| task_ref_text(root, r.path@, id_view(r.id)))
}

/// The variables a task filter is evaluated with: the task's path relative
/// to the root, id, title, times, priority, recurrence, focus, its
/// dependencies and the tasks it blocks as displayed references, its
/// workflow state and wait reasons, and the query instant.
pub open spec fn task_variables(root: Seq<char>, f: TaskFilterFacts, now: Timestamp) -> Seq<(Seq<char>, FilterValueView)> {
    seq![
        ("path"@, FilterValueView::Text(display_relative(root, f.path@))),
        ("id"@, text_value(f.id)),
        ("title"@, FilterValueView::Text(f.title@)),
        ("created"@, millis_value(f.created)),
        ("due"@, millis_value(f.due)),
        ("priority"@, match f.priority {
            Some(p) => FilterValueView::Int(p as i64),
            None => FilterValueView::Null,
        }),
        ("wait"@, millis_value(f.wait)),
        ("done"@, millis_value(f.done)),
        ("canceled"@, millis_value(f.canceled)),
        ("recur"@, text_value(f.recur)),
        ("prev"@, text_value(f.prev)),
        ("focused"@, FilterValueView::Bool(f.focused)),
        ("focused_since"@, millis_value(f.focused_since)),
        ("depends_on"@, FilterValueView::Texts(refs_text(root, f.depends_on@))),
        ("directly_blocking"@, FilterValueView::Texts(refs_text(root, f.directly_blocking@))),
        ("state"@, FilterValueView::Text(workflow_state_name(f.state))),
        ("wait_reasons"@, FilterValueView::Texts(f.wait_reasons@.map_values(|r: TaskWaitReason| wait_reason_name(r)))),
        ("blocked"@, FilterValueView::Bool(f.blocked)),
        ("actionable"@, FilterValueView::Bool(f.actionable)),
        ("now"@, instant_view(now)),
    ]
}

/// Every entry of `vars` named `name` holds `value`, and there is one.
pub open spec fn named_value(vars: Seq<(Seq<char>, FilterValueView)>, name: Seq<char>, value: FilterValueView) -> bool {
    &&& exists|k: int| 0 <= k < vars.len() && (#[trigger] vars[k]).0 == name && vars[k].1 == value
    &&& forall|k: int| 0 <= k < vars.len() && (#[trigger] vars[k]).0 == name ==> vars[k].1 == value
}

/// The variables a task filter is run with, by name: `path` is the task's
/// path shown from the root, `id` and `title` its own, `created`, `due`,
/// `wait`, `done`, `canceled` and `focused_since` the instants of the same
/// fields (null when absent), `priority` its own priority, `recur` and
/// `prev` its fields, `focused`, `blocked` and `actionable` its facts,
/// `depends_on` and `directly_blocking` its references as shown,
/// `state` and `wait_reasons` the names of its workflow facts, and `now`
/// the query instant; each name is bound once.
pub proof fn lemma_task_variables_by_name(root: Seq<char>, f: TaskFilterFacts, now: Timestamp)
    ensures
        named_value(task_variables(root, f, now), "path"@, FilterValueView::Text(display_relative(root, f.path@))),
        named_value(task_variables(root, f, now), "id"@, text_value(f.id)),
        named_value(task_variables(root, f, now), "title"@, FilterValueView::Text(f.title@)),
        named_value(task_variables(root, f, now), "created"@, millis_value(f.created)),
        named_value(task_variables(root, f, now), "due"@, millis_value(f.due)),
        named_value(task_variables(root, f, now), "priority"@, match f.priority {
            Some(p) => FilterValueView::Int(p as i64),
            None => FilterValueView::Null,
        }),
        named_value(task_variables(root, f, now), "wait"@, millis_value(f.wait)),
        named_value(task_variables(root, f, now), "done"@, millis_value(f.done)),
        named_value(task_variables(root, f, now), "canceled"@, millis_value(f.canceled)),
        named_value(task_variables(root, f, now), "recur"@, text_value(f.recur)),
        named_value(task_variables(root, f, now), "prev"@, text_value(f.prev)),
        named_value(task_variables(root, f, now), "focused"@, FilterValueView::Bool(f.focused)),
        named_value(task_variables(root, f, now), "focused_since"@, millis_value(f.focused_since)),
        named_value(task_variables(root, f, now), "depends_on"@, FilterValueView::Texts(refs_text(root, f.depends_on@))),
        named_value(task_variables(root, f, now), "directly_blocking"@, FilterValueView::Texts(refs_text(root, f.directly_blocking@))),
        named_value(task_variables(root, f, now), "state"@, FilterValueView::Text(workflow_state_name(f.state))),
        named_value(task_variables(root, f, now), "wait_reasons"@, FilterValueView::Texts(f.wait_reasons@.map_values(|r: TaskWaitReason| wait_reason_name(r)))),
        named_value(task_variables(root, f, now), "blocked"@, FilterValueView::Bool(f.blocked)),
        named_value(task_variables(root, f, now), "actionable"@, FilterValueView::Bool(f.actionable)),
        named_value(task_variables(root, f, now), "now"@, instant_view(now)),
{
    let vs = task_variables(root, f, now);
    reveal_strlit("path");
    reveal_strlit("id");
    reveal_strlit("title");
    reveal_strlit("created");
    reveal_strlit("due");
    reveal_strlit("priority");
    reveal_strlit("wait");
    reveal_strlit("done");
    reveal_strlit("canceled");
    reveal_strlit("recur");
    reveal_strlit("prev");
    reveal_strlit("focused");
    reveal_strlit("focused_since");
    reveal_strlit("depends_on");
    reveal_strlit("directly_blocking");
    reveal_strlit("state");
    reveal_strlit("wait_reasons");
    reveal_strlit("blocked");
    reveal_strlit("actionable");
    reveal_strlit("now");
    assert forall|a: int, b: int| 0 <= a < b < vs.len() implies (#[trigger] vs[a]).0 != (#[trigger] vs[b]).0 by {
        let x = vs[a].0;
        let y = vs[b].0;
        assert(x.len() != y.len() || x[0] != y[0] || x[1] != y[1]);
    }
    assert(vs[0].0 == "path"@);
    assert(vs[1].0 == "id"@);
    assert(vs[2].0 == "title"@);
    assert(vs[3].0 == "created"@);
    assert(vs[4].0 == "due"@);
    assert(vs[5].0 == "priority"@);
    assert(vs[6].0 == "wait"@);
    assert(vs[7].0 == "done"@);
    assert(vs[8].0 == "canceled"@);
    assert(vs[9].0 == "recur"@);
    assert(vs[10].0 == "prev"@);
    assert(vs[11].0 == "focused"@);
    assert(vs[12].0 == "focused_since"@);
    assert(vs[13].0 == "depends_on"@);
    assert(vs[14].0 == "directly_blocking"@);
    assert(vs[15].0 == "state"@);
    assert(vs[16].0 == "wait_reasons"@);
    assert(vs[17].0 == "blocked"@);
    assert(vs[18].0 == "actionable"@);
    assert(vs[19].0 == "now"@);
}

/// The variables a search filter reads of a note, by name: `path` its
/// path shown from the root, `title` its title, and the documents that
/// reference it directly and transitively; each name is bound once.
pub proof fn lemma_note_variables_by_name(root: Seq<char>, path: Seq<char>, title: Seq<char>, direct: Seq<String>, transitive: Seq<String>)
    ensures
        named_value(note_variables(root, path, title, direct, transitive), "path"@, FilterValueView::Text(display_relative(root, path))),
        named_value(note_variables(root, path, title, direct, transitive), "title"@, FilterValueView::Text(title)),
        named_value(note_variables(root, path, title, direct, transitive), "directly_referenced_by"@, FilterValueView::Texts(shown_paths(root, direct))),
        named_value(note_variables(root, path, title, direct, transitive), "transitively_referenced_by"@, FilterValueView::Texts(shown_paths(root, transitive))),
{
    let vs = note_variables(root, path, title, direct, transitive);
    reveal_strlit("path");
    reveal_strlit("title");
    reveal_strlit("directly_referenced_by");
    reveal_strlit("transitively_referenced_by");
    assert forall|a: int, b: int| 0 <= a < b < vs.len() implies (#[trigger] vs[a]).0 != (#[trigger] vs[b]).0 by {
        let x = vs[a].0;
        let y = vs[b].0;
        assert(x.len() != y.len() || x[0] != y[0] || x[1] != y[1]);
    }
    assert(vs[0].0 == "path"@);
    assert(vs[1].0 == "title"@);
    assert(vs[2].0 == "directly_referenced_by"@);
    assert(vs[3].0 == "transitively_referenced_by"@);
}

/// The variables a search filter reads of a task, by name: each field's
/// value (times as the instants their text denotes) under the field's
/// name, and `now` the query instant; each name is bound once.
pub proof fn lemma_task_search_variables_by_name(root: Seq<char>, f: TaskSearchFacts, now: Timestamp)
    ensures
        named_value(task_search_variables(root, f, now), "path"@, FilterValueView::Text(display_relative(root, f.path@))),
        named_value(task_search_variables(root, f, now), "id"@, text_value(f.id)),
        named_value(task_search_variables(root, f, now), "title"@, FilterValueView::Text(f.title@)),
        named_value(task_search_variables(root, f, now), "created"@, field_time(f.created)),
        named_value(task_search_variables(root, f, now), "due"@, field_time(f.due)),
        named_value(task_search_variables(root, f, now), "priority"@, match f.priority {
            Some(p) => FilterValueView::Int(p as i64),
            None => FilterValueView::Null,
        }),
        named_value(task_search_variables(root, f, now), "wait"@, field_time(f.wait)),
        named_value(task_search_variables(root, f, now), "done"@, field_time(f.done)),
        named_value(task_search_variables(root, f, now), "canceled"@, field_time(f.canceled)),
        named_value(task_search_variables(root, f, now), "recur"@, text_value(f.recur)),
        named_value(task_search_variables(root, f, now), "prev"@, text_value(f.prev)),
        named_value(task_search_variables(root, f, now), "depends_on"@, FilterValueView::Texts(refs_text(root, f.depends_on@))),
        named_value(task_search_variables(root, f, now), "directly_blocking"@, FilterValueView::Texts(refs_text(root, f.directly_blocking@))),
        named_value(task_search_variables(root, f, now), "state"@, FilterValueView::Text(workflow_state_name(f.state))),
        named_value(task_search_variables(root, f, now), "wait_reasons"@, FilterValueView::Texts(f.wait_reasons@.map_values(|r: TaskWaitReason| wait_reason_name(r)))),
        named_value(task_search_variables(root, f, now), "blocked"@, FilterValueView::Bool(f.blocked)),
        named_value(task_search_variables(root, f, now), "actionable"@, FilterValueView::Bool(f.actionable)),
        named_value(task_search_variables(root, f, now), "now"@, instant_view(now)),
{
    let vs = task_search_variables(root, f, now);
    reveal_strlit("path");
    reveal_strlit("id");
    reveal_strlit("title");
    reveal_strlit("created");
    reveal_strlit("due");
    reveal_strlit("priority");
    reveal_strlit("wait");
    reveal_strlit("done");
    reveal_strlit("canceled");
    reveal_strlit("recur");
    reveal_strlit("prev");
    reveal_strlit("depends_on");
    reveal_strlit("directly_blocking");
    reveal_strlit("state");
    reveal_strlit("wait_reasons");
    reveal_strlit("blocked");
    reveal_strlit("actionable");
    reveal_strlit("now");
    assert forall|a: int, b: int| 0 <= a < b < vs.len() implies (#[trigger] vs[a]).0 != (#[trigger] vs[b]).0 by {
        let x = vs[a].0;
        let y = vs[b].0;
        assert(x.len() != y.len() || x[0] != y[0] || x[1] != y[1]);
    }
    assert(vs[0].0 == "path"@);
    assert(vs[1].0 == "id"@);
    assert(vs[2].0 == "title"@);
    assert(vs[3].0 == "created"@);
    assert(vs[4].0 == "due"@);
    assert(vs[5].0 == "priority"@);
    assert(vs[6].0 == "wait"@);
    assert(vs[7].0 == "done"@);
    assert(vs[8].0 == "canceled"@);
    assert(vs[9].0 == "recur"@);
    assert(vs[10].0 == "prev"@);
    assert(vs[11].0 == "depends_on"@);
    assert(vs[12].0 == "directly_blocking"@);
    assert(vs[13].0 == "state"@);
    assert(vs[14].0 == "wait_reasons"@);
    assert(vs[15].0 == "blocked"@);
    assert(vs[16].0 == "actionable"@);
    assert(vs[17].0 == "now"@);
}

/// The variables a search filter reads of an event, by name: each
/// field's value (times as the instants their text denotes) under the
/// field's name, and `now` the query instant; each name is bound once.
pub proof fn lemma_event_search_variables_by_name(root: Seq<char>, e: EventSearchFacts, now: Timestamp)
    ensures
        named_value(event_search_variables(root, e, now), "path"@, FilterValueView::Text(display_relative(root, e.path@))),
        named_value(event_search_variables(root, e, now), "id"@, text_value(e.id)),
        named_value(event_search_variables(root, e, now), "title"@, FilterValueView::Text(e.title@)),
        named_value(event_search_variables(root, e, now), "uid"@, text_value(e.uid)),
        named_value(event_search_variables(root, e, now), "date"@, text_value(e.date)),
        named_value(event_search_variables(root, e, now), "timezone"@, text_value(e.timezone)),
        named_value(event_search_variables(root, e, now), "when"@, text_value(e.when)),
        named_value(event_search_variables(root, e, now), "at"@, field_time(e.at)),
        named_value(event_search_variables(root, e, now), "start"@, field_time(e.start)),
        named_value(event_search_variables(root, e, now), "end"@, field_time(e.end)),
        named_value(event_search_variables(root, e, now), "tasks"@, FilterValueView::Texts(e.tasks@.map_values(|s: String| s@))),
        named_value(event_search_variables(root, e, now), "now"@, instant_view(now)),
{
    let vs = event_search_variables(root, e, now);
    reveal_strlit("path");
    reveal_strlit("id");
    reveal_strlit("title");
    reveal_strlit("uid");
    reveal_strlit("date");
    reveal_strlit("timezone");
    reveal_strlit("when");
    reveal_strlit("at");
    reveal_strlit("start");
    reveal_strlit("end");
    reveal_strlit("tasks");
    reveal_strlit("now");
    assert forall|a: int, b: int| 0 <= a < b < vs.len() implies (#[trigger] vs[a]).0 != (#[trigger] vs[b]).0 by {
        let x = vs[a].0;
        let y = vs[b].0;
        assert(x.len() != y.len() || x[0] != y[0] || x[1] != y[1]);
    }
    assert(vs[0].0 == "path"@);
    assert(vs[1].0 == "id"@);
    assert(vs[2].0 == "title"@);
    assert(vs[3].0 == "uid"@);
    assert(vs[4].0 == "date"@);
    assert(vs[5].0 == "timezone"@);
    assert(vs[6].0 == "when"@);
    assert(vs[7].0 == "at"@);
    assert(vs[8].0 == "start"@);
    assert(vs[9].0 == "end"@);
    assert(vs[10].0 == "tasks"@);
    assert(vs[11].0 == "now"@);
}

fn millis_exec(m: Option<i64>) -> (v: FilterValue)
    ensures
        filter_value_view(v) == millis_value(m),
{
    match m {
        Some(x) => {
            let xi: i128 = x as i128;
            let q: i128 = if xi >= 0 { xi / 1000 } else { -((-xi + 999) / 1000) };
            let r: i128 = xi - q * 1000;
            assert(0 <= r < 1000) by (nonlinear_arith)
                requires
                    q == (if xi >= 0 { xi / 1000 } else { -((-xi + 999) / 1000) }),
                    r == xi - q * 1000,
            ;
            proof {
                vstd::arithmetic::div_mod::lemma_fundamental_div_mod_converse(x as int, 1000, q as int, r as int);
            }
            instant_value(Timestamp { seconds: q as i64, nanos: (r as u32) * 1_000_000, offset_seconds: 0 })
        },
        None => FilterValue::Null,
    }
}

fn text_exec(s: &Option<String>) -> (v: FilterValue)
    ensures
        filter_value_view(v) == text_value(*s),
{
    match s {
        Some(x) => FilterValue::Text(x.clone()),
        None => FilterValue::Null,
    }
}

fn refs_exec(root: &str, refs: &Vec<TaskRef>) -> (v: FilterValue)
    ensures
        filter_value_view(v) == FilterValueView::Texts(refs_text(root@, refs@)),
{
    let mut out: Vec<String> = Vec::new();
    let mut i: usize = 0;
    while i < refs.len()
        invariant
            i <= refs.len(),
            out.len() == i,
            out@.map_values(|s: String| s@) == refs_text(root@, refs@.take(i as int)),
        decreases refs.len() - i,
    {
        let ghost before = out@;
        out.push(display_task_ref(root, &refs[i]));
        assert(refs@.take(i + 1) == refs@.take(i as int).push(refs@[i as int]));
        assert(out@ == before.push(out@[i as int]));
        assert forall|k: int| 0 <= k < i + 1 implies (#[trigger] out@[k])@ == refs_text(root@, refs@.take(i + 1))[k] by {
            if k < i {
                assert(out@[k] == before[k]);
                assert(before.map_values(|s: String| s@)[k] == refs_text(root@, refs@.take(i as int))[k]);
            }
        }
        assert(out@.map_values(|s: String| s@) =~= refs_text(root@, refs@.take(i + 1)));
        i = i + 1;
    }
    assert(refs@.take(refs.len() as int) == refs@);
    FilterValue::Texts(out)
}

fn reasons_exec(reasons: &Vec<TaskWaitReason>) -> (v: FilterValue)
    ensures
        filter_value_view(v) == FilterValueView::Texts(reasons@.map_values(|r: TaskWaitReason| wait_reason_name(r))),
{
    let mut out: Vec<String> = Vec::new();
    let mut i: usize = 0;
    while i < reasons.len()
        invariant
            i <= reasons.len(),
            out.len() == i,
            out@.map_values(|s: String| s@) == reasons@.take(i as int).map_values(|r: TaskWaitReason| wait_reason_name(r)),
        decreases reasons.len() - i,
    {
        let ghost before = out@;
        out.push(reasons[i].as_str().to_string());
        assert(reasons@.take(i + 1) == reasons@.take(i as int).push(reasons@[i as int]));
        assert(out@ == before.push(out@[i as int]));
        assert forall|k: int| 0 <= k < i + 1 implies (#[trigger] out@[k])@ == reasons@.take(i + 1).map_values(|r: TaskWaitReason| wait_reason_name(r))[k] by {
            if k < i {
                assert(out@[k] == before[k]);
                assert(before.map_values(|s: String| s@)[k] == reasons@.take(i as int).map_values(|r: TaskWaitReason| wait_reason_name(r))[k]);
            }
        }
        assert(out@.map_values(|s: String| s@) =~= reasons@.take(i + 1).map_values(|r: TaskWaitReason| wait_reason_name(r)));
        i = i + 1;
    }
    assert(reasons@.take(reasons.len() as int) == reasons@);
    FilterValue::Texts(out)
}

fn named(name: &str, value: FilterValue) -> (p: (String, FilterValue))
    ensures
        p.0@ == name@,
        p.1 == value,
{
    (name.to_string(), value)
}

/// The variables a task filter is evaluated with (see `task_variables`).
pub fn task_filter_variables(root: &str, f: &TaskFilterFacts, now: Timestamp) -> (vars: Vec<(String, FilterValue)>)
    ensures
        variables_view(vars@) == task_variables(root@, *f, now),
        instants_held(variables_view(vars@)),
        named_value(variables_view(vars@), "path"@, FilterValueView::Text(display_relative(root@, (*f).path@))),
        named_value(variables_view(vars@), "id"@, text_value((*f).id)),
        named_value(variables_view(vars@), "title"@, FilterValueView::Text((*f).title@)),
        named_value(variables_view(vars@), "created"@, millis_value((*f).created)),
        named_value(variables_view(vars@), "due"@, millis_value((*f).due)),
        named_value(variables_view(vars@), "priority"@, match (*f).priority {
            Some(p) => FilterValueView::Int(p as i64),
            None => FilterValueView::Null,
        }),
        named_value(variables_view(vars@), "wait"@, millis_value((*f).wait)),
        named_value(variables_view(vars@), "done"@, millis_value((*f).done)),
        named_value(variables_view(vars@), "canceled"@, millis_value((*f).canceled)),
        named_value(variables_view(vars@), "recur"@, text_value((*f).recur)),
        named_value(variables_view(vars@), "prev"@, text_value((*f).prev)),
        named_value(variables_view(vars@), "focused"@, FilterValueView::Bool((*f).focused)),
        named_value(variables_view(vars@), "focused_since"@, millis_value((*f).focused_since)),
        named_value(variables_view(vars@), "depends_on"@, FilterValueView::Texts(refs_text(root@, (*f).depends_on@))),
        named_value(variables_view(vars@), "directly_blocking"@, FilterValueView::Texts(refs_text(root@, (*f).directly_blocking@))),
        named_value(variables_view(vars@), "state"@, FilterValueView::Text(workflow_state_name((*f).state))),
        named_value(variables_view(vars@), "wait_reasons"@, FilterValueView::Texts((*f).wait_reasons@.map_values(|r: TaskWaitReason| wait_reason_name(r)))),
        named_value(variables_view(vars@), "blocked"@, FilterValueView::Bool((*f).blocked)),
        named_value(variables_view(vars@), "actionable"@, FilterValueView::Bool((*f).actionable)),
        named_value(variables_view(vars@), "now"@, instant_view(now)),
{
    proof {
        lemma_task_variables_by_name(root@, *f, now);
    }
    let mut v: Vec<(String, FilterValue)> = Vec::new();
    v.push(named("path", FilterValue::Text(display_workspace_path(root, f.path.as_str()))));
    v.push(named("id", text_exec(&f.id)));
    v.push(named("title", FilterValue::Text(f.title.clone())));
    v.push(named("created", millis_exec(f.created)));
    v.push(named("due", millis_exec(f.due)));
    v.push(named("priority", match f.priority {
        Some(p) => FilterValue::Int(p as i64),
        None => FilterValue::Null,
    }));
    v.push(named("wait", millis_exec(f.wait)));
    v.push(named("done", millis_exec(f.done)));
    v.push(named("canceled", millis_exec(f.canceled)));
    v.push(named("recur", text_exec(&f.recur)));
    v.push(named("prev", text_exec(&f.prev)));
    v.push(named("focused", FilterValue::Bool(f.focused)));
    v.push(named("focused_since", millis_exec(f.focused_since)));
    v.push(named("depends_on", refs_exec(root, &f.depends_on)));
    v.push(named("directly_blocking", refs_exec(root, &f.directly_blocking)));
    v.push(named("state", FilterValue::Text(f.state.as_str().to_string())));
    v.push(named("wait_reasons", reasons_exec(&f.wait_reasons)));
    v.push(named("blocked", FilterValue::Bool(f.blocked)));
    v.push(named("actionable", FilterValue::Bool(f.actionable)));
    v.push(named("now", instant_value(now)));
    assert(variables_view(v@) =~= task_variables(root@, *f, now));
    assert(instants_held(task_variables(root@, *f, now)));
    v
}

// ---------------------------------------------------------------------------
// Search filters.

/// What a search filter's outcome means for a record at `path`: true,
/// false (a missing key does not match), or the error's text.
pub open spec fn search_outcome(outcome: FilterOutcome, path: Seq<char>) -> Result<bool, Seq<char>> {
    match outcome {
        FilterOutcome::Matched => Ok(true),
        FilterOutcome::NotMatched => Ok(false),
        FilterOutcome::MissingKey => Ok(false),
        FilterOutcome::NotBool(value) => Err("CEL query must return bool, got "@ + value@),
        FilterOutcome::Failed(error) => Err("cannot evaluate query for "@ + path + ": "@ + error@),
    }
}

/// What a search filter's outcome means for a record at `path` (see
/// `search_outcome`).
pub fn search_outcome_result(outcome: &FilterOutcome, path: &str) -> (result: Result<bool, String>)
    ensures
        match search_outcome(*outcome, path@) {
            Ok(b) => result == Ok::<bool, String>(b),
            Err(message) => result matches Err(m) && m@ == message,
        },
{
    match outcome {
        FilterOutcome::Matched => Ok(true),
        FilterOutcome::NotMatched => Ok(false),
        FilterOutcome::MissingKey => Ok(false),
        FilterOutcome::NotBool(value) => {
            let mut m = chars_of("CEL query must return bool, got ");
            extend_chars(&mut m, &chars_of(value.as_str()));
            Err(string_from_chars(&m))
        },
        FilterOutcome::Failed(error) => {
            let mut m = chars_of("cannot evaluate query for ");
            extend_chars(&mut m, &chars_of(path));
            extend_chars(&mut m, &chars_of(": "));
            extend_chars(&mut m, &chars_of(error.as_str()));
            Err(string_from_chars(&m))
        },
    }
}

/// Whether a search record passes a search filter, run with the record's
/// variables; `path` names the record in an error.  A filter that does not
/// compile is refused with `invalid CEL query: ` and the parse error before
/// it runs; otherwise the result is what `search_outcome_result` makes of
/// the run's outcome, whichever outcome cel gave.
pub fn search_filter_matches(source: &str, variables: &Vec<(String, FilterValue)>, path: &str) -> (result: Result<bool, String>)
    requires
        instants_held(variables_view(variables@)),
    ensures
        match cel_compiled(source@) {
            Err(error) => result matches Err(m) && m@ == invalid_query(error),
            Ok(_) => exists|outcome: FilterOutcome|
                match #[trigger] search_outcome(outcome, path@) {
                    Ok(b) => result == Ok::<bool, String>(b),
                    Err(message) => result matches Err(m) && m@ == message,
                },
        },
{
    match compile_search_filter(source) {
        Err(message) => Err(message),
        Ok(_) => {
            let outcome = evaluate_cel(source, variables);
            let result = search_outcome_result(&outcome, path);
            assert(match search_outcome(outcome, path@) {
                Ok(b) => result == Ok::<bool, String>(b),
                Err(message) => result matches Err(m) && m@ == message,
            });
            result
        },
    }
}

/// The instant an RFC 3339 field denotes; null when it is absent or not
/// valid.
pub open spec fn field_time(s: Option<String>) -> FilterValueView {
    match s {
        Some(t) => match timestamp_of(t@) {
            Some(ts) => instant_view(ts),
            None => FilterValueView::Null,
        },
        None => FilterValueView::Null,
    }
}

fn field_time_exec(s: &Option<String>) -> (v: FilterValue)
    ensures
        filter_value_view(v) == field_time(*s),
{
    match s {
        Some(t) => match parse_timestamp(t.as_str()) {
            Some(ts) => instant_value(ts),
            None => FilterValue::Null,
        },
        None => FilterValue::Null,
    }
}

/// Paths as shown relative to the root.
pub open spec fn shown_paths(root: Seq<char>, paths: Seq<String>) -> Seq<Seq<char>> {
    paths.map_values(|p: String| display_relative(root, p@))
}

fn shown_paths_exec(root: &str, paths: &Vec<String>) -> (v: FilterValue)
    ensures
        filter_value_view(v) == FilterValueView::Texts(shown_paths(root@, paths@)),
{
    let mut out: Vec<String> = Vec::new();
    let mut i: usize = 0;
    while i < paths.len()
        invariant
            i <= paths.len(),
            out.len() == i,
            forall|k: int| 0 <= k < i ==> (#[trigger] out@[k])@ == display_relative(root@, paths@[k]@),
        decreases paths.len() - i,
    {
        out.push(display_workspace_path(root, paths[i].as_str()));
        i = i + 1;
    }
    assert(out@.map_values(|s: String| s@) =~= shown_paths(root@, paths@));
    FilterValue::Texts(out)
}

fn texts_exec(texts: &Vec<String>) -> (v: FilterValue)
    ensures
        filter_value_view(v) == FilterValueView::Texts(texts@.map_values(|s: String| s@)),
{
    let mut out: Vec<String> = Vec::new();
    let mut i: usize = 0;
    while i < texts.len()
        invariant
            i <= texts.len(),
            out.len() == i,
            forall|k: int| 0 <= k < i ==> (#[trigger] out@[k])@ == texts@[k]@,
        decreases texts.len() - i,
    {
        out.push(texts[i].clone());
        i = i + 1;
    }
    assert(out@.map_values(|s: String| s@) =~= texts@.map_values(|s: String| s@));
    FilterValue::Texts(out)
}

/// The variables a search filter reads of a note: its path relative to the
/// root, its title, and the documents that reference it directly and
/// transitively, as relative paths.
pub open spec fn note_variables(
    root: Seq<char>,
    path: Seq<char>,
    title: Seq<char>,
    direct: Seq<String>,
    transitive: Seq<String>,
) -> Seq<(Seq<char>, FilterValueView)> {
    seq![
        ("path"@, FilterValueView::Text(display_relative(root, path))),
        ("title"@, FilterValueView::Text(title)),
        ("directly_referenced_by"@, FilterValueView::Texts(shown_paths(root, direct))),
        ("transitively_referenced_by"@, FilterValueView::Texts(shown_paths(root, transitive))),
    ]
}

/// The variables a search filter reads of a note (see `note_variables`).
pub fn note_filter_variables(root: &str, path: &str, title: &str, direct: &Vec<String>, transitive: &Vec<String>) -> (vars: Vec<(String, FilterValue)>)
    ensures
        variables_view(vars@) == note_variables(root@, path@, title@, direct@, transitive@),
        instants_held(variables_view(vars@)),
        named_value(variables_view(vars@), "path"@, FilterValueView::Text(display_relative(root@, path@))),
        named_value(variables_view(vars@), "title"@, FilterValueView::Text(title@)),
        named_value(variables_view(vars@), "directly_referenced_by"@, FilterValueView::Texts(shown_paths(root@, direct@))),
        named_value(variables_view(vars@), "transitively_referenced_by"@, FilterValueView::Texts(shown_paths(root@, transitive@))),
{
    proof {
        lemma_note_variables_by_name(root@, path@, title@, direct@, transitive@);
    }
    let mut v: Vec<(String, FilterValue)> = Vec::new();
    v.push(named("path", FilterValue::Text(display_workspace_path(root, path))));
    v.push(named("title", FilterValue::Text(title.to_string())));
    v.push(named("directly_referenced_by", shown_paths_exec(root, direct)));
    v.push(named("transitively_referenced_by", shown_paths_exec(root, transitive)));
    assert(variables_view(v@) =~= note_variables(root@, path@, title@, direct@, transitive@));
    assert(instants_held(note_variables(root@, path@, title@, direct@, transitive@)));
    v
}

/// What a search filter reads of a task: its fields as written (times as
/// RFC 3339 text), its dependencies and the tasks it blocks, and its
/// workflow facts.
#[derive(Debug)]
pub struct TaskSearchFacts {
    pub path: String,
    pub id: Option<String>,
    pub title: String,
    pub created: Option<String>,
    pub due: Option<String>,
    pub priority: Option<i32>,
    pub wait: Option<String>,
    pub done: Option<String>,
    pub canceled: Option<String>,
    pub recur: Option<String>,
    pub prev: Option<String>,
    pub depends_on: Vec<TaskRef>,
    pub directly_blocking: Vec<TaskRef>,
    pub state: TaskWorkflowState,
    pub wait_reasons: Vec<TaskWaitReason>,
    pub blocked: bool,
    pub actionable: bool,
}

/// The variables a search filter reads of a task.
pub open spec fn task_search_variables(root: Seq<char>, f: TaskSearchFacts, now: Timestamp) -> Seq<(Seq<char>, FilterValueView)> {
    seq![
        ("path"@, FilterValueView::Text(display_relative(root, f.path@))),
        ("id"@, text_value(f.id)),
        ("title"@, FilterValueView::Text(f.title@)),
        ("created"@, field_time(f.created)),
        ("due"@, field_time(f.due)),
        ("priority"@, match f.priority {
            Some(p) => FilterValueView::Int(p as i64),
            None => FilterValueView::Null,
        }),
        ("wait"@, field_time(f.wait)),
        ("done"@, field_time(f.done)),
        ("canceled"@, field_time(f.canceled)),
        ("recur"@, text_value(f.recur)),
        ("prev"@, text_value(f.prev)),
        ("depends_on"@, FilterValueView::Texts(refs_text(root, f.depends_on@))),
        ("directly_blocking"@, FilterValueView::Texts(refs_text(root, f.directly_blocking@))),
        ("state"@, FilterValueView::Text(workflow_state_name(f.state))),
        ("wait_reasons"@, FilterValueView::Texts(f.wait_reasons@.map_values(|r: TaskWaitReason| wait_reason_name(r)))),
        ("blocked"@, FilterValueView::Bool(f.blocked)),
        ("actionable"@, FilterValueView::Bool(f.actionable)),
        ("now"@, instant_view(now)),
    ]
}

/// The variables a search filter reads of a task (see
/// `task_search_variables`).
pub fn task_search_filter_variables(root: &str, f: &TaskSearchFacts, now: Timestamp) -> (vars: Vec<(String, FilterValue)>)
    ensures
        variables_view(vars@) == task_search_variables(root@, *f, now),
        instants_held(variables_view(vars@)),
        named_value(variables_view(vars@), "path"@, FilterValueView::Text(display_relative(root@, (*f).path@))),
        named_value(variables_view(vars@), "id"@, text_value((*f).id)),
        named_value(variables_view(vars@), "title"@, FilterValueView::Text((*f).title@)),
        named_value(variables_view(vars@), "created"@, field_time((*f).created)),
        named_value(variables_view(vars@), "due"@, field_time((*f).due)),
        named_value(variables_view(vars@), "priority"@, match (*f).priority {
            Some(p) => FilterValueView::Int(p as i64),
            None => FilterValueView::Null,
        }),
        named_value(variables_view(vars@), "wait"@, field_time((*f).wait)),
        named_value(variables_view(vars@), "done"@, field_time((*f).done)),
        named_value(variables_view(vars@), "canceled"@, field_time((*f).canceled)),
        named_value(variables_view(vars@), "recur"@, text_value((*f).recur)),
        named_value(variables_view(vars@), "prev"@, text_value((*f).prev)),
        named_value(variables_view(vars@), "depends_on"@, FilterValueView::Texts(refs_text(root@, (*f).depends_on@))),
        named_value(variables_view(vars@), "directly_blocking"@, FilterValueView::Texts(refs_text(root@, (*f).directly_blocking@))),
        named_value(variables_view(vars@), "state"@, FilterValueView::Text(workflow_state_name((*f).state))),
        named_value(variables_view(vars@), "wait_reasons"@, FilterValueView::Texts((*f).wait_reasons@.map_values(|r: TaskWaitReason| wait_reason_name(r)))),
        named_value(variables_view(vars@), "blocked"@, FilterValueView::Bool((*f).blocked)),
        named_value(variables_view(vars@), "actionable"@, FilterValueView::Bool((*f).actionable)),
        named_value(variables_view(vars@), "now"@, instant_view(now)),
{
    proof {
        lemma_task_search_variables_by_name(root@, *f, now);
    }
    let mut v: Vec<(String, FilterValue)> = Vec::new();
    v.push(named("path", FilterValue::Text(display_workspace_path(root, f.path.as_str()))));
    v.push(named("id", text_exec(&f.id)));
    v.push(named("title", FilterValue::Text(f.title.clone())));
    v.push(named("created", field_time_exec(&f.created)));
    v.push(named("due", field_time_exec(&f.due)));
    v.push(named("priority", match f.priority {
        Some(p) => FilterValue::Int(p as i64),
        None => FilterValue::Null,
    }));
    v.push(named("wait", field_time_exec(&f.wait)));
    v.push(named("done", field_time_exec(&f.done)));
    v.push(named("canceled", field_time_exec(&f.canceled)));
    v.push(named("recur", text_exec(&f.recur)));
    v.push(named("prev", text_exec(&f.prev)));
    v.push(named("depends_on", refs_exec(root, &f.depends_on)));
    v.push(named("directly_blocking", refs_exec(root, &f.directly_blocking)));
    v.push(named("state", FilterValue::Text(f.state.as_str().to_string())));
    v.push(named("wait_reasons", reasons_exec(&f.wait_reasons)));
    v.push(named("blocked", FilterValue::Bool(f.blocked)));
    v.push(named("actionable", FilterValue::Bool(f.actionable)));
    v.push(named("now", instant_value(now)));
    assert(variables_view(v@) =~= task_search_variables(root@, *f, now));
    assert(instants_held(task_search_variables(root@, *f, now)));
    v
}

/// What a search filter reads of an event: its fields as written (times
/// as RFC 3339 text) and the sources of its task references.
#[derive(Debug)]
pub struct EventSearchFacts {
    pub path: String,
    pub id: Option<String>,
    pub title: String,
    pub uid: Option<String>,
    pub date: Option<String>,
    pub timezone: Option<String>,
    pub when: Option<String>,
    pub at: Option<String>,
    pub start: Option<String>,
    pub end: Option<String>,
    pub tasks: Vec<String>,
}

/// The variables a search filter reads of an event.
pub open spec fn event_search_variables(root: Seq<char>, e: EventSearchFacts, now: Timestamp) -> Seq<(Seq<char>, FilterValueView)> {
    seq![
        ("path"@, FilterValueView::Text(display_relative(root, e.path@))),
        ("id"@, text_value(e.id)),
        ("title"@, FilterValueView::Text(e.title@)),
        ("uid"@, text_value(e.uid)),
        ("date"@, text_value(e.date)),
        ("timezone"@, text_value(e.timezone)),
        ("when"@, text_value(e.when)),
        ("at"@, field_time(e.at)),
        ("start"@, field_time(e.start)),
        ("end"@, field_time(e.end)),
        ("tasks"@, FilterValueView::Texts(e.tasks@.map_values(|s: String| s@))),
        ("now"@, instant_view(now)),
    ]
}

/// The variables a search filter reads of an event (see
/// `event_search_variables`).
pub fn event_search_filter_variables(root: &str, e: &EventSearchFacts, now: Timestamp) -> (vars: Vec<(String, FilterValue)>)
    ensures
        variables_view(vars@) == event_search_variables(root@, *e, now),
        instants_held(variables_view(vars@)),
        named_value(variables_view(vars@), "path"@, FilterValueView::Text(display_relative(root@, (*e).path@))),
        named_value(variables_view(vars@), "id"@, text_value((*e).id)),
        named_value(variables_view(vars@), "title"@, FilterValueView::Text((*e).title@)),
        named_value(variables_view(vars@), "uid"@, text_value((*e).uid)),
        named_value(variables_view(vars@), "date"@, text_value((*e).date)),
        named_value(variables_view(vars@), "timezone"@, text_value((*e).timezone)),
        named_value(variables_view(vars@), "when"@, text_value((*e).when)),
        named_value(variables_view(vars@), "at"@, field_time((*e).at)),
        named_value(variables_view(vars@), "start"@, field_time((*e).start)),
        named_value(variables_view(vars@), "end"@, field_time((*e).end)),
        named_value(variables_view(vars@), "tasks"@, FilterValueView::Texts((*e).tasks@.map_values(|s: String| s@))),
        named_value(variables_view(vars@), "now"@, instant_view(now)),
{
    proof {
        lemma_event_search_variables_by_name(root@, *e, now);
    }
    let mut v: Vec<(String, FilterValue)> = Vec::new();
    v.push(named("path", FilterValue::Text(display_workspace_path(root, e.path.as_str()))));
    v.push(named("id", text_exec(&e.id)));
    v.push(named("title", FilterValue::Text(e.title.clone())));
    v.push(named("uid", text_exec(&e.uid)));
    v.push(named("date", text_exec(&e.date)));
    v.push(named("timezone", text_exec(&e.timezone)));
    v.push(named("when", text_exec(&e.when)));
    v.push(named("at", field_time_exec(&e.at)));
    v.push(named("start", field_time_exec(&e.start)));
    v.push(named("end", field_time_exec(&e.end)));
    v.push(named("tasks", texts_exec(&e.tasks)));
    v.push(named("now", instant_value(now)));
    assert(variables_view(v@) =~= event_search_variables(root@, *e, now));
    assert(instants_held(event_search_variables(root@, *e, now)));
    v
}

// ---------------------------------------------------------------------------
// Choosing search records.

/// A record a search may return, as its document holds it: the record, the
/// variables a search filter reads of it, and whether it comes from the
/// disk store (rather than an open document).
#[derive(Debug)]
pub struct SearchCandidate {
    pub record: SearchRecord,
    pub variables: Vec<(String, FilterValue)>,
    pub stored: bool,
}

/// The fields a record is scored on: a note's title and relative path; a
/// task's or event's title, id (empty when none) and relative path.
pub open spec fn search_fields(r: SearchRecord) -> Seq<Seq<char>> {
    if r.kind == SearchRecordKind::Note {
        seq![r.title@, r.relative_path@]
    } else {
        seq![
            r.title@,
            match r.id {
                Some(i) => i@,
                None => Seq::empty(),
            },
            r.relative_path@,
        ]
    }
}

/// A path among the open documents.
pub open spec fn path_open(open: Seq<String>, path: Seq<char>) -> bool {
    exists|k: int| 0 <= k < open.len() && (#[trigger] open[k])@ == path
}

/// A candidate is considered when it is of the asked kind (any, when none
/// is asked) and does not come from the store for a document that is open.
pub open spec fn considered(c: SearchCandidate, kind: Option<SearchRecordKind>, open: Seq<String>) -> bool {
    (kind is None || kind == Some(c.record.kind)) && !(c.stored && path_open(open, c.record.path@))
}

/// The candidates among the first `n` that a search keeps, in order, with
/// their scores: `outs[i]` is the filter's outcome on candidate `i` (when
/// there is a filter).  A note is filtered, then scored; a task or event is
/// scored, then filtered.  The first filter error refuses the search.
pub open spec fn search_selected_upto(
    cands: Seq<SearchCandidate>,
    kind: Option<SearchRecordKind>,
    query: Seq<char>,
    filtered: bool,
    open: Seq<String>,
    outs: Seq<FilterOutcome>,
    n: int,
) -> Result<Seq<(i64, usize)>, Seq<char>>
    decreases n,
{
    if n <= 0 {
        Ok(Seq::empty())
    } else {
        match search_selected_upto(cands, kind, query, filtered, open, outs, n - 1) {
            Err(e) => Err(e),
            Ok(s) => {
                let c = cands[n - 1];
                let score = search_score_spec(query, search_fields(c.record));
                let passed = if filtered {
                    search_outcome(outs[n - 1], c.record.path@)
                } else {
                    Ok(true)
                };
                if !considered(c, kind, open) {
                    Ok(s)
                } else if c.record.kind == SearchRecordKind::Note {
                    match passed {
                        Err(e) => Err(e),
                        Ok(false) => Ok(s),
                        Ok(true) => match score {
                            Some(sc) => Ok(s.push((sc, (n - 1) as usize))),
                            None => Ok(s),
                        },
                    }
                } else {
                    match score {
                        None => Ok(s),
                        Some(sc) => match passed {
                            Err(e) => Err(e),
                            Ok(false) => Ok(s),
                            Ok(true) => Ok(s.push((sc, (n - 1) as usize))),
                        },
                    }
                }
            },
        }
    }
}

/// The filter runs on a candidate: one considered that is a note, or that
/// has a text score.
pub open spec fn search_runs(c: SearchCandidate, kind: Option<SearchRecordKind>, query: Seq<char>, open: Seq<String>) -> bool {
    considered(c, kind, open) && (c.record.kind == SearchRecordKind::Note || search_score_spec(query, search_fields(c.record)) is Some)
}

/// Every outcome the selection reads (of a candidate the filter runs on,
/// reached before any error) is one cel may give on the filter's text and
/// the candidate's variables.
pub open spec fn search_given(
    source: Seq<char>,
    cands: Seq<SearchCandidate>,
    kind: Option<SearchRecordKind>,
    query: Seq<char>,
    open: Seq<String>,
    outs: Seq<FilterOutcome>,
) -> bool {
    forall|i: int|
        0 <= i < outs.len() && search_runs(cands[i], kind, query, open) && search_selected_upto(cands, kind, query, true, open, outs, i)
            is Ok ==> cel_may_give(source, variables_view(cands[i].variables@), #[trigger] outs[i])
}

proof fn lemma_search_given_step(
    source: Seq<char>,
    cands: Seq<SearchCandidate>,
    kind: Option<SearchRecordKind>,
    query: Seq<char>,
    open: Seq<String>,
    before: Seq<FilterOutcome>,
    outs: Seq<FilterOutcome>,
    i: int,
)
    requires
        0 <= i,
        before.len() == i,
        outs == before.push(outs[i]),
        search_given(source, cands, kind, query, open, before),
        search_runs(cands[i], kind, query, open) ==> cel_may_give(source, variables_view(cands[i].variables@), outs[i]),
    ensures
        search_given(source, cands, kind, query, open, outs),
{
    assert forall|k: int|
        0 <= k < outs.len() && search_runs(cands[k], kind, query, open) && search_selected_upto(cands, kind, query, true, open, outs, k)
            is Ok implies cel_may_give(source, variables_view(cands[k].variables@), #[trigger] outs[k]) by {
        if k < i {
            assert(outs[k] == before[k]);
            lemma_search_prefix(cands, kind, query, true, open, before, outs, k);
        }
    }
}

/// `result` is the selection `d`, an error being the search filter's.
pub open spec fn search_selection_is(d: Result<Seq<(i64, usize)>, Seq<char>>, result: Result<Vec<(i64, usize)>, WorkspaceSearchError>) -> bool {
    match d {
        Ok(s) => result matches Ok(v) && v@ == s,
        Err(m) => result matches Err(WorkspaceSearchError::Filter(e)) && e@ == m,
    }
}

proof fn lemma_search_prefix(
    cands: Seq<SearchCandidate>,
    kind: Option<SearchRecordKind>,
    query: Seq<char>,
    filtered: bool,
    open: Seq<String>,
    a: Seq<FilterOutcome>,
    b: Seq<FilterOutcome>,
    n: int,
)
    requires
        n <= a.len(),
        n <= b.len(),
        forall|k: int| 0 <= k < n ==> a[k] == b[k],
    ensures
        search_selected_upto(cands, kind, query, filtered, open, a, n) == search_selected_upto(cands, kind, query, filtered, open, b, n),
    decreases n,
{
    if n > 0 {
        lemma_search_prefix(cands, kind, query, filtered, open, a, b, n - 1);
    }
}

proof fn lemma_search_error_stays(
    cands: Seq<SearchCandidate>,
    kind: Option<SearchRecordKind>,
    query: Seq<char>,
    filtered: bool,
    open: Seq<String>,
    outs: Seq<FilterOutcome>,
    n: int,
    m: int,
)
    requires
        0 <= n <= m,
        search_selected_upto(cands, kind, query, filtered, open, outs, n) is Err,
    ensures
        search_selected_upto(cands, kind, query, filtered, open, outs, m) == search_selected_upto(cands, kind, query, filtered, open, outs, n),
    decreases m - n,
{
    if n < m {
        lemma_search_error_stays(cands, kind, query, filtered, open, outs, n, m - 1);
    }
}

proof fn lemma_best_at_least(query: Seq<char>, fields: Seq<Seq<char>>, j: int)
    requires
        0 <= j < fields.len(),
        fuzzy_score_spec(fields[j], query) is Some,
    ensures
        best_field_score(query, fields) matches Some(t) && t >= fuzzy_score_spec(fields[j], query)->0,
    decreases fields.len(),
{
    if j < fields.len() - 1 {
        lemma_best_at_least(query, fields.drop_last(), j);
        assert(fields.drop_last()[j] == fields[j]);
    }
}

/// The text a record is found by, field by field: its title, its id (for
/// a task or an event) and its path shown from the root.
pub open spec fn scored_by(r: SearchRecord, text: Seq<char>) -> bool {
    text == r.title@ || text == r.relative_path@ || (r.kind != SearchRecordKind::Note && r.id is Some && text == r.id->0@)
}

/// A record scores at least as well as each text it is found by: its
/// title, its path and, for a task or an event, its id.
pub proof fn lemma_record_score_covers(r: SearchRecord, query: Seq<char>, text: Seq<char>)
    requires
        query.len() > 0,
        scored_by(r, text),
        fuzzy_score_spec(text, query) is Some,
    ensures
        search_score_spec(query, search_fields(r)) matches Some(t) && t >= fuzzy_score_spec(text, query)->0,
{
    let fs = search_fields(r);
    if text == r.title@ {
        lemma_best_at_least(query, fs, 0);
    } else if r.kind == SearchRecordKind::Note {
        assert(text == r.relative_path@);
        lemma_best_at_least(query, fs, 1);
    } else if text == r.relative_path@ {
        lemma_best_at_least(query, fs, 2);
    } else {
        lemma_best_at_least(query, fs, 1);
    }
}

/// Without a filter, a search keeps every candidate it considers (of the
/// asked kind, not a stored copy of an open document) that scores, with
/// its score.
proof fn lemma_unfiltered_keeps_scored(
    cands: Seq<SearchCandidate>,
    kind: Option<SearchRecordKind>,
    query: Seq<char>,
    open: Seq<String>,
    outs: Seq<FilterOutcome>,
    n: int,
)
    requires
        0 <= n <= cands.len(),
    ensures
        search_selected_upto(cands, kind, query, false, open, outs, n) matches Ok(sel) && forall|i: int|
            0 <= i < n && considered(#[trigger] cands[i], kind, open) && search_score_spec(query, search_fields(cands[i].record)) is Some
                ==> sel.contains((search_score_spec(query, search_fields(cands[i].record))->0, i as usize)),
    decreases n,
{
    if n > 0 {
        lemma_unfiltered_keeps_scored(cands, kind, query, open, outs, n - 1);
        let prev = search_selected_upto(cands, kind, query, false, open, outs, n - 1)->Ok_0;
        let sel = search_selected_upto(cands, kind, query, false, open, outs, n)->Ok_0;
        let c = cands[n - 1];
        let score = search_score_spec(query, search_fields(c.record));
        if considered(c, kind, open) && score is Some {
            assert(sel == prev.push((score->0, (n - 1) as usize)));
        } else {
            assert(sel == prev);
        }
        assert forall|i: int|
            0 <= i < n && considered(#[trigger] cands[i], kind, open) && search_score_spec(query, search_fields(cands[i].record)) is Some
                implies sel.contains((search_score_spec(query, search_fields(cands[i].record))->0, i as usize)) by {
            if i < n - 1 {
                let x = (search_score_spec(query, search_fields(cands[i].record))->0, i as usize);
                let k = choose|k: int| 0 <= k < prev.len() && prev[k] == x;
                assert(sel[k] == x);
            } else {
                assert(sel[sel.len() - 1] == (score->0, (n - 1) as usize));
            }
        }
    }
}

/// Without a filter, a search finds a candidate it considers (of the asked
/// kind, not a stored copy of an open document) by any text the candidate
/// is found by (its title, its path, and a task's or event's id): when that
/// text scores on a nonempty query, the candidate is kept with a score at
/// least that text's.
pub proof fn lemma_unfiltered_search_finds_by_field(
    cands: Seq<SearchCandidate>,
    kind: Option<SearchRecordKind>,
    query: Seq<char>,
    open: Seq<String>,
    outs: Seq<FilterOutcome>,
    i: int,
    text: Seq<char>,
)
    requires
        0 <= i < cands.len() <= usize::MAX,
        query.len() > 0,
        considered(cands[i], kind, open),
        scored_by(cands[i].record, text),
        fuzzy_score_spec(text, query) is Some,
    ensures
        search_selected_upto(cands, kind, query, false, open, outs, cands.len() as int) matches Ok(sel) && exists|k: int|
            0 <= k < sel.len() && (#[trigger] sel[k]).1 == i && sel[k].0 >= fuzzy_score_spec(text, query)->0,
{
    lemma_record_score_covers(cands[i].record, query, text);
    lemma_unfiltered_keeps_scored(cands, kind, query, open, outs, cands.len() as int);
    let sel = search_selected_upto(cands, kind, query, false, open, outs, cands.len() as int)->Ok_0;
    let x = (search_score_spec(query, search_fields(cands[i].record))->0, i as usize);
    assert(sel.contains(x));
    let k = choose|k: int| 0 <= k < sel.len() && sel[k] == x;
    assert(sel[k].1 == i);
}

fn path_is_open(open: &Vec<String>, path: &str) -> (found: bool)
    ensures
        found == path_open(open@, path@),
{
    let mut k: usize = 0;
    while k < open.len()
        invariant
            k <= open.len(),
            forall|j: int| 0 <= j < k ==> (#[trigger] open@[j])@ != path@,
        decreases open.len() - k,
    {
        if str_eq(open[k].as_str(), path) {
            return true;
        }
        k = k + 1;
    }
    false
}

fn record_score(query: &str, r: &SearchRecord) -> (score: Option<i64>)
    ensures
        score == search_score_spec(query@, search_fields(*r)),
{
    let mut fields: Vec<String> = Vec::new();
    fields.push(r.title.clone());
    if r.kind != SearchRecordKind::Note {
        fields.push(match &r.id {
            Some(i) => i.clone(),
            None => String::new(),
        });
    }
    fields.push(r.relative_path.clone());
    assert(field_views(fields@) =~= search_fields(*r));
    search_score(query, &fields)
}

/// The records a search keeps, in the order given, each with its score:
/// those of the asked kind (any, when none is asked), leaving out the
/// store's copy of an open document, whose score over their fields (see
/// `search_fields`) exists and that pass the filter, if there is one.  A
/// note is filtered before it is scored, a task or an event after.  A
/// filter that does not compile refuses the search first (`invalid CEL
/// query: ` and the parse error); an error of the filter on a record
/// refuses it too.  The filter's outcomes are cel's: the result is the
/// selection for an outcome of the filter on each record it runs on that
/// cel may give on the filter's text and that record's variables
/// (`cel_may_give`).
pub fn select_search_records(
    candidates: &Vec<SearchCandidate>,
    kind: Option<SearchRecordKind>,
    query: &str,
    filter: &Option<String>,
    open: &Vec<String>,
) -> (result: Result<Vec<(i64, usize)>, WorkspaceSearchError>)
    requires
        forall|i: int| 0 <= i < candidates.len() ==> instants_held(variables_view(#[trigger] candidates@[i].variables@)),
    ensures
        match filter {
            Some(source) => match cel_compiled(source@) {
                Err(e) => result matches Err(WorkspaceSearchError::Filter(m)) && m@ == invalid_query(e),
                Ok(_) => exists|outs: Seq<FilterOutcome>|
                    outs.len() == candidates.len() && search_given(source@, candidates@, kind, query@, open@, outs) && search_selection_is(
                        #[trigger] search_selected_upto(candidates@, kind, query@, true, open@, outs, candidates.len() as int),
                        result,
                    ),
            },
            None => exists|outs: Seq<FilterOutcome>|
                outs.len() == candidates.len() && search_selection_is(
                    #[trigger] search_selected_upto(candidates@, kind, query@, false, open@, outs, candidates.len() as int),
                    result,
                ),
        },
        filter is None && query@.len() > 0 ==> forall|i: int, text: Seq<char>|
            0 <= i < candidates.len() && considered(candidates@[i], kind, open@) && #[trigger] scored_by(candidates@[i].record, text)
                && fuzzy_score_spec(text, query@) is Some ==> (result matches Ok(v) && exists|k: int|
                0 <= k < v.len() && (#[trigger] v@[k]).1 == i && v@[k].0 >= fuzzy_score_spec(text, query@)->0),
{
    let filtered = filter.is_some();
    match filter {
        Some(source) => match compile_search_filter(source.as_str()) {
            Err(m) => {
                return Err(WorkspaceSearchError::Filter(m));
            },
            Ok(_) => {},
        },
        None => {},
    }
    let ghost outs: Seq<FilterOutcome> = Seq::empty();
    let mut out: Vec<(i64, usize)> = Vec::new();
    let mut i: usize = 0;
    while i < candidates.len()
        invariant
            i <= candidates.len(),
            filtered == filter is Some,
            filter matches Some(source) ==> cel_compiled(source@) is Ok,
            forall|j: int| 0 <= j < candidates.len() ==> instants_held(variables_view(#[trigger] candidates@[j].variables@)),
            outs.len() == i,
            filter matches Some(source) ==> search_given(source@, candidates@, kind, query@, open@, outs),
            search_selected_upto(candidates@, kind, query@, filtered, open@, outs, i as int) == Ok::<
                Seq<(i64, usize)>,
                Seq<char>,
            >(out@),
        decreases candidates.len() - i,
    {
        let c = &candidates[i];
        let ghost before = outs;
        let wanted = match kind {
            Some(k) => k == c.record.kind,
            None => true,
        };
        let skipped = c.stored && path_is_open(open, c.record.path.as_str());
        let mut outcome = FilterOutcome::MissingKey;
        let mut keep: Option<i64> = None;
        let mut failed: Option<String> = None;
        if wanted && !skipped {
            let note = c.record.kind == SearchRecordKind::Note;
            let score = if note {
                None
            } else {
                record_score(query, &c.record)
            };
            if note || score.is_some() {
                let passed = match filter {
                    Some(source) => {
                        outcome = evaluate_cel(source.as_str(), &c.variables);
                        search_outcome_result(&outcome, c.record.path.as_str())
                    },
                    None => Ok(true),
                };
                match passed {
                    Ok(true) => {
                        keep = if note {
                            record_score(query, &c.record)
                        } else {
                            score
                        };
                    },
                    Ok(false) => {},
                    Err(m) => {
                        failed = Some(m);
                    },
                }
            }
        }
        proof {
            outs = outs.push(outcome);
            lemma_search_prefix(candidates@, kind, query@, filtered, open@, before, outs, i as int);
            match filter {
                Some(source) => {
                    lemma_search_given_step(source@, candidates@, kind, query@, open@, before, outs, i as int);
                },
                None => {},
            }
        }
        match failed {
            Some(m) => {
                proof {
                    let w = outs + Seq::new((candidates.len() - i - 1) as nat, |k: int| FilterOutcome::MissingKey);
                    lemma_search_prefix(candidates@, kind, query@, filtered, open@, outs, w, i + 1);
                    lemma_search_error_stays(candidates@, kind, query@, filtered, open@, w, i + 1, candidates.len() as int);
                    match filter {
                        Some(source) => {
                            assert forall|k: int|
                                0 <= k < w.len() && search_runs(candidates@[k], kind, query@, open@) && search_selected_upto(
                                    candidates@,
                                    kind,
                                    query@,
                                    true,
                                    open@,
                                    w,
                                    k,
                                ) is Ok implies cel_may_give(source@, variables_view(candidates@[k].variables@), #[trigger] w[k]) by {
                                if k <= i {
                                    assert(w[k] == outs[k]);
                                    lemma_search_prefix(candidates@, kind, query@, true, open@, outs, w, k);
                                } else {
                                    lemma_search_error_stays(candidates@, kind, query@, true, open@, w, i + 1, k);
                                }
                            }
                        },
                        None => {},
                    }
                }
                return Err(WorkspaceSearchError::Filter(m));
            },
            None => {},
        }
        match keep {
            Some(score) => out.push((score, i)),
            None => {},
        }
        i = i + 1;
    }
    proof {
        if filter is None && query@.len() > 0 {
            assert(search_selection_is(
                search_selected_upto(candidates@, kind, query@, false, open@, outs, candidates.len() as int),
                Ok::<Vec<(i64, usize)>, WorkspaceSearchError>(out),
            ));
            assert forall|i: int, text: Seq<char>|
                0 <= i < candidates.len() && considered(candidates@[i], kind, open@) && #[trigger] scored_by(candidates@[i].record, text)
                    && fuzzy_score_spec(text, query@) is Some implies exists|k: int|
                    0 <= k < out.len() && (#[trigger] out@[k]).1 == i && out@[k].0 >= fuzzy_score_spec(text, query@)->0 by {
                lemma_unfiltered_search_finds_by_field(candidates@, kind, query@, open@, outs, i, text);
            }
        }
    }
    Ok(out)
}

} // verus!
