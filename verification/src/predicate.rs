//! Candidate predicates: the leading conjuncts of a CEL task filter that can
//! be decided from stored task columns alone.
//!
//! A CEL expression is given in the library's own syntax tree (`CelExpr`).
//! Its meaning is `cel_eval`: the CEL semantics of literals, of the task
//! variables, of `&&`, `||`, `!` and of the six comparisons; every other
//! node (other identifiers, other functions, other literals, comparisons
//! outside the integer and equality cases) takes a value chosen by an
//! arbitrary `oracle`, so the laws below hold whatever those evaluate to.
use vstd::prelude::*;
use crate::text::str_eq;
use crate::workflow::{workflow_state_name, TaskWorkflowState};

verus! {

/// A CEL literal.
#[derive(Debug, Clone, PartialEq, Eq)]
pub enum CelLiteral {
    Null,
    Bool(bool),
    Int(i64),
    Str(String),
    /// Unsigned, double and bytes literals.
    Other,
}

/// A CEL expression: literals, identifiers, global function calls (CEL's
/// operators are calls such as `_==_`, `_&&_` and `!_`) and anything else.
#[derive(Debug, PartialEq, Eq)]
pub enum CelExpr {
    Literal(CelLiteral),
    Ident(String),
    Call(String, Vec<CelExpr>),
    Other,
}

#[derive(Debug, Clone, Copy, PartialEq, Eq, Structural)]
pub enum TaskPredicateField {
    Id,
    Title,
    Created,
    Due,
    Priority,
    Wait,
    Done,
    Canceled,
    Recur,
    Prev,
}

#[derive(Debug, Clone, Copy, PartialEq, Eq, Structural)]
pub enum TaskPredicateFieldKind {
    String,
    Integer,
    Timestamp,
}

#[derive(Debug, Clone, Copy, PartialEq, Eq, Structural)]
pub enum TaskPredicateOp {
    Equal,
    NotEqual,
    Less,
    LessEqual,
    Greater,
    GreaterEqual,
}

#[derive(Debug, Clone, PartialEq, Eq)]
pub enum TaskPredicateValue {
    Null,
    String(String),
    Integer(i64),
}

/// A predicate over stored task facts.
#[derive(Debug, PartialEq, Eq)]
pub enum TaskCandidatePredicate {
    Constant(bool),
    And(Vec<TaskCandidatePredicate>),
    Or(Vec<TaskCandidatePredicate>),
    Not(Box<TaskCandidatePredicate>),
    Compare { field: TaskPredicateField, op: TaskPredicateOp, value: TaskPredicateValue },
    State(TaskWorkflowState),
}

/// The leading translatable conjuncts of a filter and whether they are all
/// of it.
#[derive(Debug, PartialEq, Eq)]
pub struct TaskCandidatePrefix {
    pub predicate: Option<TaskCandidatePredicate>,
    pub complete: bool,
}

/// The stored facts of one task that candidate predicates read; timestamps
/// are milliseconds since the epoch.
#[derive(Debug, Clone, PartialEq, Eq)]
pub struct TaskPredicateFacts {
    pub id: Option<String>,
    pub title: String,
    pub created: Option<i64>,
    pub due: Option<i64>,
    pub priority: Option<i64>,
    pub wait: Option<i64>,
    pub done: Option<i64>,
    pub canceled: Option<i64>,
    pub recur: Option<String>,
    pub prev: Option<String>,
    pub state: TaskWorkflowState,
}

/// CEL values as far as the model distinguishes them.
pub ghost enum CelValue {
    Null,
    Bool(bool),
    Int(int),
    Str(Seq<char>),
    Timestamp(int),
    Error,
    Opaque(int),
}

// ---------------------------------------------------------------------------
// Names of CEL's operator functions.

pub open spec fn and_name() -> Seq<char> {
    "_&&_"@
}

pub open spec fn or_name() -> Seq<char> {
    "_||_"@
}

pub open spec fn not_name() -> Seq<char> {
    "!_"@
}

/// The comparison a CEL operator function name denotes.
pub open spec fn comparison_op_spec(name: Seq<char>) -> Option<TaskPredicateOp> {
    if name == "_==_"@ {
        Some(TaskPredicateOp::Equal)
    } else if name == "_!=_"@ {
        Some(TaskPredicateOp::NotEqual)
    } else if name == "_<_"@ {
        Some(TaskPredicateOp::Less)
    } else if name == "_<=_"@ {
        Some(TaskPredicateOp::LessEqual)
    } else if name == "_>_"@ {
        Some(TaskPredicateOp::Greater)
    } else if name == "_>=_"@ {
        Some(TaskPredicateOp::GreaterEqual)
    } else {
        None
    }
}

/// The task field an identifier names.
pub open spec fn field_from_ident_spec(name: Seq<char>) -> Option<TaskPredicateField> {
    if name == "id"@ {
        Some(TaskPredicateField::Id)
    } else if name == "title"@ {
        Some(TaskPredicateField::Title)
    } else if name == "created"@ {
        Some(TaskPredicateField::Created)
    } else if name == "due"@ {
        Some(TaskPredicateField::Due)
    } else if name == "priority"@ {
        Some(TaskPredicateField::Priority)
    } else if name == "wait"@ {
        Some(TaskPredicateField::Wait)
    } else if name == "done"@ {
        Some(TaskPredicateField::Done)
    } else if name == "canceled"@ {
        Some(TaskPredicateField::Canceled)
    } else if name == "recur"@ {
        Some(TaskPredicateField::Recur)
    } else if name == "prev"@ {
        Some(TaskPredicateField::Prev)
    } else {
        None
    }
}

pub open spec fn field_kind(field: TaskPredicateField) -> TaskPredicateFieldKind {
    match field {
        TaskPredicateField::Id | TaskPredicateField::Title | TaskPredicateField::Recur
        | TaskPredicateField::Prev => TaskPredicateFieldKind::String,
        TaskPredicateField::Priority => TaskPredicateFieldKind::Integer,
        _ => TaskPredicateFieldKind::Timestamp,
    }
}

pub open spec fn field_nullable(field: TaskPredicateField) -> bool {
    field != TaskPredicateField::Title
}

pub open spec fn reversed_spec(op: TaskPredicateOp) -> TaskPredicateOp {
    match op {
        TaskPredicateOp::Less => TaskPredicateOp::Greater,
        TaskPredicateOp::LessEqual => TaskPredicateOp::GreaterEqual,
        TaskPredicateOp::Greater => TaskPredicateOp::Less,
        TaskPredicateOp::GreaterEqual => TaskPredicateOp::LessEqual,
        other => other,
    }
}

pub open spec fn is_equality_spec(op: TaskPredicateOp) -> bool {
    op == TaskPredicateOp::Equal || op == TaskPredicateOp::NotEqual
}

// ---------------------------------------------------------------------------
// Semantics.

pub open spec fn opt_string_value(v: Option<String>) -> CelValue {
    match v {
        Some(s) => CelValue::Str(s@),
        None => CelValue::Null,
    }
}

pub open spec fn opt_timestamp_value(v: Option<i64>) -> CelValue {
    match v {
        Some(t) => CelValue::Timestamp(t as int),
        None => CelValue::Null,
    }
}

/// The CEL value a task field takes for a task.
pub open spec fn field_value(facts: TaskPredicateFacts, field: TaskPredicateField) -> CelValue {
    match field {
        TaskPredicateField::Id => opt_string_value(facts.id),
        TaskPredicateField::Title => CelValue::Str(facts.title@),
        TaskPredicateField::Created => opt_timestamp_value(facts.created),
        TaskPredicateField::Due => opt_timestamp_value(facts.due),
        TaskPredicateField::Priority => match facts.priority {
            Some(p) => CelValue::Int(p as int),
            None => CelValue::Null,
        },
        TaskPredicateField::Wait => opt_timestamp_value(facts.wait),
        TaskPredicateField::Done => opt_timestamp_value(facts.done),
        TaskPredicateField::Canceled => opt_timestamp_value(facts.canceled),
        TaskPredicateField::Recur => opt_string_value(facts.recur),
        TaskPredicateField::Prev => opt_string_value(facts.prev),
    }
}

pub open spec fn literal_value(value: TaskPredicateValue) -> CelValue {
    match value {
        TaskPredicateValue::Null => CelValue::Null,
        TaskPredicateValue::String(s) => CelValue::Str(s@),
        TaskPredicateValue::Integer(i) => CelValue::Int(i as int),
    }
}

pub open spec fn is_basic(v: CelValue) -> bool {
    !(v is Error) && !(v is Opaque)
}

/// CEL `&&`: false when either side is false, true when both are true, an
/// error otherwise.
pub open spec fn cel_and(a: CelValue, b: CelValue) -> CelValue {
    if a == CelValue::Bool(false) || b == CelValue::Bool(false) {
        CelValue::Bool(false)
    } else if a == CelValue::Bool(true) && b == CelValue::Bool(true) {
        CelValue::Bool(true)
    } else {
        CelValue::Error
    }
}

/// CEL `||`: true when either side is true, false when both are false, an
/// error otherwise.
pub open spec fn cel_or(a: CelValue, b: CelValue) -> CelValue {
    if a == CelValue::Bool(true) || b == CelValue::Bool(true) {
        CelValue::Bool(true)
    } else if a == CelValue::Bool(false) && b == CelValue::Bool(false) {
        CelValue::Bool(false)
    } else {
        CelValue::Error
    }
}

/// A comparison of two values where the model decides it: errors
/// propagate, equality of basic values is structural (values of different
/// kinds are unequal, `null` equals only `null`), and integers are ordered.
pub open spec fn cel_compare(op: TaskPredicateOp, a: CelValue, b: CelValue) -> Option<CelValue> {
    if a is Error || b is Error {
        Some(CelValue::Error)
    } else if !is_basic(a) || !is_basic(b) {
        None
    } else {
        match op {
            TaskPredicateOp::Equal => Some(CelValue::Bool(a == b)),
            TaskPredicateOp::NotEqual => Some(CelValue::Bool(a != b)),
            _ => match (a, b) {
                (CelValue::Int(x), CelValue::Int(y)) => Some(
                    CelValue::Bool(
                        match op {
                            TaskPredicateOp::Less => x < y,
                            TaskPredicateOp::LessEqual => x <= y,
                            TaskPredicateOp::Greater => x > y,
                            _ => x >= y,
                        },
                    ),
                ),
                _ => None,
            },
        }
    }
}

/// The value an identifier takes: `state` is the workflow state's name,
/// the task fields take the task's values, other names the oracle's.
pub open spec fn ident_value(
    name: Seq<char>,
    facts: TaskPredicateFacts,
    oracle: spec_fn(CelExpr) -> CelValue,
    node: CelExpr,
) -> CelValue {
    if name == "state"@ {
        CelValue::Str(workflow_state_name(facts.state))
    } else {
        match field_from_ident_spec(name) {
            Some(field) => field_value(facts, field),
            None => oracle(node),
        }
    }
}

/// The value of a CEL expression for a task.
pub open spec fn cel_eval(
    e: CelExpr,
    facts: TaskPredicateFacts,
    oracle: spec_fn(CelExpr) -> CelValue,
) -> CelValue
    decreases e,
{
    match e {
        CelExpr::Literal(lit) => match lit {
            CelLiteral::Null => CelValue::Null,
            CelLiteral::Bool(b) => CelValue::Bool(b),
            CelLiteral::Int(i) => CelValue::Int(i as int),
            CelLiteral::Str(s) => CelValue::Str(s@),
            CelLiteral::Other => oracle(e),
        },
        CelExpr::Ident(name) => ident_value(name@, facts, oracle, e),
        CelExpr::Call(func, args) => {
            if args.len() == 2 && func@ == and_name() {
                cel_and(cel_eval(args[0], facts, oracle), cel_eval(args[1], facts, oracle))
            } else if args.len() == 2 && func@ == or_name() {
                cel_or(cel_eval(args[0], facts, oracle), cel_eval(args[1], facts, oracle))
            } else if args.len() == 1 && func@ == not_name() {
                match cel_eval(args[0], facts, oracle) {
                    CelValue::Bool(b) => CelValue::Bool(!b),
                    CelValue::Error => CelValue::Error,
                    _ => oracle(e),
                }
            } else if args.len() == 2 && comparison_op_spec(func@) is Some {
                match cel_compare(
                    comparison_op_spec(func@)->0,
                    cel_eval(args[0], facts, oracle),
                    cel_eval(args[1], facts, oracle),
                ) {
                    Some(v) => v,
                    None => oracle(e),
                }
            } else {
                oracle(e)
            }
        },
        CelExpr::Other => oracle(e),
    }
}

/// Whether every predicate of a sequence holds of a task.
pub open spec fn all_hold(ps: Seq<TaskCandidatePredicate>, facts: TaskPredicateFacts) -> bool
    decreases ps,
{
    if ps.len() == 0 {
        true
    } else {
        all_hold(ps.drop_last(), facts) && pred_holds(ps.last(), facts)
    }
}

/// Whether some predicate of a sequence holds of a task.
pub open spec fn any_holds(ps: Seq<TaskCandidatePredicate>, facts: TaskPredicateFacts) -> bool
    decreases ps,
{
    if ps.len() == 0 {
        false
    } else {
        any_holds(ps.drop_last(), facts) || pred_holds(ps.last(), facts)
    }
}

/// Whether a candidate predicate holds of a task.
pub open spec fn pred_holds(p: TaskCandidatePredicate, facts: TaskPredicateFacts) -> bool
    decreases p,
{
    match p {
        TaskCandidatePredicate::Constant(b) => b,
        TaskCandidatePredicate::And(ps) => all_hold(ps@, facts),
        TaskCandidatePredicate::Or(ps) => any_holds(ps@, facts),
        TaskCandidatePredicate::Not(q) => !pred_holds(*q, facts),
        TaskCandidatePredicate::Compare { field, op, value } => cel_compare(
            op,
            field_value(facts, field),
            literal_value(value),
        ) == Some(CelValue::Bool(true)),
        TaskCandidatePredicate::State(state) => facts.state == state,
    }
}

// ---------------------------------------------------------------------------
// Fields and operators.

impl TaskPredicateField {
    pub fn from_ident(name: &str) -> (field: Option<TaskPredicateField>)
        ensures
            field == field_from_ident_spec(name@),
    {
        if str_eq(name, "id") {
            Some(TaskPredicateField::Id)
        } else if str_eq(name, "title") {
            Some(TaskPredicateField::Title)
        } else if str_eq(name, "created") {
            Some(TaskPredicateField::Created)
        } else if str_eq(name, "due") {
            Some(TaskPredicateField::Due)
        } else if str_eq(name, "priority") {
            Some(TaskPredicateField::Priority)
        } else if str_eq(name, "wait") {
            Some(TaskPredicateField::Wait)
        } else if str_eq(name, "done") {
            Some(TaskPredicateField::Done)
        } else if str_eq(name, "canceled") {
            Some(TaskPredicateField::Canceled)
        } else if str_eq(name, "recur") {
            Some(TaskPredicateField::Recur)
        } else if str_eq(name, "prev") {
            Some(TaskPredicateField::Prev)
        } else {
            None
        }
    }

    pub fn kind(self) -> (kind: TaskPredicateFieldKind)
        ensures
            kind == field_kind(self),
    {
        match self {
            TaskPredicateField::Id | TaskPredicateField::Title | TaskPredicateField::Recur
            | TaskPredicateField::Prev => TaskPredicateFieldKind::String,
            TaskPredicateField::Priority => TaskPredicateFieldKind::Integer,
            _ => TaskPredicateFieldKind::Timestamp,
        }
    }

    pub fn nullable(self) -> (nullable: bool)
        ensures
            nullable == field_nullable(self),
    {
        !matches!(self, TaskPredicateField::Title)
    }
}

impl TaskPredicateOp {
    pub fn reversed(self) -> (op: TaskPredicateOp)
        ensures
            op == reversed_spec(self),
    {
        match self {
            TaskPredicateOp::Less => TaskPredicateOp::Greater,
            TaskPredicateOp::LessEqual => TaskPredicateOp::GreaterEqual,
            TaskPredicateOp::Greater => TaskPredicateOp::Less,
            TaskPredicateOp::GreaterEqual => TaskPredicateOp::LessEqual,
            other => other,
        }
    }

    pub fn is_equality(self) -> (eq: bool)
        ensures
            eq == is_equality_spec(self),
    {
        matches!(self, TaskPredicateOp::Equal | TaskPredicateOp::NotEqual)
    }
}

/// The comparison a CEL operator name denotes, if any.
pub fn comparison_op(name: &str) -> (op: Option<TaskPredicateOp>)
    ensures
        op == comparison_op_spec(name@),
{
    if str_eq(name, "_==_") {
        Some(TaskPredicateOp::Equal)
    } else if str_eq(name, "_!=_") {
        Some(TaskPredicateOp::NotEqual)
    } else if str_eq(name, "_<_") {
        Some(TaskPredicateOp::Less)
    } else if str_eq(name, "_<=_") {
        Some(TaskPredicateOp::LessEqual)
    } else if str_eq(name, "_>_") {
        Some(TaskPredicateOp::Greater)
    } else if str_eq(name, "_>=_") {
        Some(TaskPredicateOp::GreaterEqual)
    } else {
        None
    }
}

// ---------------------------------------------------------------------------
// Combining predicates.

/// Whether some predicate is the constant that decides a conjunction
/// (`false`) or disjunction (`true`) outright.
pub open spec fn short_circuits(ps: Seq<TaskCandidatePredicate>, conjunction: bool) -> bool {
    exists|i: int|
        0 <= i < ps.len() && #[trigger] ps[i] == TaskCandidatePredicate::Constant(!conjunction)
}

/// The operands of a combination: neutral constants dropped, nested
/// combinations of the same kind spliced in, everything else kept in order.
pub open spec fn combine_items(ps: Seq<TaskCandidatePredicate>, conjunction: bool) -> Seq<
    TaskCandidatePredicate,
>
    decreases ps.len(),
{
    if ps.len() == 0 {
        seq![]
    } else {
        let prev = combine_items(ps.drop_last(), conjunction);
        match ps.last() {
            TaskCandidatePredicate::Constant(_) => prev,
            TaskCandidatePredicate::And(nested) => if conjunction {
                prev + nested@
            } else {
                prev.push(ps.last())
            },
            TaskCandidatePredicate::Or(nested) => if !conjunction {
                prev + nested@
            } else {
                prev.push(ps.last())
            },
            _ => prev.push(ps.last()),
        }
    }
}

/// The shape `combine` gives its result.
pub open spec fn combine_shape(
    ps: Seq<TaskCandidatePredicate>,
    conjunction: bool,
    result: Option<TaskCandidatePredicate>,
) -> bool {
    if short_circuits(ps, conjunction) {
        result == Some(TaskCandidatePredicate::Constant(!conjunction))
    } else {
        let items = combine_items(ps, conjunction);
        if items.len() == 0 {
            result == Some(TaskCandidatePredicate::Constant(conjunction))
        } else if items.len() == 1 {
            result == Some(items[0])
        } else if conjunction {
            result matches Some(TaskCandidatePredicate::And(v)) && v@ == items
        } else {
            result matches Some(TaskCandidatePredicate::Or(v)) && v@ == items
        }
    }
}

/// The meaning of a conjunction or disjunction of predicates.
pub open spec fn combined_meaning(
    ps: Seq<TaskCandidatePredicate>,
    conjunction: bool,
    facts: TaskPredicateFacts,
) -> bool {
    if conjunction {
        all_hold(ps, facts)
    } else {
        any_holds(ps, facts)
    }
}

/// `all_hold` is the conjunction over the elements.
pub proof fn lemma_all_hold(ps: Seq<TaskCandidatePredicate>, facts: TaskPredicateFacts)
    ensures
        all_hold(ps, facts) == (forall|i: int|
            0 <= i < ps.len() ==> #[trigger] pred_holds(ps[i], facts)),
    decreases ps.len(),
{
    if ps.len() > 0 {
        lemma_all_hold(ps.drop_last(), facts);
        assert forall|i: int| 0 <= i < ps.len() - 1 implies #[trigger] ps.drop_last()[i] == ps[i] by {}
        if all_hold(ps, facts) {
            assert forall|i: int| 0 <= i < ps.len() implies #[trigger] pred_holds(ps[i], facts) by {
                if i < ps.len() - 1 {
                    assert(pred_holds(ps.drop_last()[i], facts));
                }
            }
        } else {
            if !all_hold(ps.drop_last(), facts) {
                let i = choose|i: int| 0 <= i < ps.len() - 1 && !#[trigger] pred_holds(ps.drop_last()[i], facts);
                assert(!pred_holds(ps[i], facts));
            } else {
                assert(!pred_holds(ps[ps.len() - 1], facts));
            }
        }
    }
}

/// `any_holds` is the disjunction over the elements.
pub proof fn lemma_any_holds(ps: Seq<TaskCandidatePredicate>, facts: TaskPredicateFacts)
    ensures
        any_holds(ps, facts) == (exists|i: int|
            0 <= i < ps.len() && #[trigger] pred_holds(ps[i], facts)),
    decreases ps.len(),
{
    if ps.len() > 0 {
        lemma_any_holds(ps.drop_last(), facts);
        assert forall|i: int| 0 <= i < ps.len() - 1 implies #[trigger] ps.drop_last()[i] == ps[i] by {}
        if any_holds(ps, facts) {
            if any_holds(ps.drop_last(), facts) {
                let i = choose|i: int| 0 <= i < ps.len() - 1 && #[trigger] pred_holds(ps.drop_last()[i], facts);
                assert(pred_holds(ps[i], facts));
            } else {
                assert(pred_holds(ps[ps.len() - 1], facts));
            }
        } else {
            assert forall|i: int| 0 <= i < ps.len() implies !#[trigger] pred_holds(ps[i], facts) by {
                if i < ps.len() - 1 {
                    assert(!pred_holds(ps.drop_last()[i], facts));
                }
            }
        }
    }
}

proof fn lemma_all_hold_append(
    a: Seq<TaskCandidatePredicate>,
    b: Seq<TaskCandidatePredicate>,
    facts: TaskPredicateFacts,
)
    ensures
        all_hold(a + b, facts) == (all_hold(a, facts) && all_hold(b, facts)),
        any_holds(a + b, facts) == (any_holds(a, facts) || any_holds(b, facts)),
    decreases b.len(),
{
    if b.len() == 0 {
        assert(a + b == a);
    } else {
        lemma_all_hold_append(a, b.drop_last(), facts);
        assert((a + b).drop_last() == a + b.drop_last());
        assert((a + b).last() == b.last());
    }
}

proof fn lemma_combine_items_meaning(
    ps: Seq<TaskCandidatePredicate>,
    conjunction: bool,
    facts: TaskPredicateFacts,
)
    requires
        !short_circuits(ps, conjunction),
    ensures
        combined_meaning(combine_items(ps, conjunction), conjunction, facts) == combined_meaning(
            ps,
            conjunction,
            facts,
        ),
    decreases ps.len(),
{
    if ps.len() > 0 {
        let init = ps.drop_last();
        assert(!short_circuits(init, conjunction)) by {
            if short_circuits(init, conjunction) {
                let i = choose|i: int|
                    0 <= i < init.len() && #[trigger] init[i] == TaskCandidatePredicate::Constant(
                        !conjunction,
                    );
                assert(ps[i] == init[i]);
            }
        }
        lemma_combine_items_meaning(init, conjunction, facts);
        let prev = combine_items(init, conjunction);
        let items = combine_items(ps, conjunction);
        let last = ps.last();
        assert(all_hold(ps, facts) == (all_hold(init, facts) && pred_holds(last, facts)));
        assert(any_holds(ps, facts) == (any_holds(init, facts) || pred_holds(last, facts)));
        assert(prev.push(last).drop_last() == prev);
        assert(all_hold(prev.push(last), facts) == (all_hold(prev, facts) && pred_holds(last, facts)));
        assert(any_holds(prev.push(last), facts) == (any_holds(prev, facts) || pred_holds(last, facts)));
        match last {
            TaskCandidatePredicate::Constant(b) => {
                assert(ps[ps.len() - 1] == last);
                assert(b == conjunction);
                assert(items == prev);
            },
            TaskCandidatePredicate::And(nested) => {
                lemma_all_hold_append(prev, nested@, facts);
                if conjunction {
                    assert(items == prev + nested@);
                } else {
                    assert(items == prev.push(last));
                }
            },
            TaskCandidatePredicate::Or(nested) => {
                lemma_all_hold_append(prev, nested@, facts);
                if !conjunction {
                    assert(items == prev + nested@);
                } else {
                    assert(items == prev.push(last));
                }
            },
            _ => {
                assert(items == prev.push(last));
            },
        }
    }
}

/// Combines predicates into one conjunction (`conjunction`) or disjunction:
/// a deciding constant wins outright, neutral constants vanish, nested
/// combinations of the same kind are flattened, and a single remaining
/// operand stands alone.  The result always means the conjunction or
/// disjunction of the inputs.
pub fn combine(predicates: Vec<TaskCandidatePredicate>, conjunction: bool) -> (result: Option<
    TaskCandidatePredicate,
>)
    ensures
        combine_shape(predicates@, conjunction, result),
        result is Some,
        forall|facts: TaskPredicateFacts|
            #![trigger combined_meaning(predicates@, conjunction, facts)]
            pred_holds(result->0, facts) == combined_meaning(predicates@, conjunction, facts),
{
    let ghost input = predicates@;
    let count = predicates.len();
    assert(input.len() == count);
    let mut combined: Vec<TaskCandidatePredicate> = Vec::new();
    let mut rest = predicates;
    let mut index: usize = 0;
    while rest.len() > 0
        invariant
            input == predicates@,
            input.len() <= usize::MAX,
            index + rest@.len() == input.len(),
            rest@ == input.skip(index as int),
            combined@ == combine_items(input.take(index as int), conjunction),
            !short_circuits(input.take(index as int), conjunction),
        decreases rest@.len(),
    {
        let predicate = rest.remove(0);
        proof {
            assert(predicate == input[index as int]);
            assert(input.take(index + 1).drop_last() == input.take(index as int));
            assert(input.take(index + 1).last() == predicate);
        }
        match predicate {
            TaskCandidatePredicate::Constant(value) => {
                if value != conjunction {
                    proof {
                        assert(input[index as int] == TaskCandidatePredicate::Constant(!conjunction));
                        assert(short_circuits(input, conjunction));
                        assert(value == !conjunction);
                        assert(combine_shape(input, conjunction, Some(TaskCandidatePredicate::Constant(value))));
                        assert forall|facts: TaskPredicateFacts| pred_holds(TaskCandidatePredicate::Constant(value), facts)
                            == combined_meaning(input, conjunction, facts) by {
                            lemma_all_hold(input, facts);
                            lemma_any_holds(input, facts);
                            assert(pred_holds(input[index as int], facts) == !conjunction);
                        }
                    }
                    return Some(TaskCandidatePredicate::Constant(value));
                }
            },
            TaskCandidatePredicate::And(nested) => {
                if conjunction {
                    let mut nested = nested;
                    combined.append(&mut nested);
                } else {
                    combined.push(TaskCandidatePredicate::And(nested));
                }
            },
            TaskCandidatePredicate::Or(nested) => {
                if !conjunction {
                    let mut nested = nested;
                    combined.append(&mut nested);
                } else {
                    combined.push(TaskCandidatePredicate::Or(nested));
                }
            },
            other => {
                combined.push(other);
            },
        }
        proof {
            assert forall|i: int| 0 <= i < index + 1 implies #[trigger] input.take(index + 1)[i]
                != TaskCandidatePredicate::Constant(!conjunction) by {
                if i < index {
                    assert(input.take(index + 1)[i] == input.take(index as int)[i]);
                }
            }
            assert(rest@ == input.skip(index + 1));
        }
        index = index + 1;
    }
    proof {
        assert(input.take(index as int) == input);
    }
    let result = if combined.len() == 0 {
        Some(TaskCandidatePredicate::Constant(conjunction))
    } else if combined.len() == 1 {
        combined.pop()
    } else if conjunction {
        Some(TaskCandidatePredicate::And(combined))
    } else {
        Some(TaskCandidatePredicate::Or(combined))
    };
    proof {
        assert forall|facts: TaskPredicateFacts|
            #![trigger combined_meaning(input, conjunction, facts)]
            pred_holds(result->0, facts) == combined_meaning(input, conjunction, facts) by {
            lemma_combine_items_meaning(input, conjunction, facts);
            let items = combine_items(input, conjunction);
            if items.len() == 0 {
                assert(combined_meaning(items, conjunction, facts) == conjunction);
            } else if items.len() == 1 {
                assert(items.drop_last().len() == 0);
                assert(all_hold(items.drop_last(), facts));
                assert(!any_holds(items.drop_last(), facts));
                assert(items.last() == items[0]);
                assert(all_hold(items, facts) == pred_holds(items[0], facts));
                assert(any_holds(items, facts) == pred_holds(items[0], facts));
            }
        }
    }
    result
}

impl TaskCandidatePredicate {
    /// The conjunction of the predicates (see `combine`).
    pub fn and(predicates: Vec<TaskCandidatePredicate>) -> (result: Option<TaskCandidatePredicate>)
        ensures
            combine_shape(predicates@, true, result),
            result is Some,
            forall|facts: TaskPredicateFacts|
                #![trigger combined_meaning(predicates@, true, facts)]
                pred_holds(result->0, facts) == combined_meaning(predicates@, true, facts),
    {
        combine(predicates, true)
    }

    /// The disjunction of the predicates (see `combine`).
    pub fn or(predicates: Vec<TaskCandidatePredicate>) -> (result: Option<TaskCandidatePredicate>)
        ensures
            combine_shape(predicates@, false, result),
            result is Some,
            forall|facts: TaskPredicateFacts|
                #![trigger combined_meaning(predicates@, false, facts)]
                pred_holds(result->0, facts) == combined_meaning(predicates@, false, facts),
    {
        combine(predicates, false)
    }
}

// ---------------------------------------------------------------------------
// Translating CEL conjuncts.

pub open spec fn ident_of(e: CelExpr) -> Option<Seq<char>> {
    match e {
        CelExpr::Ident(name) => Some(name@),
        _ => None,
    }
}

pub open spec fn literal_of(e: CelExpr) -> Option<TaskPredicateValue> {
    match e {
        CelExpr::Literal(CelLiteral::Null) => Some(TaskPredicateValue::Null),
        CelExpr::Literal(CelLiteral::Str(s)) => Some(TaskPredicateValue::String(s)),
        CelExpr::Literal(CelLiteral::Int(i)) => Some(TaskPredicateValue::Integer(i)),
        _ => None,
    }
}

/// The workflow states that stored columns decide on their own (ready and
/// blocked depend on dependencies and are not among them).
pub open spec fn state_from_name_spec(name: Seq<char>) -> Option<TaskWorkflowState> {
    if name == "waiting"@ {
        Some(TaskWorkflowState::Waiting)
    } else if name == "done"@ {
        Some(TaskWorkflowState::Done)
    } else if name == "canceled"@ {
        Some(TaskWorkflowState::Canceled)
    } else if name == "conflicted"@ {
        Some(TaskWorkflowState::Conflicted)
    } else {
        None
    }
}

/// Whether comparing a field of this kind with this literal by `op` is
/// total: `null` only by equality on nullable fields, strings only by
/// equality on string fields, integers by equality, or by ordering once the
/// field is known not to be null.
pub open spec fn compatible_spec(
    field: TaskPredicateField,
    op: TaskPredicateOp,
    value: TaskPredicateValue,
    non_null: Seq<TaskPredicateField>,
) -> bool {
    match value {
        TaskPredicateValue::Null => field_nullable(field) && is_equality_spec(op),
        TaskPredicateValue::String(_) => field_kind(field) == TaskPredicateFieldKind::String
            && is_equality_spec(op),
        TaskPredicateValue::Integer(_) => field_kind(field) == TaskPredicateFieldKind::Integer && (
        is_equality_spec(op) || !field_nullable(field) || non_null.contains(field)),
    }
}

/// Whether `name op value` translates.
pub open spec fn field_comparison_ok(
    name: Seq<char>,
    op: TaskPredicateOp,
    value: TaskPredicateValue,
    non_null: Seq<TaskPredicateField>,
) -> bool {
    if name == "state"@ {
        is_equality_spec(op) && value is String && state_from_name_spec(value->String_0@) is Some
    } else {
        match field_from_ident_spec(name) {
            Some(field) => compatible_spec(field, op, value, non_null),
            None => false,
        }
    }
}

/// Whether a comparison between two operands translates: an identifier on
/// the left against a literal, or else a literal against an identifier on
/// the right.
pub open spec fn comparison_translatable(
    left: CelExpr,
    op: TaskPredicateOp,
    right: CelExpr,
    non_null: Seq<TaskPredicateField>,
) -> bool {
    match ident_of(left) {
        Some(name) => literal_of(right) is Some && field_comparison_ok(
            name,
            op,
            literal_of(right)->0,
            non_null,
        ),
        None => match ident_of(right) {
            Some(name) => literal_of(left) is Some && field_comparison_ok(
                name,
                reversed_spec(op),
                literal_of(left)->0,
                non_null,
            ),
            None => false,
        },
    }
}

/// Whether an expression translates into a candidate predicate: boolean
/// literals, negations and disjunctions of translatable expressions, and
/// translatable comparisons.
pub open spec fn translatable(e: CelExpr, non_null: Seq<TaskPredicateField>) -> bool
    decreases e,
{
    match e {
        CelExpr::Literal(CelLiteral::Bool(_)) => true,
        CelExpr::Call(func, args) => if func@ == not_name() && args@.len() == 1 {
            translatable(args@[0], non_null)
        } else if func@ == or_name() && args@.len() == 2 {
            translatable(args@[0], non_null) && translatable(args@[1], non_null)
        } else if args@.len() == 2 {
            match comparison_op_spec(func@) {
                Some(op) => comparison_translatable(args@[0], op, args@[1], non_null),
                None => false,
            }
        } else {
            false
        },
        _ => false,
    }
}

/// The task fields are known not to be null.
pub open spec fn non_null_holds(non_null: Seq<TaskPredicateField>, facts: TaskPredicateFacts) -> bool {
    forall|i: int| 0 <= i < non_null.len() ==> field_value(facts, #[trigger] non_null[i]) != CelValue::Null
}

/// `p` decides `e` exactly for every task whose `non_null` fields are set,
/// whatever the oracle.
pub open spec fn exact(e: CelExpr, p: TaskCandidatePredicate, non_null: Seq<TaskPredicateField>) -> bool {
    forall|facts: TaskPredicateFacts, oracle: spec_fn(CelExpr) -> CelValue|
        #![trigger cel_eval(e, facts, oracle), non_null_holds(non_null, facts)]
        non_null_holds(non_null, facts) ==> cel_eval(e, facts, oracle) == CelValue::Bool(
            pred_holds(p, facts),
        )
}

proof fn lemma_operator_names_differ()
    ensures
        and_name() != or_name(),
        and_name() != not_name(),
        or_name() != not_name(),
        comparison_op_spec(and_name()) is None,
        comparison_op_spec(or_name()) is None,
        comparison_op_spec(not_name()) is None,
        field_from_ident_spec("state"@) is None,
        state_from_name_spec("ready"@) is None,
        forall|s: TaskWorkflowState| #[trigger] state_from_name_spec(workflow_state_name(s)) is Some
            ==> state_from_name_spec(workflow_state_name(s)) == Some(s),
        forall|name: Seq<char>| #[trigger] state_from_name_spec(name) is Some ==> workflow_state_name(
            state_from_name_spec(name)->0,
        ) == name,
        forall|a: TaskWorkflowState, b: TaskWorkflowState|
            #[trigger] workflow_state_name(a) == #[trigger] workflow_state_name(b) ==> a == b,
{
    reveal_strlit("_&&_");
    reveal_strlit("_||_");
    reveal_strlit("!_");
    reveal_strlit("_==_");
    reveal_strlit("_!=_");
    reveal_strlit("_<_");
    reveal_strlit("_<=_");
    reveal_strlit("_>_");
    reveal_strlit("_>=_");
    reveal_strlit("state");
    reveal_strlit("id");
    reveal_strlit("title");
    reveal_strlit("created");
    reveal_strlit("due");
    reveal_strlit("priority");
    reveal_strlit("wait");
    reveal_strlit("done");
    reveal_strlit("canceled");
    reveal_strlit("recur");
    reveal_strlit("prev");
    reveal_strlit("ready");
    reveal_strlit("waiting");
    reveal_strlit("blocked");
    reveal_strlit("conflicted");
    assert("_&&_"@.len() == 4);
    assert("_||_"@.len() == 4);
    assert("!_"@.len() == 2);
    assert("_==_"@.len() == 4);
    assert("_!=_"@.len() == 4);
    assert("_<_"@.len() == 3);
    assert("_<=_"@.len() == 4);
    assert("_>_"@.len() == 3);
    assert("_>=_"@.len() == 4);
    assert("state"@.len() == 5);
    assert("id"@.len() == 2);
    assert("title"@.len() == 5);
    assert("created"@.len() == 7);
    assert("due"@.len() == 3);
    assert("priority"@.len() == 8);
    assert("wait"@.len() == 4);
    assert("done"@.len() == 4);
    assert("canceled"@.len() == 8);
    assert("recur"@.len() == 5);
    assert("prev"@.len() == 4);
    assert("ready"@.len() == 5);
    assert("waiting"@.len() == 7);
    assert("blocked"@.len() == 7);
    assert("conflicted"@.len() == 10);
    assert(and_name()[1] != or_name()[1]);
    assert(and_name()[1] != "_==_"@[1]);
    assert(and_name()[1] != "_!=_"@[1]);
    assert(and_name()[1] != "_<=_"@[1]);
    assert(and_name()[1] != "_>=_"@[1]);
    assert(or_name()[1] != "_==_"@[1]);
    assert(or_name()[1] != "_!=_"@[1]);
    assert(or_name()[1] != "_<=_"@[1]);
    assert(or_name()[1] != "_>=_"@[1]);
    assert("state"@[0] != "title"@[0]);
    assert("state"@[0] != "recur"@[0]);
    assert("waiting"@[0] != "blocked"@[0]);
}

proof fn lemma_compare_reversed(op: TaskPredicateOp, a: CelValue, b: CelValue)
    ensures
        cel_compare(op, a, b) == cel_compare(reversed_spec(op), b, a),
{
}

proof fn lemma_literal_eval(
    e: CelExpr,
    facts: TaskPredicateFacts,
    oracle: spec_fn(CelExpr) -> CelValue,
)
    ensures
        literal_of(e) is Some ==> cel_eval(e, facts, oracle) == literal_value(literal_of(e)->0),
{
}

/// A compatible comparison against a task field is always decided.
proof fn lemma_compatible_decided(
    field: TaskPredicateField,
    op: TaskPredicateOp,
    value: TaskPredicateValue,
    non_null: Seq<TaskPredicateField>,
    facts: TaskPredicateFacts,
)
    requires
        compatible_spec(field, op, value, non_null),
        non_null_holds(non_null, facts),
    ensures
        cel_compare(op, field_value(facts, field), literal_value(value)) matches Some(
            CelValue::Bool(_),
        ),
{
    if value is Integer && !is_equality_spec(op) && field_nullable(field) {
        let i = choose|i: int| 0 <= i < non_null.len() && non_null[i] == field;
        assert(field_value(facts, non_null[i]) != CelValue::Null);
    }
}

fn ident(expression: &CelExpr) -> (name: Option<&String>)
    ensures
        name matches Some(n) ==> ident_of(*expression) == Some(n@),
        name is None ==> ident_of(*expression) is None,
{
    match expression {
        CelExpr::Ident(name) => Some(name),
        _ => None,
    }
}

fn literal(expression: &CelExpr) -> (value: Option<TaskPredicateValue>)
    ensures
        value == literal_of(*expression),
{
    match expression {
        CelExpr::Literal(CelLiteral::Null) => Some(TaskPredicateValue::Null),
        CelExpr::Literal(CelLiteral::Str(s)) => Some(TaskPredicateValue::String(s.clone())),
        CelExpr::Literal(CelLiteral::Int(i)) => Some(TaskPredicateValue::Integer(*i)),
        _ => None,
    }
}

fn state_from_name(name: &str) -> (state: Option<TaskWorkflowState>)
    ensures
        state == state_from_name_spec(name@),
{
    if str_eq(name, "waiting") {
        Some(TaskWorkflowState::Waiting)
    } else if str_eq(name, "done") {
        Some(TaskWorkflowState::Done)
    } else if str_eq(name, "canceled") {
        Some(TaskWorkflowState::Canceled)
    } else if str_eq(name, "conflicted") {
        Some(TaskWorkflowState::Conflicted)
    } else {
        None
    }
}

fn contains_field(fields: &Vec<TaskPredicateField>, field: TaskPredicateField) -> (found: bool)
    ensures
        found == fields@.contains(field),
{
    let mut i: usize = 0;
    while i < fields.len()
        invariant
            i <= fields.len(),
            forall|k: int| 0 <= k < i ==> fields@[k] != field,
        decreases fields.len() - i,
    {
        if fields[i] == field {
            return true;
        }
        i = i + 1;
    }
    false
}

/// Translates `name op value` into a predicate when the comparison is total
/// under the fields known not to be null.
pub fn comparison_with_field(
    name: &str,
    op: TaskPredicateOp,
    value: TaskPredicateValue,
    non_null: &Vec<TaskPredicateField>,
) -> (predicate: Option<TaskCandidatePredicate>)
    ensures
        predicate is Some == field_comparison_ok(name@, op, value, non_null@),
        predicate matches Some(p) ==> forall|facts: TaskPredicateFacts|
            #![trigger pred_holds(p, facts)]
            non_null_holds(non_null@, facts) ==> (if name@ == "state"@ {
                CelValue::Bool(pred_holds(p, facts)) == cel_compare(
                    op,
                    CelValue::Str(workflow_state_name(facts.state)),
                    literal_value(value),
                )->0
            } else {
                CelValue::Bool(pred_holds(p, facts)) == cel_compare(
                    op,
                    field_value(facts, field_from_ident_spec(name@)->0),
                    literal_value(value),
                )->0 && cel_compare(
                    op,
                    field_value(facts, field_from_ident_spec(name@)->0),
                    literal_value(value),
                ) is Some
            }),
{
    proof {
        lemma_operator_names_differ();
    }
    if str_eq(name, "state") {
        if !op.is_equality() {
            return None;
        }
        let text = match &value {
            TaskPredicateValue::String(text) => text,
            _ => return None,
        };
        let state = match state_from_name(text.as_str()) {
            Some(state) => state,
            None => return None,
        };
        let predicate = TaskCandidatePredicate::State(state);
        let result = if op == TaskPredicateOp::NotEqual {
            TaskCandidatePredicate::Not(Box::new(predicate))
        } else {
            predicate
        };
        proof {
            assert(workflow_state_name(state) == text@);
            assert forall|facts: TaskPredicateFacts| non_null_holds(non_null@, facts) implies
                CelValue::Bool(pred_holds(result, facts)) == cel_compare(
                    op,
                    CelValue::Str(workflow_state_name(facts.state)),
                    literal_value(value),
                )->0 by {
                if facts.state != state {
                    assert(workflow_state_name(facts.state) != workflow_state_name(state));
                }
                assert(literal_value(value) == CelValue::Str(text@));
                let a = CelValue::Str(workflow_state_name(facts.state));
                let b = CelValue::Str(text@);
                assert((a == b) == (facts.state == state));
                if op == TaskPredicateOp::Equal {
                    assert(result == TaskCandidatePredicate::State(state));
                    assert(cel_compare(op, a, b) == Some(CelValue::Bool(a == b)));
                } else {
                    assert(op == TaskPredicateOp::NotEqual);
                    assert(cel_compare(op, a, b) == Some(CelValue::Bool(a != b)));
                    assert(pred_holds(result, facts) == !pred_holds(TaskCandidatePredicate::State(state), facts));
                }
            }
        }
        Some(result)
    } else {
        let field = match TaskPredicateField::from_ident(name) {
            Some(field) => field,
            None => return None,
        };
        let compatible = match &value {
            TaskPredicateValue::Null => field.nullable() && op.is_equality(),
            TaskPredicateValue::String(_) => matches!(field.kind(), TaskPredicateFieldKind::String)
                && op.is_equality(),
            TaskPredicateValue::Integer(_) => matches!(field.kind(), TaskPredicateFieldKind::Integer)
                && (op.is_equality() || !field.nullable() || contains_field(non_null, field)),
        };
        if compatible {
            proof {
                assert forall|facts: TaskPredicateFacts| non_null_holds(non_null@, facts) implies
                    cel_compare(op, field_value(facts, field), literal_value(value)) matches Some(
                    CelValue::Bool(_),
                ) by {
                    lemma_compatible_decided(field, op, value, non_null@, facts);
                }
            }
            Some(TaskCandidatePredicate::Compare { field, op, value })
        } else {
            None
        }
    }
}

/// Translates a comparison between two operands (see
/// `comparison_translatable`); the predicate decides the comparison for every
/// task whose `non_null` fields are set.
pub fn translate_comparison(
    left: &CelExpr,
    op: TaskPredicateOp,
    right: &CelExpr,
    non_null: &Vec<TaskPredicateField>,
) -> (predicate: Option<TaskCandidatePredicate>)
    ensures
        predicate is Some == comparison_translatable(*left, op, *right, non_null@),
        predicate matches Some(p) ==> forall|
            facts: TaskPredicateFacts,
            oracle: spec_fn(CelExpr) -> CelValue,
        |
            #![trigger cel_eval(*left, facts, oracle), cel_eval(*right, facts, oracle)]
            non_null_holds(non_null@, facts) ==> cel_compare(
                op,
                cel_eval(*left, facts, oracle),
                cel_eval(*right, facts, oracle),
            ) == Some(CelValue::Bool(pred_holds(p, facts))),
{
    proof {
        lemma_operator_names_differ();
    }
    if let Some(name) = ident(left) {
        let value = match literal(right) {
            Some(value) => value,
            None => return None,
        };
        let result = comparison_with_field(name.as_str(), op, value, non_null);
        proof {
            if result is Some {
                let p = result->0;
                assert forall|facts: TaskPredicateFacts, oracle: spec_fn(CelExpr) -> CelValue|
                    non_null_holds(non_null@, facts) implies cel_compare(
                    op,
                    cel_eval(*left, facts, oracle),
                    cel_eval(*right, facts, oracle),
                ) == Some(CelValue::Bool(pred_holds(p, facts))) by {
                    lemma_literal_eval(*right, facts, oracle);
                    assert(pred_holds(p, facts) == pred_holds(p, facts));
                }
            }
        }
        return result;
    }
    if let Some(name) = ident(right) {
        let value = match literal(left) {
            Some(value) => value,
            None => return None,
        };
        let result = comparison_with_field(name.as_str(), op.reversed(), value, non_null);
        proof {
            if result is Some {
                let p = result->0;
                assert forall|facts: TaskPredicateFacts, oracle: spec_fn(CelExpr) -> CelValue|
                    non_null_holds(non_null@, facts) implies cel_compare(
                    op,
                    cel_eval(*left, facts, oracle),
                    cel_eval(*right, facts, oracle),
                ) == Some(CelValue::Bool(pred_holds(p, facts))) by {
                    lemma_literal_eval(*left, facts, oracle);
                    assert(pred_holds(p, facts) == pred_holds(p, facts));
                    lemma_compare_reversed(
                        op,
                        cel_eval(*left, facts, oracle),
                        cel_eval(*right, facts, oracle),
                    );
                }
            }
        }
        return result;
    }
    None
}

/// Translates a CEL expression into a candidate predicate when it is
/// `translatable`; the predicate then decides the expression exactly for
/// every task whose `non_null` fields are set.
pub fn translate_total(expression: &CelExpr, non_null: &Vec<TaskPredicateField>) -> (predicate:
    Option<TaskCandidatePredicate>)
    ensures
        predicate is Some == translatable(*expression, non_null@),
        predicate matches Some(p) ==> exact(*expression, p, non_null@),
    decreases expression,
{
    proof {
        lemma_operator_names_differ();
    }
    match expression {
        CelExpr::Literal(CelLiteral::Bool(value)) => Some(TaskCandidatePredicate::Constant(*value)),
        CelExpr::Call(func, args) => {
            if str_eq(func.as_str(), "!_") && args.len() == 1 {
                match translate_total(&args[0], non_null) {
                    Some(inner) => {
                        let result = TaskCandidatePredicate::Not(Box::new(inner));
                        proof {
                            assert forall|facts: TaskPredicateFacts, oracle: spec_fn(CelExpr) -> CelValue|
                                #![trigger cel_eval(*expression, facts, oracle), non_null_holds(non_null@, facts)]
                                non_null_holds(non_null@, facts) implies cel_eval(*expression, facts, oracle)
                                == CelValue::Bool(pred_holds(result, facts)) by {
                                assert(cel_eval(args@[0], facts, oracle) == CelValue::Bool(pred_holds(inner, facts)));
                            }
                        }
                        Some(result)
                    },
                    None => None,
                }
            } else if str_eq(func.as_str(), "_||_") && args.len() == 2 {
                let first = match translate_total(&args[0], non_null) {
                    Some(p) => p,
                    None => return None,
                };
                let second = match translate_total(&args[1], non_null) {
                    Some(p) => p,
                    None => return None,
                };
                let ghost first_ghost = first;
                let ghost second_ghost = second;
                let mut operands: Vec<TaskCandidatePredicate> = Vec::new();
                operands.push(first);
                operands.push(second);
                let ghost operands_view = operands@;
                let result = TaskCandidatePredicate::or(operands);
                proof {
                    assert forall|facts: TaskPredicateFacts, oracle: spec_fn(CelExpr) -> CelValue|
                        #![trigger cel_eval(*expression, facts, oracle), non_null_holds(non_null@, facts)]
                        non_null_holds(non_null@, facts) implies cel_eval(*expression, facts, oracle)
                        == CelValue::Bool(pred_holds(result->0, facts)) by {
                        assert(cel_eval(args@[0], facts, oracle) == CelValue::Bool(pred_holds(first_ghost, facts)));
                        assert(cel_eval(args@[1], facts, oracle) == CelValue::Bool(pred_holds(second_ghost, facts)));
                        assert(pred_holds(result->0, facts) == combined_meaning(operands_view, false, facts));
                        lemma_any_holds(operands_view, facts);
                        assert(operands_view[0] == first_ghost);
                        assert(operands_view[1] == second_ghost);
                    }
                }
                result
            } else if args.len() == 2 {
                match comparison_op(func.as_str()) {
                    Some(op) => {
                        let result = translate_comparison(&args[0], op, &args[1], non_null);
                        proof {
                            if result is Some {
                let p = result->0;
                                assert forall|facts: TaskPredicateFacts, oracle: spec_fn(CelExpr) -> CelValue|
                                    #![trigger cel_eval(*expression, facts, oracle), non_null_holds(non_null@, facts)]
                                    non_null_holds(non_null@, facts) implies cel_eval(*expression, facts, oracle)
                                    == CelValue::Bool(pred_holds(p, facts)) by {
                                    assert(cel_compare(op, cel_eval(args@[0], facts, oracle), cel_eval(args@[1], facts, oracle))
                                        == Some(CelValue::Bool(pred_holds(p, facts))));
                                }
                            }
                        }
                        result
                    },
                    None => None,
                }
            } else {
                None
            }
        },
        _ => None,
    }
}

// ---------------------------------------------------------------------------
// Leading conjuncts.

/// The field that a conjunct proves non-null when it holds: `field != null`,
/// `field == <string>` and `field == <integer>`, either way round.
pub open spec fn non_null_spec(e: CelExpr) -> Option<TaskPredicateField> {
    match e {
        CelExpr::Call(func, args) => if comparison_op_spec(func@) is Some && args@.len() == 2 {
            let op = comparison_op_spec(func@)->0;
            let pair: Option<(TaskPredicateField, TaskPredicateValue)> = match ident_of(args@[0]) {
                Some(name) => match (field_from_ident_spec(name), literal_of(args@[1])) {
                    (Some(field), Some(value)) => Some((field, value)),
                    _ => None,
                },
                None => match ident_of(args@[1]) {
                    Some(name) => match (field_from_ident_spec(name), literal_of(args@[0])) {
                        (Some(field), Some(value)) => Some((field, value)),
                        _ => None,
                    },
                    None => None,
                },
            };
            match pair {
                Some((field, value)) => match (op, value) {
                    (TaskPredicateOp::NotEqual, TaskPredicateValue::Null) => Some(field),
                    (TaskPredicateOp::Equal, TaskPredicateValue::String(_)) => Some(field),
                    (TaskPredicateOp::Equal, TaskPredicateValue::Integer(_)) => Some(field),
                    _ => None,
                },
                None => None,
            }
        } else {
            None
        },
        _ => None,
    }
}

/// The field a conjunct proves non-null when it evaluates to true.
pub fn non_null_when_true(expression: &CelExpr) -> (field: Option<TaskPredicateField>)
    ensures
        field == non_null_spec(*expression),
        field matches Some(f) ==> forall|
            facts: TaskPredicateFacts,
            oracle: spec_fn(CelExpr) -> CelValue,
        |
            #![trigger cel_eval(*expression, facts, oracle)]
            cel_eval(*expression, facts, oracle) == CelValue::Bool(true) ==> field_value(facts, f)
                != CelValue::Null,
{
    proof {
        lemma_operator_names_differ();
    }
    let (func, args) = match expression {
        CelExpr::Call(func, args) => (func, args),
        _ => return None,
    };
    let op = match comparison_op(func.as_str()) {
        Some(op) => op,
        None => return None,
    };
    if args.len() != 2 {
        return None;
    }
    let (field, value) = if let Some(name) = ident(&args[0]) {
        let field = match TaskPredicateField::from_ident(name.as_str()) {
            Some(field) => field,
            None => return None,
        };
        let value = match literal(&args[1]) {
            Some(value) => value,
            None => return None,
        };
        (field, value)
    } else {
        let name = match ident(&args[1]) {
            Some(name) => name,
            None => return None,
        };
        let field = match TaskPredicateField::from_ident(name.as_str()) {
            Some(field) => field,
            None => return None,
        };
        let value = match literal(&args[0]) {
            Some(value) => value,
            None => return None,
        };
        (field, value)
    };
    let result = match (op, &value) {
        (TaskPredicateOp::NotEqual, TaskPredicateValue::Null) => Some(field),
        (TaskPredicateOp::Equal, TaskPredicateValue::String(_)) => Some(field),
        (TaskPredicateOp::Equal, TaskPredicateValue::Integer(_)) => Some(field),
        _ => None,
    };
    proof {
        if result is Some {
            assert forall|facts: TaskPredicateFacts, oracle: spec_fn(CelExpr) -> CelValue|
                #![trigger cel_eval(*expression, facts, oracle)]
                cel_eval(*expression, facts, oracle) == CelValue::Bool(true) implies field_value(
                facts,
                field,
            ) != CelValue::Null by {
                lemma_literal_eval(args@[0], facts, oracle);
                lemma_literal_eval(args@[1], facts, oracle);
            }
        }
    }
    result
}

fn binary_call<'a>(expression: &'a CelExpr, name: &str) -> (operands: Option<(&'a CelExpr, &'a CelExpr)>)
    ensures
        operands matches Some(pair) ==> (expression matches CelExpr::Call(func, args) && func@
            == name@ && args@.len() == 2 && *pair.0 == args@[0] && *pair.1 == args@[1]),
        operands is None ==> !(expression matches CelExpr::Call(func, args) && func@ == name@
            && args@.len() == 2),
{
    match expression {
        CelExpr::Call(func, args) => {
            if str_eq(func.as_str(), name) && args.len() == 2 {
                Some((&args[0], &args[1]))
            } else {
                None
            }
        },
        _ => None,
    }
}

/// The conjuncts of an expression: the leaves of its tree of `&&` calls,
/// left to right.
pub open spec fn conjuncts_spec(e: CelExpr) -> Seq<CelExpr>
    decreases e,
{
    match e {
        CelExpr::Call(func, args) => if func@ == and_name() && args@.len() == 2 {
            conjuncts_spec(args@[0]) + conjuncts_spec(args@[1])
        } else {
            seq![e]
        },
        _ => seq![e],
    }
}

/// Appends the conjuncts of `expression` to `output`.
pub fn flatten_conjunction<'a>(expression: &'a CelExpr, output: &mut Vec<&'a CelExpr>)
    ensures
        final(output)@.len() == old(output)@.len() + conjuncts_spec(*expression).len(),
        forall|i: int| 0 <= i < old(output)@.len() ==> final(output)@[i] == old(output)@[i],
        forall|i: int|
            0 <= i < conjuncts_spec(*expression).len() ==> *final(output)@[old(output)@.len() + i]
                == conjuncts_spec(*expression)[i],
    decreases expression,
{
    match binary_call(expression, "_&&_") {
        Some((left, right)) => {
            let ghost before = output@;
            flatten_conjunction(left, output);
            let ghost middle = output@;
            flatten_conjunction(right, output);
            proof {
                let cs = conjuncts_spec(*expression);
                let a = conjuncts_spec(*left);
                let b = conjuncts_spec(*right);
                assert(cs == a + b);
                assert forall|i: int| 0 <= i < cs.len() implies *output@[before.len() + i]
                    == cs[i] by {
                    if i < a.len() {
                        assert(output@[before.len() + i] == middle[before.len() + i]);
                    } else {
                        assert(output@[middle.len() + (i - a.len())] == output@[before.len() + i]);
                    }
                }
            }
        },
        None => {
            output.push(expression);
        },
    }
}

/// The fields known non-null before the conjunct at `j`.
pub open spec fn accumulated_non_null(cs: Seq<CelExpr>, j: int) -> Seq<TaskPredicateField>
    decreases j,
{
    if j <= 0 {
        seq![]
    } else {
        let prev = accumulated_non_null(cs, j - 1);
        match non_null_spec(cs[j - 1]) {
            Some(field) => prev.push(field),
            None => prev,
        }
    }
}

/// The number of leading conjuncts from `j` on that translate, each under
/// the fields that the conjuncts before it prove non-null.
pub open spec fn prefix_len_from(cs: Seq<CelExpr>, j: int) -> int
    decreases cs.len() - j,
{
    if 0 <= j < cs.len() && translatable(cs[j], accumulated_non_null(cs, j)) {
        prefix_len_from(cs, j + 1)
    } else {
        j
    }
}

/// The number of leading conjuncts of `e` that translate.
pub open spec fn translated_prefix_len(e: CelExpr) -> int {
    prefix_len_from(conjuncts_spec(e), 0)
}

proof fn lemma_prefix_len_bounds(cs: Seq<CelExpr>, j: int)
    requires
        0 <= j <= cs.len(),
    ensures
        j <= prefix_len_from(cs, j) <= cs.len(),
        forall|m: int| j <= m < prefix_len_from(cs, j) ==> translatable(#[trigger] cs[m], accumulated_non_null(cs, m)),
        prefix_len_from(cs, j) < cs.len() ==> !translatable(cs[prefix_len_from(cs, j)], accumulated_non_null(cs, prefix_len_from(cs, j))),
    decreases cs.len() - j,
{
    if j < cs.len() && translatable(cs[j], accumulated_non_null(cs, j)) {
        lemma_prefix_len_bounds(cs, j + 1);
    }
}

/// The fields accumulated before `j` are non-null once every earlier
/// conjunct holds.
proof fn lemma_accumulated_sound(
    cs: Seq<CelExpr>,
    j: int,
    facts: TaskPredicateFacts,
    oracle: spec_fn(CelExpr) -> CelValue,
)
    requires
        0 <= j <= cs.len(),
        forall|m: int| 0 <= m < j ==> cel_eval(#[trigger] cs[m], facts, oracle) == CelValue::Bool(true),
        forall|m: int| 0 <= m < cs.len() ==> (#[trigger] non_null_spec(cs[m]) matches Some(f) ==> (
            cel_eval(cs[m], facts, oracle) == CelValue::Bool(true) ==> field_value(facts, f)
                != CelValue::Null)),
    ensures
        non_null_holds(accumulated_non_null(cs, j), facts),
    decreases j,
{
    if j > 0 {
        lemma_accumulated_sound(cs, j - 1, facts, oracle);
        let prev = accumulated_non_null(cs, j - 1);
        if non_null_spec(cs[j - 1]) is Some {
            let f = non_null_spec(cs[j - 1])->0;
            assert(cel_eval(cs[j - 1], facts, oracle) == CelValue::Bool(true));
            assert forall|i: int| 0 <= i < prev.push(f).len() implies field_value(
                facts,
                #[trigger] prev.push(f)[i],
            ) != CelValue::Null by {
                if i < prev.len() {
                    assert(prev.push(f)[i] == prev[i]);
                }
            }
        }
    }
}

/// The conjunction of an `&&` tree holds exactly when all its conjuncts
/// hold, and fails as soon as one of them fails.
proof fn lemma_conjuncts_eval(e: CelExpr, facts: TaskPredicateFacts, oracle: spec_fn(CelExpr) -> CelValue)
    ensures
        (forall|i: int| 0 <= i < conjuncts_spec(e).len() ==> cel_eval(#[trigger] conjuncts_spec(e)[i], facts, oracle)
            == CelValue::Bool(true)) ==> cel_eval(e, facts, oracle) == CelValue::Bool(true),
        (exists|i: int| 0 <= i < conjuncts_spec(e).len() && cel_eval(#[trigger] conjuncts_spec(e)[i], facts, oracle)
            == CelValue::Bool(false)) ==> cel_eval(e, facts, oracle) == CelValue::Bool(false),
        cel_eval(e, facts, oracle) == CelValue::Bool(true) ==> forall|i: int|
            0 <= i < conjuncts_spec(e).len() ==> cel_eval(#[trigger] conjuncts_spec(e)[i], facts, oracle)
                == CelValue::Bool(true),
    decreases e,
{
    match e {
        CelExpr::Call(func, args) => {
            if func@ == and_name() && args@.len() == 2 {
                let a = args@[0];
                let b = args@[1];
                lemma_conjuncts_eval(a, facts, oracle);
                lemma_conjuncts_eval(b, facts, oracle);
                let ca = conjuncts_spec(a);
                let cb = conjuncts_spec(b);
                let cs = conjuncts_spec(e);
                assert(cs == ca + cb);
                if forall|i: int| 0 <= i < cs.len() ==> cel_eval(#[trigger] cs[i], facts, oracle) == CelValue::Bool(true) {
                    assert forall|i: int| 0 <= i < ca.len() implies cel_eval(#[trigger] ca[i], facts, oracle) == CelValue::Bool(true) by {
                        assert(cs[i] == ca[i]);
                    }
                    assert forall|i: int| 0 <= i < cb.len() implies cel_eval(#[trigger] cb[i], facts, oracle) == CelValue::Bool(true) by {
                        assert(cs[ca.len() + i] == cb[i]);
                    }
                }
                if exists|i: int| 0 <= i < cs.len() && cel_eval(#[trigger] cs[i], facts, oracle) == CelValue::Bool(false) {
                    let i = choose|i: int| 0 <= i < cs.len() && cel_eval(#[trigger] cs[i], facts, oracle) == CelValue::Bool(false);
                    if i < ca.len() {
                        assert(cs[i] == ca[i]);
                    } else {
                        assert(cs[i] == cb[i - ca.len()]);
                    }
                }
                if cel_eval(e, facts, oracle) == CelValue::Bool(true) {
                    assert forall|i: int| 0 <= i < cs.len() implies cel_eval(#[trigger] cs[i], facts, oracle) == CelValue::Bool(true) by {
                        if i < ca.len() {
                            assert(cs[i] == ca[i]);
                        } else {
                            assert(cs[i] == cb[i - ca.len()]);
                        }
                    }
                }
            } else {
                assert(conjuncts_spec(e) == seq![e]);
                assert(conjuncts_spec(e)[0] == e);
            }
        },
        _ => {
            assert(conjuncts_spec(e) == seq![e]);
            assert(conjuncts_spec(e)[0] == e);
        },
    }
}

/// With each of the first `k` conjuncts decided exactly by its predicate
/// under the fields accumulated before it, the predicates all hold exactly
/// when the first `k` conjuncts all hold.
proof fn lemma_prefix_meaning(
    cs: Seq<CelExpr>,
    preds: Seq<TaskCandidatePredicate>,
    facts: TaskPredicateFacts,
    oracle: spec_fn(CelExpr) -> CelValue,
)
    requires
        preds.len() <= cs.len(),
        forall|j: int| 0 <= j < preds.len() ==> exact(#[trigger] cs[j], preds[j], accumulated_non_null(cs, j)),
        forall|m: int| 0 <= m < cs.len() ==> (#[trigger] non_null_spec(cs[m]) matches Some(f) ==> (
            cel_eval(cs[m], facts, oracle) == CelValue::Bool(true) ==> field_value(facts, f)
                != CelValue::Null)),
    ensures
        all_hold(preds, facts) == (forall|j: int|
            0 <= j < preds.len() ==> cel_eval(#[trigger] cs[j], facts, oracle) == CelValue::Bool(true)),
        (exists|j: int| 0 <= j < preds.len() && cel_eval(#[trigger] cs[j], facts, oracle) != CelValue::Bool(true))
            ==> (exists|j: int| 0 <= j < preds.len() && cel_eval(#[trigger] cs[j], facts, oracle) == CelValue::Bool(false)),
    decreases preds.len(),
{
    if preds.len() > 0 {
        let n = preds.len() - 1;
        let init = preds.drop_last();
        assert forall|j: int| 0 <= j < init.len() implies exact(#[trigger] cs[j], init[j], accumulated_non_null(cs, j)) by {
            assert(init[j] == preds[j]);
        }
        lemma_prefix_meaning(cs, init, facts, oracle);
        assert(all_hold(preds, facts) == (all_hold(init, facts) && pred_holds(preds[n], facts)));
        if forall|j: int| 0 <= j < n ==> cel_eval(#[trigger] cs[j], facts, oracle) == CelValue::Bool(true) {
            lemma_accumulated_sound(cs, n, facts, oracle);
            assert(exact(cs[n], preds[n], accumulated_non_null(cs, n)));
            assert(cel_eval(cs[n], facts, oracle) == CelValue::Bool(pred_holds(preds[n], facts)));
        } else {
            let j = choose|j: int| 0 <= j < n && cel_eval(#[trigger] cs[j], facts, oracle) != CelValue::Bool(true);
            assert(!all_hold(init, facts));
        }
    }
}

/// The leading conjuncts of a CEL filter that translate into a candidate
/// predicate.  Translation stops at the first conjunct that does not
/// translate; each conjunct is translated knowing the fields that the
/// conjuncts before it prove non-null.  The predicate holds exactly when
/// all those leading conjuncts hold, so it holds of every task the filter
/// accepts; when every conjunct translated (`complete`) it decides the
/// filter exactly.  The predicate is the conjunction (`and`) of the
/// leading conjuncts' predicates, one per translated conjunct, in order.
pub fn task_candidate_prefix(expression: &CelExpr) -> (prefix: TaskCandidatePrefix)
    ensures
        prefix.predicate is Some,
        exists|preds: Seq<TaskCandidatePredicate>|
            preds.len() == translated_prefix_len(*expression) && (forall|j: int|
                0 <= j < preds.len() ==> exact(
                    conjuncts_spec(*expression)[j],
                    #[trigger] preds[j],
                    accumulated_non_null(conjuncts_spec(*expression), j),
                )) && combine_shape(preds, true, prefix.predicate),
        prefix.complete == (translated_prefix_len(*expression) == conjuncts_spec(*expression).len()),
        forall|facts: TaskPredicateFacts, oracle: spec_fn(CelExpr) -> CelValue|
            #![trigger cel_eval(*expression, facts, oracle)]
            prefix_outcome(*expression, prefix, facts, oracle),
{
    let ghost cs = conjuncts_spec(*expression);
    let mut conjuncts: Vec<&CelExpr> = Vec::new();
    flatten_conjunction(expression, &mut conjuncts);
    let mut predicates: Vec<TaskCandidatePredicate> = Vec::new();
    let mut non_null: Vec<TaskPredicateField> = Vec::new();
    let mut complete = true;
    let mut i: usize = 0;
    while i < conjuncts.len()
        invariant_except_break
            complete,
        invariant
            conjuncts@.len() == cs.len(),
            forall|m: int| 0 <= m < cs.len() ==> *conjuncts@[m] == cs[m],
            i <= cs.len(),
            predicates@.len() == i,
            non_null@ == accumulated_non_null(cs, i as int),
            forall|j: int| 0 <= j < i ==> translatable(#[trigger] cs[j], accumulated_non_null(cs, j)),
            forall|j: int| 0 <= j < i ==> exact(#[trigger] cs[j], predicates@[j], accumulated_non_null(cs, j)),
            prefix_len_from(cs, 0) == prefix_len_from(cs, i as int),
        ensures
            complete ==> i == cs.len(),
            !complete ==> i < cs.len() && !translatable(cs[i as int], accumulated_non_null(cs, i as int)),
        decreases cs.len() - i,
    {
        let conjunct: &CelExpr = conjuncts[i];
        let predicate = match translate_total(conjunct, &non_null) {
            Some(predicate) => predicate,
            None => {
                complete = false;
                break;
            },
        };
        proof {
            assert(prefix_len_from(cs, i as int) == prefix_len_from(cs, i + 1));
        }
        let field = non_null_when_true(conjunct);
        match field {
            Some(field) => non_null.push(field),
            None => {},
        }
        predicates.push(predicate);
        i = i + 1;
    }
    proof {
        lemma_prefix_len_bounds(cs, i as int);
        if complete {
            assert(prefix_len_from(cs, i as int) == i);
        } else {
            assert(prefix_len_from(cs, i as int) == i);
        }
    }
    let ghost preds = predicates@;
    let predicate = TaskCandidatePredicate::and(predicates);
    let prefix = TaskCandidatePrefix { predicate, complete };
    proof {
        assert(translated_prefix_len(*expression) == i as int);
        assert(preds.len() == translated_prefix_len(*expression));
        assert(combine_shape(preds, true, prefix.predicate));
        assert forall|facts: TaskPredicateFacts, oracle: spec_fn(CelExpr) -> CelValue|
            #![trigger cel_eval(*expression, facts, oracle)]
            prefix_outcome(*expression, prefix, facts, oracle) by {
            assert(pred_holds(predicate->0, facts) == combined_meaning(preds, true, facts));
            lemma_prefix_outcome(*expression, preds, prefix, facts, oracle);
        }
    }
    prefix
}

/// What a translated prefix promises of one task and one evaluation.
pub open spec fn prefix_outcome(
    expression: CelExpr,
    prefix: TaskCandidatePrefix,
    facts: TaskPredicateFacts,
    oracle: spec_fn(CelExpr) -> CelValue,
) -> bool {
    &&& pred_holds(prefix.predicate->0, facts) == (forall|j: int|
        0 <= j < translated_prefix_len(expression) ==> cel_eval(
            #[trigger] conjuncts_spec(expression)[j],
            facts,
            oracle,
        ) == CelValue::Bool(true))
    &&& cel_eval(expression, facts, oracle) == CelValue::Bool(true) ==> pred_holds(
        prefix.predicate->0,
        facts,
    )
    &&& prefix.complete ==> cel_eval(expression, facts, oracle) == CelValue::Bool(
        pred_holds(prefix.predicate->0, facts),
    )
}

proof fn lemma_prefix_outcome(
    expression: CelExpr,
    preds: Seq<TaskCandidatePredicate>,
    prefix: TaskCandidatePrefix,
    facts: TaskPredicateFacts,
    oracle: spec_fn(CelExpr) -> CelValue,
)
    requires
        prefix.predicate is Some,
        preds.len() == translated_prefix_len(expression),
        preds.len() <= conjuncts_spec(expression).len(),
        prefix.complete == (preds.len() == conjuncts_spec(expression).len()),
        forall|j: int|
            0 <= j < preds.len() ==> exact(
                #[trigger] conjuncts_spec(expression)[j],
                preds[j],
                accumulated_non_null(conjuncts_spec(expression), j),
            ),
        pred_holds(prefix.predicate->0, facts) == all_hold(preds, facts),
    ensures
        prefix_outcome(expression, prefix, facts, oracle),
{
    let cs = conjuncts_spec(expression);
    let k = preds.len() as int;
    assert forall|m: int| 0 <= m < cs.len() implies (#[trigger] non_null_spec(cs[m]) matches Some(f)
        ==> (cel_eval(cs[m], facts, oracle) == CelValue::Bool(true) ==> field_value(facts, f)
        != CelValue::Null)) by {
        if non_null_spec(cs[m]) is Some {
            lemma_non_null_sound(cs[m], facts, oracle);
        }
    }
    lemma_prefix_meaning(cs, preds, facts, oracle);
    lemma_conjuncts_eval(expression, facts, oracle);
    if prefix.complete && !pred_holds(prefix.predicate->0, facts) {
        let j = choose|j: int| 0 <= j < k && cel_eval(#[trigger] cs[j], facts, oracle) != CelValue::Bool(true);
        let j2 = choose|j: int| 0 <= j < k && cel_eval(#[trigger] cs[j], facts, oracle) == CelValue::Bool(false);
        assert(cel_eval(cs[j2], facts, oracle) == CelValue::Bool(false));
    }
}

/// A conjunct that proves a field non-null does so whenever it holds.
pub proof fn lemma_non_null_sound(e: CelExpr, facts: TaskPredicateFacts, oracle: spec_fn(CelExpr) -> CelValue)
    requires
        non_null_spec(e) is Some,
    ensures
        cel_eval(e, facts, oracle) == CelValue::Bool(true) ==> field_value(facts, non_null_spec(e)->0)
            != CelValue::Null,
{
    lemma_operator_names_differ();
    match e {
        CelExpr::Call(func, args) => {
            lemma_literal_eval(args@[0], facts, oracle);
            lemma_literal_eval(args@[1], facts, oracle);
        },
        _ => {},
    }
}


// ---------------------------------------------------------------------------
// The candidate predicate of a query's filter groups.

/// What the candidate prefix of a filter says: its translated leading
/// conjuncts all evaluate to true.
pub open spec fn prefix_meaning(e: CelExpr, facts: TaskPredicateFacts, oracle: spec_fn(CelExpr) -> CelValue) -> bool {
    forall|j: int| 0 <= j < translated_prefix_len(e) ==> cel_eval(#[trigger] conjuncts_spec(e)[j], facts, oracle) == CelValue::Bool(true)
}

/// The filter groups as sequences.
pub open spec fn group_views(groups: Seq<Vec<CelExpr>>) -> Seq<Seq<CelExpr>> {
    groups.map_values(|g: Vec<CelExpr>| g@)
}

/// Whether every filter of a group is translated whole.
pub open spec fn group_complete(group: Seq<CelExpr>) -> bool {
    forall|f: int| 0 <= f < group.len() ==> translated_prefix_len(#[trigger] group[f]) == conjuncts_spec(group[f]).len()
}

/// How many groups, from `i` on, a candidate predicate covers: up to and
/// including the first group with a filter that is not translated whole.
pub open spec fn covered_groups(groups: Seq<Seq<CelExpr>>, i: int) -> int
    decreases groups.len() - i,
{
    if i < 0 || i >= groups.len() {
        groups.len() as int
    } else if !group_complete(groups[i]) {
        i + 1
    } else {
        covered_groups(groups, i + 1)
    }
}

/// What the candidate predicate of filter groups says: in each covered
/// group, the candidate prefix of some filter holds.
pub open spec fn candidate_meaning(
    groups: Seq<Seq<CelExpr>>,
    facts: TaskPredicateFacts,
    oracle: spec_fn(CelExpr) -> CelValue,
) -> bool {
    forall|g: int| 0 <= g < covered_groups(groups, 0) ==> #[trigger] group_has_prefix(groups[g], facts, oracle)
}

/// Whether the candidate prefix of some filter of a group holds.
pub open spec fn group_has_prefix(group: Seq<CelExpr>, facts: TaskPredicateFacts, oracle: spec_fn(CelExpr) -> CelValue) -> bool {
    exists|f: int| 0 <= f < group.len() && #[trigger] prefix_meaning(group[f], facts, oracle)
}

/// A task passes filter groups when, in every group, some filter evaluates
/// to true.
pub open spec fn groups_pass(groups: Seq<Seq<CelExpr>>, facts: TaskPredicateFacts, oracle: spec_fn(CelExpr) -> CelValue) -> bool {
    forall|g: int|
        #![trigger groups[g]]
        0 <= g < groups.len() ==> exists|f: int| 0 <= f < groups[g].len() && #[trigger] cel_eval(groups[g][f], facts, oracle) == CelValue::Bool(true)
}

proof fn lemma_covered_groups(groups: Seq<Seq<CelExpr>>, i: int)
    requires
        0 <= i <= groups.len(),
    ensures
        i <= covered_groups(groups, i) <= groups.len(),
        covered_groups(groups, i) > i ==> forall|g: int| i <= g < covered_groups(groups, i) - 1 ==> group_complete(#[trigger] groups[g]),
        covered_groups(groups, i) < groups.len() ==> !group_complete(groups[covered_groups(groups, i) - 1]),
        covered_groups(groups, i) == groups.len() && groups.len() > i ==> forall|g: int| i <= g < groups.len() - 1 ==> group_complete(#[trigger] groups[g]),
    decreases groups.len() - i,
{
    if i < groups.len() && group_complete(groups[i]) {
        lemma_covered_groups(groups, i + 1);
    }
}

/// The candidate predicate of a query's filter groups: the conjunction,
/// over the groups up to and including the first one with a filter that is
/// not translated whole, of the disjunction of the group's candidate
/// prefixes; `None` when that says nothing (the constant true).
pub fn task_candidate_predicate(groups: &Vec<Vec<CelExpr>>) -> (result: Option<TaskCandidatePredicate>)
    ensures
        result matches Some(p) ==> p != TaskCandidatePredicate::Constant(true),
        forall|facts: TaskPredicateFacts, oracle: spec_fn(CelExpr) -> CelValue|
            #![trigger candidate_meaning(group_views(groups@), facts, oracle)]
            match result {
                Some(p) => pred_holds(p, facts) == candidate_meaning(group_views(groups@), facts, oracle),
                None => candidate_meaning(group_views(groups@), facts, oracle),
            },
{
    let ghost gs = group_views(groups@);
    let ghost mut prefixes: Seq<Seq<TaskCandidatePredicate>> = seq![];
    let mut candidates: Vec<TaskCandidatePredicate> = Vec::new();
    let mut g: usize = 0;
    let mut stopped = false;
    while g < groups.len() && !stopped
        invariant
            gs == group_views(groups@),
            g <= groups.len(),
            candidates.len() == g,
            prefixes.len() == g,
            stopped ==> g >= 1 && !group_complete(gs[g - 1]),
            forall|h: int| 0 <= h < g - 1 ==> group_complete(#[trigger] gs[h]),
            !stopped ==> forall|h: int| 0 <= h < g ==> group_complete(#[trigger] gs[h]),
            forall|h: int| 0 <= h < g ==> (#[trigger] prefixes[h]).len() == gs[h].len(),
            forall|h: int, f: int, facts: TaskPredicateFacts, oracle: spec_fn(CelExpr) -> CelValue|
                0 <= h < g && 0 <= f < gs[h].len() ==> pred_holds(prefixes[h][f], facts) == #[trigger] prefix_meaning(
                    gs[h][f],
                    facts,
                    oracle,
                ),
            forall|h: int, facts: TaskPredicateFacts|
                0 <= h < g ==> #[trigger] pred_holds(candidates@[h], facts) == any_holds(prefixes[h], facts),
        decreases groups.len() - g,
    {
        let group = &groups[g];
        assert(gs[g as int] == group@);
        let mut preds: Vec<TaskCandidatePredicate> = Vec::new();
        let mut complete = true;
        let mut f: usize = 0;
        while f < group.len()
            invariant
                f <= group.len(),
                preds.len() == f,
                complete == (forall|j: int| 0 <= j < f ==> translated_prefix_len(#[trigger] group@[j]) == conjuncts_spec(group@[j]).len()),
                forall|j: int, facts: TaskPredicateFacts, oracle: spec_fn(CelExpr) -> CelValue|
                    0 <= j < f ==> pred_holds(preds@[j], facts) == #[trigger] prefix_meaning(group@[j], facts, oracle),
            decreases group.len() - f,
        {
            let prefix = task_candidate_prefix(&group[f]);
            proof {
                assert forall|facts: TaskPredicateFacts, oracle: spec_fn(CelExpr) -> CelValue|
                    pred_holds(prefix.predicate->0, facts) == #[trigger] prefix_meaning(group@[f as int], facts, oracle) by {
                    assert(prefix_outcome(group@[f as int], prefix, facts, oracle));
                }
            }
            complete = complete && prefix.complete;
            match prefix.predicate {
                Some(p) => preds.push(p),
                None => {},
            }
            f = f + 1;
        }
        let ghost ps = preds@;
        let group_candidate = match TaskCandidatePredicate::or(preds) {
            Some(c) => c,
            None => {
                return None;
            },
        };
        let ghost before = candidates@;
        let ghost old_prefixes = prefixes;
        candidates.push(group_candidate);
        proof {
            prefixes = prefixes.push(ps);
            assert(complete == group_complete(gs[g as int]));
            assert forall|h: int, facts: TaskPredicateFacts|
                0 <= h < g + 1 implies #[trigger] pred_holds(candidates@[h], facts) == any_holds(prefixes[h], facts) by {
                if h < g {
                    assert(candidates@[h] == before[h]);
                    assert(prefixes[h] == old_prefixes[h]);
                } else {
                    assert(combined_meaning(ps, false, facts) == pred_holds(group_candidate, facts));
                }
            }
            assert forall|h: int, f2: int, facts: TaskPredicateFacts, oracle: spec_fn(CelExpr) -> CelValue|
                0 <= h < g + 1 && 0 <= f2 < gs[h].len() implies pred_holds(prefixes[h][f2], facts) == #[trigger] prefix_meaning(
                    gs[h][f2],
                    facts,
                    oracle,
                ) by {
                if h < g {
                    assert(prefixes[h] == old_prefixes[h]);
                } else {
                    assert(prefixes[h] == ps);
                }
            }
        }
        if !complete {
            stopped = true;
        }
        g = g + 1;
    }
    let ghost cs = candidates@;
    proof {
        lemma_covered_groups(gs, 0);
        lemma_covered_prefix(gs, cs.len() as int, stopped);
    }
    let combined = TaskCandidatePredicate::and(candidates);
    proof {
        assert forall|facts: TaskPredicateFacts, oracle: spec_fn(CelExpr) -> CelValue|
            #![trigger candidate_meaning(gs, facts, oracle)]
            pred_holds(combined->0, facts) == candidate_meaning(gs, facts, oracle) by {
            assert(combined_meaning(cs, true, facts) == pred_holds(combined->0, facts));
            lemma_all_hold(cs, facts);
            assert forall|h: int| 0 <= h < cs.len() implies #[trigger] pred_holds(cs[h], facts) == group_has_prefix(gs[h], facts, oracle) by {
                lemma_any_holds(prefixes[h], facts);
                if pred_holds(cs[h], facts) {
                    let j = choose|j: int| 0 <= j < prefixes[h].len() && #[trigger] pred_holds(prefixes[h][j], facts);
                    assert(prefix_meaning(gs[h][j], facts, oracle));
                }
                if group_has_prefix(gs[h], facts, oracle) {
                    let j = choose|f: int| 0 <= f < gs[h].len() && #[trigger] prefix_meaning(gs[h][f], facts, oracle);
                    assert(pred_holds(prefixes[h][j], facts));
                }
            }
            if pred_holds(combined->0, facts) {
                assert forall|h: int| 0 <= h < covered_groups(gs, 0) implies #[trigger] group_has_prefix(gs[h], facts, oracle) by {
                    assert(pred_holds(cs[h], facts));
                }
            }
            if candidate_meaning(gs, facts, oracle) {
                assert forall|h: int| 0 <= h < cs.len() implies #[trigger] pred_holds(cs[h], facts) by {
                    assert(group_has_prefix(gs[h], facts, oracle));
                }
            }
        }
    }
    match combined {
        Some(TaskCandidatePredicate::Constant(true)) => None,
        other => other,
    }
}

proof fn lemma_covered_prefix(groups: Seq<Seq<CelExpr>>, n: int, stopped: bool)
    requires
        0 <= n <= groups.len(),
        stopped ==> n >= 1 && !group_complete(groups[n - 1]),
        forall|h: int| 0 <= h < n - 1 ==> group_complete(#[trigger] groups[h]),
        !stopped ==> n == groups.len() && forall|h: int| 0 <= h < n ==> group_complete(#[trigger] groups[h]),
    ensures
        covered_groups(groups, 0) == n,
{
    lemma_covered_from(groups, 0, n, stopped);
}

proof fn lemma_covered_from(groups: Seq<Seq<CelExpr>>, i: int, n: int, stopped: bool)
    requires
        0 <= i <= n <= groups.len(),
        stopped ==> n >= 1 && i <= n - 1 && !group_complete(groups[n - 1]),
        forall|h: int| i <= h < n - 1 ==> group_complete(#[trigger] groups[h]),
        !stopped ==> n == groups.len() && forall|h: int| i <= h < n ==> group_complete(#[trigger] groups[h]),
    ensures
        covered_groups(groups, i) == n,
    decreases groups.len() - i,
{
    if i < groups.len() {
        if stopped && i == n - 1 {
        } else {
            assert(group_complete(groups[i]));
            lemma_covered_from(groups, i + 1, n, stopped);
        }
    }
}

/// The candidate predicate never drops a task that passes the filter
/// groups: when every group has a filter that evaluates to true, the
/// candidate meaning holds.
pub proof fn lemma_candidate_sound(groups: Seq<Seq<CelExpr>>, facts: TaskPredicateFacts, oracle: spec_fn(CelExpr) -> CelValue)
    requires
        groups_pass(groups, facts, oracle),
    ensures
        candidate_meaning(groups, facts, oracle),
{
    lemma_covered_groups(groups, 0);
    assert forall|g: int| 0 <= g < covered_groups(groups, 0) implies group_has_prefix(groups[g], facts, oracle) by {
        assert(0 <= g < groups.len());
        let f = choose|f: int| 0 <= f < groups[g].len() && #[trigger] cel_eval(groups[g][f], facts, oracle) == CelValue::Bool(true);
        let e = groups[g][f];
        lemma_conjuncts_eval(e, facts, oracle);
        lemma_prefix_len_bounds(conjuncts_spec(e), 0);
        assert(prefix_meaning(e, facts, oracle));
    }
}

} // verus!
