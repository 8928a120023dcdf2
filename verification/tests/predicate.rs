use plumb_workspace::filters::compile_search_filter;
use plumb_workspace::predicate::{
    task_candidate_predicate, task_candidate_prefix, CelExpr, TaskCandidatePredicate, TaskCandidatePrefix, TaskPredicateField,
    TaskPredicateOp, TaskPredicateValue,
};
use plumb_workspace::workflow::TaskWorkflowState;

fn expression(source: &str) -> CelExpr {
    compile_search_filter(source).unwrap()
}

fn prefix(source: &str) -> TaskCandidatePrefix {
    task_candidate_prefix(&expression(source))
}

#[test]
fn extracts_total_leading_conjuncts_and_stops_at_the_first_residual() {
    let planned = prefix("state == 'done' && priority != null && priority > 2 && size(depends_on) > 0");
    assert!(!planned.complete);
    assert!(matches!(
        planned.predicate,
        Some(TaskCandidatePredicate::And(ref predicates)) if predicates.len() == 3
    ));
}

#[test]
fn rejects_unguarded_nullable_ordering_without_hiding_later_predicates() {
    let planned = prefix("priority > 2 && state == 'done'");
    assert!(!planned.complete);
    assert_eq!(planned.predicate, Some(TaskCandidatePredicate::Constant(true)));
}

#[test]
fn translates_exact_or_only_when_both_branches_are_supported() {
    assert!(prefix("state == 'done' || title == 'Done'").complete);
    assert!(!prefix("state == 'done' || title.startsWith('D')").complete);
}

#[test]
fn translates_null_checks_and_non_dependency_workflow_states() {
    assert!(prefix("due == null && state == 'waiting'").complete);
    assert!(prefix("id != null && id == 'task'").complete);
    assert!(prefix("priority != null && priority < -2").complete);
    assert!(!prefix("state == 'ready'").complete);
    assert!(!prefix("state == 'blocked'").complete);
}

#[test]
fn prefix_stops_at_an_unguarded_ordering() {
    let planned = prefix("state != 'canceled' && 3 > priority && title == 'x'");
    assert!(!planned.complete);
    assert_eq!(
        planned.predicate,
        Some(TaskCandidatePredicate::Not(Box::new(TaskCandidatePredicate::State(TaskWorkflowState::Canceled))))
    );
}

#[test]
fn guarded_ordering_is_reversed_when_the_literal_comes_first() {
    let planned = prefix("priority == 1 && 3 > priority");
    assert!(planned.complete);
    assert_eq!(
        planned.predicate,
        Some(TaskCandidatePredicate::And(vec![
            TaskCandidatePredicate::Compare {
                field: TaskPredicateField::Priority,
                op: TaskPredicateOp::Equal,
                value: TaskPredicateValue::Integer(1),
            },
            TaskCandidatePredicate::Compare {
                field: TaskPredicateField::Priority,
                op: TaskPredicateOp::Less,
                value: TaskPredicateValue::Integer(3),
            },
        ]))
    );
}

#[test]
fn constant_conjuncts_collapse() {
    assert_eq!(prefix("true").predicate, Some(TaskCandidatePredicate::Constant(true)));
    assert_eq!(prefix("false && due == null").predicate, Some(TaskCandidatePredicate::Constant(false)));
    assert_eq!(prefix("true && due == null").predicate, Some(TaskCandidatePredicate::Compare {
        field: TaskPredicateField::Due,
        op: TaskPredicateOp::Equal,
        value: TaskPredicateValue::Null,
    }));
}

fn groups(sources: &[&[&str]]) -> Vec<Vec<CelExpr>> {
    sources
        .iter()
        .map(|group| group.iter().map(|source| expression(source)).collect())
        .collect()
}

#[test]
fn candidate_predicate_of_leading_and_unsafe_orders() {
    assert!(task_candidate_predicate(&groups(&[&["state == 'done' && priority > 0"]])).is_some());
    assert!(task_candidate_predicate(&groups(&[&["priority > 0 && state == 'done'"]])).is_none());
    assert!(task_candidate_predicate(&vec![]).is_none());
}

#[test]
fn candidate_predicate_ors_within_groups_and_stops_after_an_incomplete_group() {
    let candidate = task_candidate_predicate(&groups(&[
        &["state == 'done'", "priority != null && priority >= 20"],
        &["title.contains('Dep')"],
        &["state == 'canceled'"],
    ]))
    .unwrap();
    match candidate {
        TaskCandidatePredicate::Or(branches) => {
            assert_eq!(branches.len(), 2);
            assert_eq!(branches[0], TaskCandidatePredicate::State(TaskWorkflowState::Done));
        },
        other => panic!("unexpected {other:?}"),
    }
    let both = task_candidate_predicate(&groups(&[&["state == 'done'"], &["state == 'canceled'"]])).unwrap();
    assert!(matches!(both, TaskCandidatePredicate::And(ref parts) if parts.len() == 2));
}
