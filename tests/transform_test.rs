use declarative_dataflow::{
    LocalArrangements,
    AttributeIndex, Function, GlobalArrangements, Plan, PlanError, Transform, Update, Value,
};

fn no_rules() -> LocalArrangements {
    LocalArrangements { relations: vec![] }
}

fn upd(tuple: Vec<Value>, time: u64, diff: i64) -> Update {
    Update { tuple, time, diff }
}

fn timestamps() -> GlobalArrangements {
    GlobalArrangements {
        indexes: vec![AttributeIndex {
            attribute: ":timestamp".to_string(),
            updates: vec![
                upd(vec![Value::Eid(1), Value::Instant(1540048515500)], 0, 1),
                upd(vec![Value::Eid(2), Value::Instant(1540048515616)], 0, 1),
            ],
        }],
    }
}

#[test]
fn truncate() {
    // [:find ?h :where [?e :timestamp ?t] [(interval ?t) ?h]]
    let (e, t, h) = (1, 2, 3);
    let plan = Plan::Transform(Transform {
        variables: vec![t],
        result_sym: h,
        plan: Box::new(Plan::MatchA(e, ":timestamp".to_string(), t)),
        function: Function::TRUNCATE,
    });
    let rel = plan.implement(&timestamps(), &no_rules()).unwrap();
    assert_eq!(rel.symbols, vec![e, t, h]);
    let results: Vec<(Vec<Value>, i64)> = rel.tuples.iter().map(|u| (u.tuple.clone(), u.diff)).collect();
    assert_eq!(results[0], (vec![Value::Eid(1), Value::Instant(1540048515500), Value::Instant(1540047600000)], 1));
    assert_eq!(results[1], (vec![Value::Eid(2), Value::Instant(1540048515616), Value::Instant(1540047600000)], 1));
    assert_eq!(results.len(), 2);
}

#[test]
fn truncate_keeps_exact_hours_and_other_values() {
    assert_eq!(declarative_dataflow::transform::truncate(&Value::Instant(7200000)), Value::Instant(7200000));
    assert_eq!(declarative_dataflow::transform::truncate(&Value::Instant(7199999)), Value::Instant(3600000));
    assert_eq!(declarative_dataflow::transform::truncate(&Value::Number(5)), Value::Number(5));
}

#[test]
fn transform_rejects_bound_result_symbol() {
    let plan = Plan::Transform(Transform {
        variables: vec![2],
        result_sym: 1,
        plan: Box::new(Plan::MatchA(1, ":timestamp".to_string(), 2)),
        function: Function::TRUNCATE,
    });
    assert_eq!(plan.implement(&timestamps(), &no_rules()).unwrap_err(), PlanError::DuplicateSymbol(1));
}

#[test]
fn transform_rejects_unbound_argument() {
    let plan = Plan::Transform(Transform {
        variables: vec![9],
        result_sym: 3,
        plan: Box::new(Plan::MatchA(1, ":timestamp".to_string(), 2)),
        function: Function::TRUNCATE,
    });
    assert_eq!(plan.implement(&timestamps(), &no_rules()).unwrap_err(), PlanError::UnboundSymbol(9));
}

#[test]
fn transform_rejects_missing_argument() {
    let plan = Plan::Transform(Transform {
        variables: vec![],
        result_sym: 3,
        plan: Box::new(Plan::MatchA(1, ":timestamp".to_string(), 2)),
        function: Function::TRUNCATE,
    });
    assert_eq!(plan.implement(&timestamps(), &no_rules()).unwrap_err(), PlanError::MissingArgument);
}

#[test]
fn match_unknown_attribute_fails() {
    let plan = Plan::MatchA(1, ":missing".to_string(), 2);
    assert_eq!(plan.implement(&timestamps(), &no_rules()).unwrap_err(), PlanError::UnknownAttribute(":missing".to_string()));
}

#[test]
fn match_same_symbol_twice_fails() {
    let plan = Plan::MatchA(1, ":timestamp".to_string(), 1);
    assert_eq!(plan.implement(&timestamps(), &no_rules()).unwrap_err(), PlanError::DuplicateSymbol(1));
}
