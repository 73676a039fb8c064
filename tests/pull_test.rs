use declarative_dataflow::{
    LocalArrangements,
    interleave, AttributeIndex, GlobalArrangements, Plan, PlanError, Pull, PullLevel, Update, Value,
};

fn no_rules() -> LocalArrangements {
    LocalArrangements { relations: vec![] }
}

fn upd(tuple: Vec<Value>, time: u64, diff: i64) -> Update {
    Update { tuple, time, diff }
}

fn attr(s: &str) -> Value {
    Value::Attribute(s.to_string())
}

fn db() -> GlobalArrangements {
    GlobalArrangements {
        indexes: vec![
            AttributeIndex {
                attribute: ":parent/child".to_string(),
                updates: vec![
                    upd(vec![Value::Eid(1), Value::Eid(10)], 0, 1),
                    upd(vec![Value::Eid(2), Value::Eid(10)], 1, 2),
                    upd(vec![Value::Eid(3), Value::Eid(11)], 0, 1),
                ],
            },
            AttributeIndex {
                attribute: ":child/name".to_string(),
                updates: vec![
                    upd(vec![Value::Eid(10), Value::String("a".to_string())], 0, 1),
                    upd(vec![Value::Eid(10), Value::String("b".to_string())], 3, 3),
                    upd(vec![Value::Eid(10), Value::String("c".to_string())], 0, -1),
                    upd(vec![Value::Eid(12), Value::String("z".to_string())], 0, 1),
                ],
            },
            AttributeIndex {
                attribute: ":child/age".to_string(),
                updates: vec![upd(vec![Value::Eid(11), Value::Number(7)], 0, 1)],
            },
            AttributeIndex {
                attribute: ":big".to_string(),
                updates: vec![upd(vec![Value::Eid(10), Value::Number(0)], 0, i64::MAX)],
            },
        ],
    }
}

fn level(pull: Vec<&str>, path: Vec<&str>) -> PullLevel {
    PullLevel {
        variables: vec![1, 2],
        plan: Box::new(Plan::MatchA(1, ":parent/child".to_string(), 2)),
        pull_attributes: pull.into_iter().map(|s| s.to_string()).collect(),
        path_attributes: path.into_iter().map(|s| s.to_string()).collect(),
    }
}

#[test]
fn interleave_empty_sides() {
    let vs = vec![Value::Eid(1), Value::Eid(2)];
    assert_eq!(interleave(&vec![], &vec![":a".to_string()]), vec![]);
    assert_eq!(interleave(&vs, &vec![]), vs);
}

#[test]
fn interleave_alternates() {
    let vs = vec![Value::Eid(1), Value::Eid(2)];
    let cs = vec![":parent/child".to_string()];
    assert_eq!(interleave(&vs, &cs), vec![Value::Eid(1), attr(":parent/child"), Value::Eid(2)]);
    let cs2 = vec![":x".to_string(), ":y".to_string()];
    assert_eq!(interleave(&vs, &cs2), vec![Value::Eid(1), attr(":x"), Value::Eid(2), attr(":y")]);
}

#[test]
fn interleave_longer_constants() {
    let vs = vec![Value::Eid(1)];
    let cs = vec![":x".to_string(), ":y".to_string(), ":z".to_string()];
    assert_eq!(interleave(&vs, &cs), vec![Value::Eid(1), attr(":x"), attr(":y"), attr(":z")]);
}

#[test]
fn pull_level_fan_out() {
    let rel = Plan::PullLevel(level(vec![":child/name"], vec![])).implement(&db(), &no_rules()).unwrap();
    assert!(rel.symbols.is_empty());
    // Entity 10 ends two paths and has three names: six rows.
    assert_eq!(rel.tuples.len(), 6);
    assert_eq!(
        rel.tuples[0],
        upd(vec![Value::Eid(1), Value::Eid(10), attr(":child/name"), Value::String("a".to_string())], 0, 1)
    );
    assert_eq!(
        rel.tuples[4],
        upd(vec![Value::Eid(2), Value::Eid(10), attr(":child/name"), Value::String("b".to_string())], 3, 6)
    );
    assert_eq!(
        rel.tuples[5],
        upd(vec![Value::Eid(2), Value::Eid(10), attr(":child/name"), Value::String("c".to_string())], 1, -2)
    );
}

#[test]
fn pull_level_with_path_labels() {
    let rel = Plan::PullLevel(level(vec![":child/age"], vec![":parent/child"])).implement(&db(), &no_rules()).unwrap();
    assert_eq!(
        rel.tuples,
        vec![upd(
            vec![Value::Eid(3), attr(":parent/child"), Value::Eid(11), attr(":child/age"), Value::Number(7)],
            0,
            1
        )]
    );
}

#[test]
fn pull_level_attributes_concatenate() {
    let rel = Plan::PullLevel(level(vec![":child/age", ":child/name"], vec![])).implement(&db(), &no_rules()).unwrap();
    assert_eq!(rel.tuples.len(), 7);
    assert_eq!(rel.tuples[0].tuple[2], attr(":child/age"));
    assert!(rel.tuples[1..].iter().all(|u| u.tuple[2] == attr(":child/name")));
}

#[test]
fn pull_level_only_paths() {
    let plain = Plan::PullLevel(level(vec![], vec![])).implement(&db(), &no_rules()).unwrap();
    assert_eq!(plain.symbols, vec![1, 2]);
    assert_eq!(plain.tuples, db().indexes[0].updates);
    let labelled = Plan::PullLevel(level(vec![], vec![":parent/child"])).implement(&db(), &no_rules()).unwrap();
    assert!(labelled.symbols.is_empty());
    assert_eq!(labelled.tuples[2], upd(vec![Value::Eid(3), attr(":parent/child"), Value::Eid(11)], 0, 1));
}

#[test]
fn pull_level_unknown_attribute() {
    let err = Plan::PullLevel(level(vec![":child/name", ":nope"], vec![])).implement(&db(), &no_rules()).unwrap_err();
    assert_eq!(err, PlanError::UnknownAttribute(":nope".to_string()));
}

#[test]
fn pull_level_overflow() {
    let err = Plan::PullLevel(level(vec![":big"], vec![])).implement(&db(), &no_rules()).unwrap_err();
    assert_eq!(err, PlanError::Overflow);
}

#[test]
fn pull_concatenates_paths() {
    let plan = Plan::Pull(Pull { paths: vec![level(vec![":child/age"], vec![]), level(vec![], vec![":parent/child"])] });
    let rel = plan.implement(&db(), &no_rules()).unwrap();
    assert!(rel.symbols.is_empty());
    assert_eq!(rel.tuples.len(), 4);
    assert_eq!(rel.tuples[0].tuple, vec![Value::Eid(3), Value::Eid(11), attr(":child/age"), Value::Number(7)]);
    assert_eq!(rel.tuples[1].tuple, vec![Value::Eid(1), attr(":parent/child"), Value::Eid(10)]);
}

#[test]
fn pull_reports_first_failing_path() {
    let plan = Plan::Pull(Pull { paths: vec![level(vec![":child/age"], vec![]), level(vec![":gone"], vec![])] });
    assert_eq!(plan.implement(&db(), &no_rules()).unwrap_err(), PlanError::UnknownAttribute(":gone".to_string()));
}
