use declarative_dataflow::{
    AttributeIndex, Filter, GlobalArrangements, LocalArrangements, NamedRelation, Plan, PlanError, Predicate,
    Project, PullLevel, Relation, Update, Value,
};
use std::collections::BTreeMap;

fn upd(tuple: Vec<Value>, time: u64, diff: i64) -> Update {
    Update { tuple, time, diff }
}

fn net(rel: &Relation, at: u64) -> BTreeMap<Vec<Value>, i64> {
    let mut m = BTreeMap::new();
    for u in rel.tuples.iter().filter(|u| u.time <= at) {
        *m.entry(u.tuple.clone()).or_insert(0) += u.diff;
    }
    m.retain(|_, d| *d != 0);
    m
}

fn indexes(pairs: Vec<Update>, names: Vec<Update>) -> GlobalArrangements {
    GlobalArrangements {
        indexes: vec![
            AttributeIndex { attribute: ":pair".to_string(), updates: pairs },
            AttributeIndex { attribute: ":name".to_string(), updates: names },
        ],
    }
}

fn plan() -> Plan {
    Plan::Pull(declarative_dataflow::Pull {
        paths: vec![PullLevel {
            variables: vec![2],
            plan: Box::new(Plan::Project(Project {
                variables: vec![2],
                plan: Box::new(Plan::Filter(Filter {
                    variables: [1, 2],
                    predicate: Predicate::NEQ,
                    plan: Box::new(Plan::MatchA(1, ":pair".to_string(), 2)),
                })),
            })),
            pull_attributes: vec![":name".to_string()],
            path_attributes: vec![],
        }],
    })
}

#[test]
fn incremental_log_matches_consolidated_log() {
    let e = |n| Value::Eid(n);
    let s = |x: &str| Value::String(x.to_string());
    // An incremental history: insertions, a retraction, a re-insertion.
    let log = indexes(
        vec![
            upd(vec![e(1), e(10)], 0, 1),
            upd(vec![e(2), e(10)], 1, 1),
            upd(vec![e(1), e(10)], 2, -1),
            upd(vec![e(3), e(3)], 2, 1),
            upd(vec![e(4), e(11)], 3, 2),
        ],
        vec![
            upd(vec![e(10), s("x")], 0, 1),
            upd(vec![e(11), s("y")], 1, 1),
            upd(vec![e(11), s("y")], 3, -1),
            upd(vec![e(11), s("z")], 3, 1),
        ],
    );
    // The same data consolidated at time 3.
    let settled = indexes(
        vec![upd(vec![e(2), e(10)], 0, 1), upd(vec![e(3), e(3)], 0, 1), upd(vec![e(4), e(11)], 0, 2)],
        vec![upd(vec![e(10), s("x")], 0, 1), upd(vec![e(11), s("z")], 0, 1)],
    );
    let none = LocalArrangements { relations: vec![] };
    let a = plan().implement(&log, &none).unwrap();
    let b = plan().implement(&settled, &none).unwrap();
    assert_eq!(net(&a, 3), net(&b, 3));
    let expected: BTreeMap<Vec<Value>, i64> = vec![
        (vec![e(10), Value::Attribute(":name".to_string()), s("x")], 1),
        (vec![e(11), Value::Attribute(":name".to_string()), s("z")], 2),
    ]
    .into_iter()
    .collect();
    assert_eq!(net(&a, 3), expected);
}

#[test]
fn rule_expr_reads_local_arrangement() {
    let stored = Relation { symbols: vec![7, 8], tuples: vec![upd(vec![Value::Number(1), Value::Number(2)], 0, 1)] };
    let local = LocalArrangements { relations: vec![NamedRelation { name: "edge".to_string(), relation: stored }] };
    let global = GlobalArrangements { indexes: vec![] };
    let rel = Plan::RuleExpr(vec![1, 2], "edge".to_string()).implement(&global, &local).unwrap();
    assert_eq!(rel.symbols, vec![1, 2]);
    assert_eq!(rel.tuples, vec![upd(vec![Value::Number(1), Value::Number(2)], 0, 1)]);
    assert_eq!(
        Plan::RuleExpr(vec![1], "edge".to_string()).implement(&global, &local).unwrap_err(),
        PlanError::ArityMismatch
    );
    assert_eq!(
        Plan::RuleExpr(vec![1, 1], "edge".to_string()).implement(&global, &local).unwrap_err(),
        PlanError::DuplicateSymbol(1)
    );
    assert_eq!(
        Plan::RuleExpr(vec![1, 2], "path".to_string()).implement(&global, &local).unwrap_err(),
        PlanError::UnknownRule("path".to_string())
    );
}
