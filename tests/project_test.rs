use declarative_dataflow::{
    LocalArrangements,
    AttributeIndex, GlobalArrangements, Plan, PlanError, Project, Relation, Update, Value,
};

fn no_rules() -> LocalArrangements {
    LocalArrangements { relations: vec![] }
}

fn upd(tuple: Vec<Value>, time: u64, diff: i64) -> Update {
    Update { tuple, time, diff }
}

fn names() -> GlobalArrangements {
    GlobalArrangements {
        indexes: vec![AttributeIndex {
            attribute: ":name".to_string(),
            updates: vec![
                upd(vec![Value::Eid(1), Value::String("ann".to_string())], 0, 1),
                upd(vec![Value::Eid(2), Value::String("bob".to_string())], 1, 3),
                upd(vec![Value::Eid(3), Value::String("ann".to_string())], 2, 1),
            ],
        }],
    }
}

fn projected(vars: Vec<u32>) -> Result<Relation, PlanError> {
    let plan = Plan::Project(Project { variables: vars, plan: Box::new(Plan::MatchA(1, ":name".to_string(), 2)) });
    plan.implement(&names(), &no_rules())
}

#[test]
fn project_drops_columns() {
    let rel = projected(vec![2]).unwrap();
    assert_eq!(rel.symbols, vec![2]);
    assert_eq!(
        rel.tuples,
        vec![
            upd(vec![Value::String("ann".to_string())], 0, 1),
            upd(vec![Value::String("bob".to_string())], 1, 3),
            upd(vec![Value::String("ann".to_string())], 2, 1),
        ]
    );
    let ann: i64 = rel.tuples.iter().filter(|u| u.tuple[0] == Value::String("ann".to_string())).map(|u| u.diff).sum();
    assert_eq!(ann, 2);
}

#[test]
fn project_reorders_columns() {
    let rel = projected(vec![2, 1]).unwrap();
    assert_eq!(rel.symbols, vec![2, 1]);
    assert_eq!(rel.tuples[1], upd(vec![Value::String("bob".to_string()), Value::Eid(2)], 1, 3));
}

#[test]
fn project_onto_own_symbols_is_identity() {
    let rel = projected(vec![1, 2]).unwrap();
    assert_eq!(rel.tuples, names().indexes[0].updates);
}

#[test]
fn project_unbound_symbol() {
    assert_eq!(projected(vec![2, 5, 6]).unwrap_err(), PlanError::UnboundSymbol(5));
}

#[test]
fn project_repeated_symbol() {
    assert_eq!(projected(vec![2, 1, 2]).unwrap_err(), PlanError::DuplicateSymbol(2));
}

#[test]
fn tuples_by_symbols_keys_rows() {
    let rel = projected(vec![1, 2]).unwrap();
    let keyed = rel.tuples_by_symbols(&vec![2]).unwrap();
    assert_eq!(keyed.len(), 3);
    assert_eq!(keyed[1].0, vec![Value::String("bob".to_string())]);
    assert_eq!(keyed[1].1, rel.tuples[1]);
    assert_eq!(rel.tuples_by_symbols(&vec![4]).unwrap_err(), 4);
}
