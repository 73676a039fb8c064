use declarative_dataflow::{
    LocalArrangements,
    AttributeIndex, Filter, GlobalArrangements, Plan, PlanError, Predicate, Relation, Update, Value,
};

fn no_rules() -> LocalArrangements {
    LocalArrangements { relations: vec![] }
}

fn upd(tuple: Vec<Value>, time: u64, diff: i64) -> Update {
    Update { tuple, time, diff }
}

fn pairs() -> GlobalArrangements {
    GlobalArrangements {
        indexes: vec![AttributeIndex {
            attribute: ":age".to_string(),
            updates: vec![
                upd(vec![Value::Number(1), Value::Number(2)], 0, 1),
                upd(vec![Value::Number(3), Value::Number(3)], 1, 2),
                upd(vec![Value::Number(5), Value::Number(4)], 2, -1),
            ],
        }],
    }
}

fn filtered(p: Predicate) -> Relation {
    let plan = Plan::Filter(Filter {
        variables: [1, 2],
        predicate: p,
        plan: Box::new(Plan::MatchA(1, ":age".to_string(), 2)),
    });
    plan.implement(&pairs(), &no_rules()).unwrap()
}

fn firsts(rel: &Relation) -> Vec<Value> {
    rel.tuples.iter().map(|u| u.tuple[0].clone()).collect()
}

#[test]
fn filter_lt() {
    let rel = filtered(Predicate::LT);
    assert_eq!(rel.symbols, vec![1, 2]);
    assert_eq!(rel.tuples, vec![upd(vec![Value::Number(1), Value::Number(2)], 0, 1)]);
}

#[test]
fn filter_each_predicate() {
    assert_eq!(firsts(&filtered(Predicate::GT)), vec![Value::Number(5)]);
    assert_eq!(firsts(&filtered(Predicate::LTE)), vec![Value::Number(1), Value::Number(3)]);
    assert_eq!(firsts(&filtered(Predicate::GTE)), vec![Value::Number(3), Value::Number(5)]);
    assert_eq!(firsts(&filtered(Predicate::EQ)), vec![Value::Number(3)]);
    assert_eq!(firsts(&filtered(Predicate::NEQ)), vec![Value::Number(1), Value::Number(5)]);
}

#[test]
fn filter_keeps_times_and_multiplicities() {
    let rel = filtered(Predicate::GTE);
    assert_eq!(rel.tuples[0].time, 1);
    assert_eq!(rel.tuples[0].diff, 2);
    assert_eq!(rel.tuples[1].time, 2);
    assert_eq!(rel.tuples[1].diff, -1);
}

#[test]
fn filter_eq_and_neq_split_the_input() {
    let eq = filtered(Predicate::EQ);
    let neq = filtered(Predicate::NEQ);
    let mut all: Vec<Update> = eq.tuples.clone();
    all.extend(neq.tuples.clone());
    all.sort_by(|a, b| a.tuple.cmp(&b.tuple));
    let mut input = pairs().indexes[0].updates.clone();
    input.sort_by(|a, b| a.tuple.cmp(&b.tuple));
    assert_eq!(all, input);
}

#[test]
fn filter_same_variable_twice() {
    let plan = |p| Plan::Filter(Filter {
        variables: [1, 1],
        predicate: p,
        plan: Box::new(Plan::MatchA(1, ":age".to_string(), 2)),
    });
    assert_eq!(plan(Predicate::EQ).implement(&pairs(), &no_rules()).unwrap().tuples.len(), 3);
    assert_eq!(plan(Predicate::LTE).implement(&pairs(), &no_rules()).unwrap().tuples.len(), 3);
    assert_eq!(plan(Predicate::LT).implement(&pairs(), &no_rules()).unwrap().tuples.len(), 0);
    assert_eq!(plan(Predicate::NEQ).implement(&pairs(), &no_rules()).unwrap().tuples.len(), 0);
}

#[test]
fn filter_unbound_symbol() {
    let plan = Plan::Filter(Filter {
        variables: [1, 7],
        predicate: Predicate::LT,
        plan: Box::new(Plan::MatchA(1, ":age".to_string(), 2)),
    });
    assert_eq!(plan.implement(&pairs(), &no_rules()).unwrap_err(), PlanError::UnboundSymbol(7));
}

#[test]
fn predicate_orders_values() {
    let a = Value::String("apple".to_string());
    let b = Value::String("apricot".to_string());
    assert!(Predicate::LT.holds(&a, &b));
    assert!(!Predicate::GT.holds(&a, &b));
    assert!(Predicate::LT.holds(&Value::Eid(9), &Value::Attribute("a".to_string())));
    assert!(Predicate::LT.holds(&Value::Bool(false), &Value::Bool(true)));
    assert!(Predicate::LT.holds(&Value::Number(-3), &Value::Number(2)));
    assert!(Predicate::EQ.holds(&a, &a.clone()));
    assert_eq!(Value::String("ab".to_string()).compare(&Value::String("a".to_string())), 1);
    assert_eq!(Value::Instant(4).compare(&Value::Instant(4)), 0);
}
