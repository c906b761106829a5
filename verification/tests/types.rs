use sat_solver::{AllClauses, BoolValue, CAllClauses, CClause, Lit, Var, Watcher};

#[test]
fn literal_encoding() {
    let a = Lit::from(1);
    assert_eq!(a.get_var(), Var(0));
    assert!(a.is_pos());
    assert!(!a.is_neg());
    assert_eq!(a.index(), 0);
    let b = Lit::from(-1);
    assert_eq!(b.get_var(), Var(0));
    assert!(b.is_neg());
    assert_eq!(b.index(), 1);
    let c = Lit::from(7);
    assert_eq!(c.get_var(), Var(6));
    assert_eq!(c.index(), 12);
    assert_eq!(Lit::from(-7).index(), 13);
    assert_eq!(Lit::from_code(13), Lit::from(-7));
    assert_eq!(Lit::from(-7).to_code(), 13);
}

#[test]
fn literal_negation() {
    assert_eq!(!Lit::from(3), Lit::from(-3));
    assert_eq!(!Lit::from(-3), Lit::from(3));
    assert_eq!(!!Lit::from(5), Lit::from(5));
    assert_ne!(!Lit::from(5), Lit::from(5));
}

#[test]
fn literal_limits() {
    assert_eq!(Lit::from(i32::MAX).get_var(), Var(0x7fff_fffe));
    assert_eq!(Lit::from(i32::MIN).get_var(), Var(0x7fff_ffff));
    assert!(Lit::from(i32::MIN).is_neg());
}

#[test]
fn variable_from_index() {
    assert_eq!(Var::from_id(0), Var(0));
    assert_eq!(Var::from_id(41), Var(41));
}

#[test]
fn truth_values() {
    assert_eq!(BoolValue::from(0), BoolValue::True);
    assert_eq!(BoolValue::from(1), BoolValue::False);
    assert_eq!(BoolValue::from(2), BoolValue::Undefined);
    assert_eq!(BoolValue::from(-1), BoolValue::Undefined);
    assert_eq!(!BoolValue::True, BoolValue::False);
    assert_eq!(!BoolValue::False, BoolValue::True);
    assert_eq!(!BoolValue::Undefined, BoolValue::Undefined);
    assert_eq!(BoolValue::from_polarity(true), BoolValue::False);
    assert_eq!(BoolValue::from_polarity(false), BoolValue::True);
}

#[test]
fn clause_store() {
    let mut store = AllClauses::default();
    assert!(store.is_empty());
    assert_eq!(store.len(), 0);
    store.push(vec![Lit::from(1), Lit::from(-2)]);
    store.push(vec![Lit::from(2)]);
    assert!(!store.is_empty());
    assert_eq!(store.len(), 2);
    assert_eq!(store.clauses[0], vec![Lit::from(1), Lit::from(-2)]);
    assert_eq!(store.clauses[1], vec![Lit::from(2)]);
}

#[test]
fn borrowed_clauses() {
    let lits = vec![Lit::from(-1), Lit::from(2)];
    let clause = CClause::new(&lits, Some(Var(1)));
    assert_eq!(clause.pos, Some(Var(1)));
    assert_eq!(clause.get_pos(), Some(Var(1)));
    assert_eq!(clause.len(), 2);
    assert_eq!(clause.get(1), Lit::from(2));
    let seen: Vec<Lit> = clause.iter().copied().collect();
    assert_eq!(seen, lits);
    let all = CAllClauses::new(vec![clause.clone()]);
    assert_eq!(all.clauses.len(), 1);
    assert_eq!(all.clauses[0], clause);
}

#[test]
fn watcher_accepts_clauses() {
    let mut watcher = Watcher::new(2);
    watcher.add(Lit::from(1), 0);
    watcher.add(Lit::from(-2), 0);
    watcher.add(Lit::from(1), 1);
}
