use sat_solver::{AllClauses, BoolValue, Heap, Lit, Var, WorkingModel};

fn clause(lits: &[i32]) -> Vec<Lit> {
    lits.iter().map(|&x| Lit::from(x)).collect()
}

#[test]
fn fresh_model_is_undefined() {
    let model = WorkingModel::new(3);
    assert_eq!(
        model.get_assigned(),
        &vec![BoolValue::Undefined, BoolValue::Undefined, BoolValue::Undefined]
    );
    assert_eq!(model.level(Var(1)), 0);
    assert_eq!(model.next_unassigned(), Some(Var(0)));
}

#[test]
fn assignment_and_evaluation() {
    let mut model = WorkingModel::new(3);
    model.assign(Var(0), BoolValue::True, 0);
    model.assign(Var(1), BoolValue::False, 2);
    assert_eq!(model.state_var(Var(0)), BoolValue::True);
    assert_eq!(model.state_var(Var(1)), BoolValue::False);
    assert_eq!(model.state_var(Var(2)), BoolValue::Undefined);
    assert_eq!(model.level(Var(1)), 2);
    assert_eq!(model.eval(Lit::from(1)), BoolValue::True);
    assert_eq!(model.eval(Lit::from(-1)), BoolValue::False);
    assert_eq!(model.eval(Lit::from(2)), BoolValue::False);
    assert_eq!(model.eval(Lit::from(-2)), BoolValue::True);
    assert_eq!(model.eval(Lit::from(3)), BoolValue::Undefined);
    assert_eq!(model.eval(Lit::from(-3)), BoolValue::Undefined);
    assert_eq!(model.next_unassigned(), Some(Var(2)));
    model.assign(Var(2), BoolValue::True, 2);
    assert_eq!(model.next_unassigned(), None);
}

#[test]
fn clause_states() {
    let mut model = WorkingModel::new(3);
    model.assign(Var(0), BoolValue::True, 0);
    model.assign(Var(1), BoolValue::False, 0);
    assert_eq!(model.state_clause(&clause(&[-1, 2, 3])), BoolValue::Undefined);
    assert_eq!(model.state_clause(&clause(&[-1, 2])), BoolValue::False);
    assert_eq!(model.state_clause(&clause(&[3, 1])), BoolValue::True);
    assert_eq!(model.state_clause(&clause(&[])), BoolValue::False);
}

#[test]
fn formula_states_and_conflict() {
    let mut model = WorkingModel::new(3);
    model.assign(Var(0), BoolValue::True, 0);
    model.assign(Var(1), BoolValue::False, 0);
    let mut formula = AllClauses::default();
    assert_eq!(model.state_formula(&formula), BoolValue::True);
    formula.push(clause(&[1, 3]));
    assert_eq!(model.state_formula(&formula), BoolValue::True);
    formula.push(clause(&[2, 3]));
    assert_eq!(model.state_formula(&formula), BoolValue::Undefined);
    assert_eq!(model.conflicting(&formula), None);
    formula.push(clause(&[-1, 2]));
    formula.push(clause(&[2]));
    assert_eq!(model.state_formula(&formula), BoolValue::False);
    assert_eq!(model.conflicting(&formula), Some(clause(&[-1, 2])));
}

#[test]
fn unit_clauses() {
    let mut model = WorkingModel::new(4);
    model.assign(Var(0), BoolValue::True, 0);
    model.assign(Var(1), BoolValue::False, 0);
    assert_eq!(model.is_unit_clause(&clause(&[-1, 2, 3])), Some(Lit::from(3)));
    assert_eq!(model.is_unit_clause(&clause(&[-1, -3, 2])), Some(Lit::from(-3)));
    assert_eq!(model.is_unit_clause(&clause(&[-1, 3, 4])), None);
    assert_eq!(model.is_unit_clause(&clause(&[3, 3])), None);
    assert_eq!(model.is_unit_clause(&clause(&[1, 3])), None);
    assert_eq!(model.is_unit_clause(&clause(&[-1, 2])), None);
    assert_eq!(model.is_unit_clause(&clause(&[])), None);
}

#[test]
fn conflict_analysis_follows_reasons_to_their_roots() {
    let mut model = WorkingModel::new(4);
    // 1 and 2 are decided, 3 follows from (-1 -2 3), 4 follows from (-3 4)
    model.assign(Var(0), BoolValue::True, 1);
    model.assign(Var(1), BoolValue::True, 2);
    model.assign(Var(2), BoolValue::True, 2);
    model.add_implications(Var(2), &clause(&[-1, -2, 3]));
    model.assign(Var(3), BoolValue::True, 2);
    model.add_implications(Var(3), &clause(&[-3, 4]));
    // the clause (-4 -2) is false
    let learnt = model.find_conflict(&clause(&[-4, -2]));
    assert_eq!(learnt, clause(&[-2, -1]));
    assert_eq!(model.state_clause(&learnt), BoolValue::False);
    // a clause over decisions alone comes back as it is, each literal once
    assert_eq!(model.find_conflict(&clause(&[-1, -2, -1])), clause(&[-1, -2]));
}

#[test]
fn backtracking_takes_back_higher_levels() {
    let mut model = WorkingModel::new(3);
    model.assign(Var(0), BoolValue::True, 0);
    model.assign(Var(1), BoolValue::False, 1);
    model.assign(Var(2), BoolValue::True, 2);
    model.add_implications(Var(2), &clause(&[2, 3]));
    model.backtracking(1);
    assert_eq!(
        model.get_assigned(),
        &vec![BoolValue::True, BoolValue::False, BoolValue::Undefined]
    );
    assert_eq!(model.level(Var(2)), 0);
    assert_eq!(model.level(Var(1)), 1);
    let once = model.get_assigned().clone();
    model.backtracking(1);
    assert_eq!(model.get_assigned(), &once);
    model.backtracking(0);
    assert_eq!(
        model.get_assigned(),
        &vec![BoolValue::True, BoolValue::Undefined, BoolValue::Undefined]
    );
}

#[test]
fn backtracking_requeues_variables() {
    let mut model = WorkingModel::new(2);
    assert_eq!(model.pop_queue(), Some(Var(0)));
    model.assign(Var(0), BoolValue::True, 1);
    assert_eq!(model.pop_queue(), Some(Var(1)));
    assert_eq!(model.pop_queue(), None);
    model.backtracking(0);
    assert_eq!(model.pop_queue(), Some(Var(0)));
    assert_eq!(model.pop_queue(), None);
}

#[test]
fn heap_pops_greatest_activity() {
    let mut heap = Heap::new(4, 10);
    heap.incr_activity(Var(2));
    heap.incr_activity(Var(2));
    heap.incr_activity(Var(3));
    assert!(heap.contains(Var(2)));
    assert_eq!(heap.pop(), Some(Var(2)));
    assert!(!heap.contains(Var(2)));
    assert_eq!(heap.pop(), Some(Var(3)));
    let a = heap.pop().unwrap();
    let b = heap.pop().unwrap();
    assert!((a == Var(0) && b == Var(1)) || (a == Var(1) && b == Var(0)));
    assert_eq!(heap.pop(), None);
}

#[test]
fn heap_push_is_idempotent_and_grows() {
    let mut heap = Heap::new(1, 1);
    heap.push(Var(0));
    heap.push(Var(5));
    heap.push(Var(5));
    heap.incr_activity(Var(5));
    assert_eq!(heap.pop(), Some(Var(5)));
    assert_eq!(heap.pop(), Some(Var(0)));
    assert_eq!(heap.pop(), None);
}

#[test]
fn heap_decay_makes_later_bumps_weigh_more() {
    let mut heap = Heap::new(2, 100);
    heap.incr_activity(Var(0));
    heap.decay_inc();
    heap.incr_activity(Var(1));
    assert_eq!(heap.pop(), Some(Var(1)));
}

#[test]
fn heap_rescales_at_the_limit() {
    let mut heap = Heap::new(3, 0x0fff_ffff_ffff_ffff);
    heap.incr_activity(Var(1));
    heap.incr_activity(Var(1));
    heap.incr_activity(Var(2));
    heap.decay_inc();
    assert_eq!(heap.pop(), Some(Var(1)));
    assert_eq!(heap.pop(), Some(Var(2)));
    assert_eq!(heap.pop(), Some(Var(0)));
}

#[test]
fn unassigned_variables_are_listed_in_order() {
    let mut model = WorkingModel::new(4);
    model.assign(Var(1), BoolValue::True, 0);
    assert_eq!(model.unassigned(), vec![Var(0), Var(2), Var(3)]);
    for _ in 0..50 {
        let picked = model.random_unassigned();
        assert!(picked == Var(0) || picked == Var(2) || picked == Var(3));
    }
    model.assign(Var(0), BoolValue::True, 0);
    model.assign(Var(3), BoolValue::False, 0);
    assert_eq!(model.random_unassigned(), Var(2));
}

#[test]
fn activity_decides_what_is_popped() {
    let mut model = WorkingModel::new(3);
    model.bump_activity(Var(2));
    model.decay_activity();
    model.bump_activity(Var(1));
    assert_eq!(model.pop_queue(), Some(Var(1)));
    assert_eq!(model.pop_queue(), Some(Var(2)));
    assert_eq!(model.pop_queue(), Some(Var(0)));
    assert_eq!(model.pop_queue(), None);
}

#[test]
fn pops_hand_out_each_variable_once() {
    let mut model = WorkingModel::new(5);
    model.bump_activity(Var(3));
    model.bump_activity(Var(1));
    model.bump_activity(Var(1));
    let mut seen = vec![false; 5];
    for _ in 0..5 {
        let v = model.pop_queue().unwrap();
        assert!(!seen[v.0 as usize]);
        seen[v.0 as usize] = true;
    }
    assert!(seen.iter().all(|&s| s));
    assert_eq!(model.pop_queue(), None);
    assert_eq!(model.pop_queue(), None);
}
