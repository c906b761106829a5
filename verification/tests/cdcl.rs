use sat_solver::{sat_model_check, BoolValue, CdclSolver, Cnf, Lit, Solver};

fn cnf(var_num: usize, clauses: &[&[i32]]) -> Cnf {
    Cnf {
        var_num,
        cl_num: clauses.len(),
        clauses: clauses
            .iter()
            .map(|c| c.iter().map(|&x| Lit::from(x)).collect())
            .collect(),
    }
}

fn pigeonhole(pigeons: i32, holes: i32) -> Cnf {
    let var = |p: i32, h: i32| p * holes + h + 1;
    let mut clauses: Vec<Vec<i32>> = Vec::new();
    for p in 0..pigeons {
        clauses.push((0..holes).map(|h| var(p, h)).collect());
    }
    for h in 0..holes {
        for p in 0..pigeons {
            for q in (p + 1)..pigeons {
                clauses.push(vec![-var(p, h), -var(q, h)]);
            }
        }
    }
    let refs: Vec<&[i32]> = clauses.iter().map(|c| c.as_slice()).collect();
    cnf((pigeons * holes) as usize, &refs)
}

#[test]
fn cdcl_refutes_unit_conflict() {
    let f = cnf(2, &[&[1, 2], &[-1, 2], &[-2]]);
    assert!(f.is_well_formed());
    let mut solver = CdclSolver::new(&f);
    assert!(!solver.solve());
    assert_eq!(solver.status, Some(false));
}

#[test]
fn cdcl_finds_model_of_three_clauses() {
    let f = cnf(3, &[&[1, 2, 3], &[-1, 2], &[-2, 3]]);
    for _ in 0..50 {
        let mut solver = CdclSolver::new(&f);
        assert!(solver.solve());
        let model = solver.assigns().clone();
        assert!(sat_model_check(&f.clauses, &model));
        assert_eq!(model[2], BoolValue::True);
    }
}

#[test]
fn cdcl_refutes_empty_clause() {
    let f = cnf(1, &[&[]]);
    let mut solver = CdclSolver::new(&f);
    assert!(!solver.solve());
}

#[test]
fn cdcl_refutes_pigeonhole() {
    let f = pigeonhole(4, 3);
    for _ in 0..20 {
        let mut solver = CdclSolver::new(&f);
        assert!(!solver.solve());
    }
}

#[test]
fn cdcl_ends_on_conflict_among_forced_literals() {
    // variables: d = 1, e = 2, x1 = 3, x2 = 4, u = 5, w = 6
    let f = cnf(
        6,
        &[&[3], &[4], &[-2, -3, 5], &[-2, -5], &[2, -4, 6], &[2, -3, -6]],
    );
    for _ in 0..200 {
        let mut solver = CdclSolver::new(&f);
        assert!(!solver.solve());
    }
}

#[test]
fn cdcl_without_deadline_always_answers() {
    let f = pigeonhole(4, 3);
    let mut solver = CdclSolver::new(&f);
    assert_eq!(solver.solve_until(None), Some(false));
    assert_eq!(solver.solve_until(None), Some(false));
    let f = cnf(3, &[&[1, 2, 3], &[-1, 2], &[-2, 3]]);
    let mut solver = CdclSolver::new(&f);
    assert_eq!(solver.solve_until(None), Some(true));
    assert!(sat_model_check(&f.clauses, solver.assigns()));
}

#[test]
fn cdcl_answers_within_a_generous_deadline() {
    let f = pigeonhole(4, 3);
    let mut solver = CdclSolver::new(&f);
    assert_eq!(
        solver.solve_until(Some(std::time::Duration::from_secs(3600))),
        Some(false)
    );
}

#[test]
fn cdcl_gives_up_or_answers_rightly_at_once() {
    let f = pigeonhole(5, 4);
    let mut solver = CdclSolver::new(&f);
    let verdict = solver.solve_until(Some(std::time::Duration::from_nanos(0)));
    assert!(verdict == None || verdict == Some(false));
    if verdict == None {
        assert_eq!(solver.status, None);
    }
    // a solver that gave up may be asked again
    assert!(!solver.solve());
}

#[test]
fn cdcl_add_clause_after_construction() {
    let f = cnf(2, &[&[1, 2]]);
    let mut solver = CdclSolver::new(&f);
    assert!(solver.add_clause(vec![Lit::from(-1)]));
    assert!(solver.add_clause(vec![Lit::from(-1)]));
    assert!(solver.add_clause(vec![Lit::from(-1), Lit::from(2)]));
    assert!(!solver.add_clause(vec![Lit::from(1)]));
    assert_eq!(solver.status, Some(false));
    assert!(!solver.solve());
}

#[test]
fn cdcl_unit_clauses_are_kept_at_the_root() {
    let f = cnf(3, &[&[1], &[-1, 2], &[-2, 3], &[-3, -1, 2]]);
    let mut solver = CdclSolver::new(&f);
    assert!(solver.solve());
    assert_eq!(
        solver.assigns().clone(),
        vec![BoolValue::True, BoolValue::True, BoolValue::True]
    );
}

#[test]
fn cdcl_with_seed_repeats_its_choices() {
    let f = cnf(
        8,
        &[&[1, 2, 3], &[-1, -2, 4], &[5, 6, -7], &[-5, 7, 8], &[-3, -4, -8]],
    );
    for seed in 0..20 {
        let mut first = CdclSolver::with_seed(&f, seed);
        let mut second = CdclSolver::with_seed(&f, seed);
        assert!(first.solve());
        assert!(second.solve());
        assert_eq!(first.assigns(), second.assigns());
        assert!(sat_model_check(&f.clauses, first.assigns()));
    }
    let mut refuted = CdclSolver::with_seed(&pigeonhole(4, 3), 7);
    assert!(!refuted.solve());
}

#[test]
fn time_is_past_only_beyond_the_limit() {
    assert!(!sat_solver::clock::past_limit(0, 0));
    assert!(!sat_solver::clock::past_limit(5, 5));
    assert!(sat_solver::clock::past_limit(6, 5));
    assert!(!sat_solver::clock::past_limit(4, 5));
    assert!(!sat_solver::clock::out_of_time(&None));
    let start = std::time::Instant::now();
    assert!(!sat_solver::clock::out_of_time(&Some((start, u128::MAX))));
}

#[test]
fn cdcl_takes_a_clause_right_after_construction() {
    let f = cnf(1, &[&[1]]);
    let mut solver = CdclSolver::new(&f);
    assert_ne!(solver.status, Some(true));
    assert!(!solver.add_clause(vec![Lit::from(-1)]));
    assert_eq!(solver.status, Some(false));
    assert_eq!(solver.assigns()[0], BoolValue::True);
    assert!(!solver.solve());
}

#[test]
fn a_unit_clause_given_later_is_forced() {
    let f = cnf(3, &[&[1, 2]]);
    let mut solver = CdclSolver::new(&f);
    assert_eq!(solver.status, None);
    assert_eq!(solver.assigns().len(), 3);
    assert!(solver.add_clause(vec![Lit::from(-3)]));
    assert_eq!(solver.status, None);
    assert_eq!(
        solver.assigns().clone(),
        vec![BoolValue::Undefined, BoolValue::Undefined, BoolValue::False]
    );
    // the same literal once more changes nothing, its complement ends the matter
    assert!(solver.add_clause(vec![Lit::from(-3)]));
    assert!(!solver.add_clause(vec![Lit::from(3)]));
    assert_eq!(solver.status, Some(false));
    assert_eq!(solver.assigns()[2], BoolValue::False);
}

#[test]
fn a_solver_without_a_model_still_takes_clauses() {
    let f = pigeonhole(3, 2);
    let mut solver = CdclSolver::new(&f);
    assert!(!solver.solve());
    assert_eq!(solver.status, Some(false));
    assert_eq!(solver.assigns().len(), 6);
    assert!(solver.add_clause(vec![Lit::from(1), Lit::from(-2)]));
    assert_eq!(solver.status, Some(false));
    assert!(!solver.solve());
}
