use sat_solver::{
    all_verdicts, engines_agree, is_2sat, is_khorn, model_literals, oracle_agrees, pick_solver, sat_model_check,
    solve_auto, solve_configured, solve_with, BoolValue, Cnf, Dpll, KhornSolver, Lit, Options,
    SAT2Solver, Solver, SolverKind, TautoSolver,
};

fn cnf(var_num: usize, clauses: &[&[i32]]) -> Cnf {
    Cnf {
        var_num,
        cl_num: clauses.len(),
        clauses: clauses
            .iter()
            .map(|c| c.iter().map(|&x| Lit::from(x)).collect())
            .collect(),
    }
}

fn pigeonhole(pigeons: i32, holes: i32) -> Cnf {
    let var = |p: i32, h: i32| p * holes + h + 1;
    let mut clauses: Vec<Vec<i32>> = Vec::new();
    for p in 0..pigeons {
        clauses.push((0..holes).map(|h| var(p, h)).collect());
    }
    for h in 0..holes {
        for p in 0..pigeons {
            for q in (p + 1)..pigeons {
                clauses.push(vec![-var(p, h), -var(q, h)]);
            }
        }
    }
    let refs: Vec<&[i32]> = clauses.iter().map(|c| c.as_slice()).collect();
    cnf((pigeons * holes) as usize, &refs)
}

#[test]
fn dispatcher_picks_by_shape() {
    assert_eq!(pick_solver(&cnf(2, &[&[1, 2], &[-1]])), SolverKind::Sat2);
    assert_eq!(pick_solver(&cnf(3, &[&[1, -2, -3], &[-1]])), SolverKind::Horn);
    assert_eq!(pick_solver(&cnf(3, &[&[1, 2, 3], &[-1]])), SolverKind::Cdcl);
    assert_eq!(pick_solver(&cnf(3, &[])), SolverKind::Sat2);
}

#[test]
fn shape_tests() {
    assert!(is_2sat(&cnf(2, &[&[1, 2], &[-1], &[]])));
    assert!(!is_2sat(&cnf(3, &[&[1, 2], &[1, 2, 3]])));
    assert!(is_khorn(&cnf(3, &[&[1, -2, -3], &[-1, -2], &[3]])));
    assert!(!is_khorn(&cnf(3, &[&[1, 2, -3]])));
    assert!(!is_khorn(&cnf(3, &[&[1, 1]])));
}

#[test]
fn unit_conflict_is_refuted_on_every_route() {
    let f = cnf(2, &[&[1, 2], &[-1, 2], &[-2]]);
    assert!(!solve_auto(&f).sat);
    assert!(!solve_with(&f, SolverKind::Cdcl, false).sat);
    assert!(!solve_with(&f, SolverKind::Sat2, false).sat);
    assert!(!solve_with(&f, SolverKind::Exhaustive, false).sat);
}

#[test]
fn three_clauses_have_a_model_on_every_route() {
    let f = cnf(3, &[&[1, 2, 3], &[-1, 2], &[-2, 3]]);
    for kind in [SolverKind::Auto, SolverKind::Cdcl, SolverKind::Exhaustive] {
        let out = solve_with(&f, kind, true);
        assert!(out.sat);
        assert_eq!(out.checked, Some(true));
        assert!(sat_model_check(&f.clauses, &out.assigns));
        assert_eq!(out.assigns[2], BoolValue::True);
    }
}

#[test]
fn horn_chain_has_one_model() {
    let f = cnf(3, &[&[1], &[-1, 2], &[-2, 3]]);
    let expected = vec![BoolValue::True, BoolValue::True, BoolValue::True];
    for kind in [
        SolverKind::Auto,
        SolverKind::Cdcl,
        SolverKind::Sat2,
        SolverKind::Horn,
        SolverKind::Exhaustive,
    ] {
        let out = solve_with(&f, kind, true);
        assert!(out.sat);
        assert_eq!(out.assigns, expected);
        assert_eq!(out.checked, Some(true));
    }
}

#[test]
fn two_literal_clauses_have_one_model() {
    let f = cnf(2, &[&[1, 2], &[-1, -2], &[1, -2]]);
    let expected = vec![BoolValue::True, BoolValue::False];
    for kind in [
        SolverKind::Auto,
        SolverKind::Cdcl,
        SolverKind::Sat2,
        SolverKind::Exhaustive,
    ] {
        let out = solve_with(&f, kind, false);
        assert!(out.sat);
        assert_eq!(out.assigns, expected);
        assert_eq!(out.checked, None);
    }
}

#[test]
fn empty_clause_is_refuted() {
    let f = cnf(1, &[&[]]);
    for kind in [
        SolverKind::Auto,
        SolverKind::Cdcl,
        SolverKind::Sat2,
        SolverKind::Horn,
        SolverKind::Exhaustive,
    ] {
        assert!(!solve_with(&f, kind, false).sat);
    }
}

#[test]
fn pigeonhole_is_refuted() {
    let f = pigeonhole(4, 3);
    assert_eq!(pick_solver(&f), SolverKind::Cdcl);
    assert!(!solve_auto(&f).sat);
    assert!(!solve_with(&f, SolverKind::Cdcl, false).sat);
    assert!(!solve_with(&f, SolverKind::Exhaustive, false).sat);
}

#[test]
fn engines_agree_on_samples() {
    assert!(engines_agree(&cnf(2, &[&[1, 2], &[-1, 2], &[-2]])));
    assert!(engines_agree(&cnf(3, &[&[1], &[-1, 2], &[-2, 3]])));
    assert!(engines_agree(&cnf(3, &[&[1, 2, 3], &[-1, 2], &[-2, 3]])));
    assert!(engines_agree(&cnf(2, &[&[1, 2], &[-1, -2], &[1, -2], &[-1, 2]])));
    assert!(engines_agree(&cnf(4, &[&[-1, -2, 3], &[1], &[2], &[-3, -4], &[4]])));
    assert!(engines_agree(&pigeonhole(3, 2)));
}

fn next_random(state: &mut u64) -> u64 {
    *state = state
        .wrapping_mul(6364136223846793005)
        .wrapping_add(1442695040888963407);
    *state >> 33
}

#[test]
fn oracle_agrees_on_generated_formulas() {
    let mut state: u64 = 42;
    for round in 0..300 {
        let vars = 1 + (next_random(&mut state) % 8) as usize;
        let count = (next_random(&mut state) % 24) as usize;
        let mut clauses: Vec<Vec<i32>> = Vec::new();
        for _ in 0..count {
            let len = 1 + (next_random(&mut state) % 4) as usize;
            let mut clause = Vec::new();
            for _ in 0..len {
                let v = 1 + (next_random(&mut state) % vars as u64) as i32;
                clause.push(if next_random(&mut state) % 2 == 0 { v } else { -v });
            }
            clauses.push(clause);
        }
        let refs: Vec<&[i32]> = clauses.iter().map(|c| c.as_slice()).collect();
        let f = cnf(vars, &refs);
        assert!(f.is_well_formed());
        assert!(oracle_agrees(&f), "round {}", round);
        assert!(engines_agree(&f), "round {}", round);
        let reference = solve_with(&f, SolverKind::Exhaustive, false).sat;
        let mut dpll = Dpll::new(&f);
        assert_eq!(dpll.solve(), reference);
        if reference {
            assert!(sat_model_check(&f.clauses, dpll.assigns()));
        }
        let out = solve_with(&f, SolverKind::Cdcl, true);
        assert_eq!(out.sat, reference);
        if out.sat {
            assert_eq!(out.checked, Some(true));
        }
        if is_2sat(&f) {
            let out = solve_with(&f, SolverKind::Sat2, true);
            assert_eq!(out.sat, reference);
            if out.sat {
                assert_eq!(out.checked, Some(true));
            }
        }
        if is_khorn(&f) {
            let out = solve_with(&f, SolverKind::Horn, true);
            assert_eq!(out.sat, reference);
            if out.sat {
                assert_eq!(out.checked, Some(true));
            }
        }
    }
}

#[test]
fn horn_solver_counts_repeated_literals() {
    // the clause with the negation of 1 twice is false once 1 is forced
    let f = cnf(1, &[&[1], &[-1, -1]]);
    assert!(is_khorn(&f));
    let mut solver = KhornSolver::new(&f);
    assert!(!solver.solve());
}

#[test]
fn horn_solver_reports_least_model() {
    let f = cnf(4, &[&[1], &[-1, 2], &[-3, 4], &[-2, -3]]);
    let mut solver = KhornSolver::new(&f);
    assert!(solver.solve());
    assert_eq!(
        solver.assigns().clone(),
        vec![
            BoolValue::True,
            BoolValue::True,
            BoolValue::False,
            BoolValue::False
        ]
    );
    assert!(solver.solve());
}

#[test]
fn two_sat_solver_finds_contradiction_in_component() {
    let f = cnf(2, &[&[1, 2], &[1, -2], &[-1, 2], &[-1, -2]]);
    let mut solver = SAT2Solver::new(&f);
    assert!(!solver.solve());
    assert!(!solver.solve());
}

#[test]
fn two_sat_solver_without_clauses() {
    let f = cnf(3, &[]);
    let mut solver = SAT2Solver::new(&f);
    assert!(solver.solve());
    assert_eq!(solver.status, Some(true));
}

#[test]
fn exhaustive_solver_counts_up() {
    let f = cnf(2, &[&[-1], &[-2]]);
    let mut solver = TautoSolver::new(&f);
    assert!(solver.solve());
    assert_eq!(solver.assigns, vec![BoolValue::False, BoolValue::False]);
}

#[test]
fn model_literals_sign() {
    let line = model_literals(&[BoolValue::True, BoolValue::False, BoolValue::Undefined]);
    assert_eq!(line, vec![1, -2, 3]);
}

#[test]
fn model_check_counts_undefined_as_false() {
    let f = cnf(2, &[&[-1, 2]]);
    assert!(sat_model_check(
        &f.clauses,
        &[BoolValue::Undefined, BoolValue::False]
    ));
    assert!(!sat_model_check(
        &f.clauses,
        &[BoolValue::True, BoolValue::Undefined]
    ));
}

#[test]
fn dpll_solves_samples() {
    let f = cnf(2, &[&[1, 2], &[-1, 2], &[-2]]);
    assert!(!Dpll::new(&f).solve());
    let f = cnf(3, &[&[1, 2, 3], &[-1, 2], &[-2, 3]]);
    let mut solver = Dpll::new(&f);
    assert!(solver.solve());
    assert!(sat_model_check(&f.clauses, &solver.assigns));
    let f = cnf(1, &[&[]]);
    assert!(!Dpll::new(&f).solve());
    assert!(!Dpll::new(&pigeonhole(4, 3)).solve());
    let f = cnf(2, &[&[1, 2], &[-1, -2], &[1, -2]]);
    let mut solver = Dpll::new(&f);
    assert!(solver.solve());
    assert_eq!(
        solver.assigns().clone(),
        vec![BoolValue::True, BoolValue::False]
    );
}

#[test]
fn two_literal_engine_agrees_with_the_oracle() {
    let mut state: u64 = 7;
    for round in 0..400 {
        let vars = 1 + (next_random(&mut state) % 7) as usize;
        let count = (next_random(&mut state) % 16) as usize;
        let mut clauses: Vec<Vec<i32>> = Vec::new();
        for _ in 0..count {
            let len = 1 + (next_random(&mut state) % 2) as usize;
            let mut clause = Vec::new();
            for _ in 0..len {
                let v = 1 + (next_random(&mut state) % vars as u64) as i32;
                clause.push(if next_random(&mut state) % 2 == 0 { v } else { -v });
            }
            clauses.push(clause);
        }
        let refs: Vec<&[i32]> = clauses.iter().map(|c| c.as_slice()).collect();
        let f = cnf(vars, &refs);
        assert!(is_2sat(&f));
        let reference = solve_with(&f, SolverKind::Exhaustive, false).sat;
        let mut solver = SAT2Solver::new(&f);
        assert_eq!(solver.solve(), reference, "round {}", round);
        if reference {
            assert!(sat_model_check(&f.clauses, solver.assigns()));
        }
        assert_eq!(solver.solve(), reference);
    }
}

#[test]
fn horn_engine_agrees_with_the_oracle() {
    let mut state: u64 = 11;
    for round in 0..400 {
        let vars = 1 + (next_random(&mut state) % 7) as usize;
        let count = (next_random(&mut state) % 16) as usize;
        let mut clauses: Vec<Vec<i32>> = Vec::new();
        for _ in 0..count {
            let len = 1 + (next_random(&mut state) % 4) as usize;
            let mut clause = Vec::new();
            let positive = next_random(&mut state) % (len as u64 + 1);
            for i in 0..len {
                let v = 1 + (next_random(&mut state) % vars as u64) as i32;
                clause.push(if i as u64 == positive { v } else { -v });
            }
            clauses.push(clause);
        }
        let refs: Vec<&[i32]> = clauses.iter().map(|c| c.as_slice()).collect();
        let f = cnf(vars, &refs);
        assert!(is_khorn(&f));
        let reference = solve_with(&f, SolverKind::Exhaustive, false).sat;
        let mut solver = KhornSolver::new(&f);
        assert_eq!(solver.solve(), reference, "round {}", round);
        if reference {
            assert!(sat_model_check(&f.clauses, solver.assigns()));
        }
        assert_eq!(solver.solve(), reference);
    }
}

#[test]
fn a_model_is_right_even_where_an_engine_does_not_apply() {
    // neither a Horn formula nor one of clauses of two literals
    let f = cnf(3, &[&[1, 2, 3], &[-1, 2, 3]]);
    for kind in [SolverKind::Sat2, SolverKind::Horn] {
        let out = solve_with(&f, kind, true);
        if out.sat {
            assert_eq!(out.checked, Some(true));
            assert!(sat_model_check(&f.clauses, &out.assigns));
        }
    }
}

#[test]
fn exhaustive_solver_keeps_to_the_time_allowed() {
    let f = cnf(3, &[&[1, 2, 3], &[-1, 2], &[-2, 3]]);
    let mut solver = TautoSolver::new(&f);
    assert_eq!(solver.ssolve(0, std::time::Instant::now(), None), Some(true));
    assert!(sat_model_check(&f.clauses, &solver.assigns));
    let mut solver = TautoSolver::new(&f);
    assert_eq!(
        solver.solve_until(Some(std::time::Duration::from_secs(3600))),
        Some(true)
    );
    let hard = pigeonhole(4, 3);
    let mut solver = TautoSolver::new(&hard);
    let verdict = solver.solve_until(Some(std::time::Duration::from_nanos(0)));
    assert!(verdict == None || verdict == Some(false));
    let mut solver = TautoSolver::new(&hard);
    assert_eq!(solver.solve_until(None), Some(false));
}

#[test]
fn configured_solving() {
    let f = cnf(
        8,
        &[&[1, 2, 3], &[-1, -2, 4], &[5, 6, -7], &[-5, 7, 8], &[-3, -4, -8]],
    );
    let options = Options {
        kind: SolverKind::Cdcl,
        verify: true,
        deadline: None,
        random_seed: Some(5),
    };
    let first = solve_configured(&f, &options).unwrap();
    let second = solve_configured(&f, &options).unwrap();
    assert!(first.sat);
    assert_eq!(first.checked, Some(true));
    assert_eq!(first.assigns, second.assigns);
    for kind in [
        SolverKind::Auto,
        SolverKind::Cdcl,
        SolverKind::Exhaustive,
    ] {
        let options = Options {
            kind,
            verify: false,
            deadline: Some(std::time::Duration::from_secs(3600)),
            random_seed: None,
        };
        let out = solve_configured(&pigeonhole(4, 3), &options).unwrap();
        assert!(!out.sat);
        assert_eq!(out.checked, None);
    }
    let options = Options {
        kind: SolverKind::Auto,
        verify: true,
        deadline: Some(std::time::Duration::from_nanos(0)),
        random_seed: None,
    };
    // the engines that take linear time answer whatever the time allowed
    let out = solve_configured(&cnf(3, &[&[1], &[-1, 2], &[-2, 3]]), &options).unwrap();
    assert!(out.sat);
    let out = solve_configured(&cnf(3, &[&[1, -2, -3], &[2], &[3], &[-1]]), &options).unwrap();
    assert!(!out.sat);
    match solve_configured(&pigeonhole(5, 4), &options) {
        None => {}
        Some(out) => assert!(!out.sat),
    }
}

#[test]
fn verdicts_of_all_engines() {
    let v = all_verdicts(&cnf(3, &[&[1], &[-1, 2], &[-2, 3]]));
    assert!(v.cdcl && v.exhaustive);
    assert_eq!(v.sat2, Some(true));
    assert_eq!(v.horn, Some(true));
    let v = all_verdicts(&cnf(3, &[&[1, 2, 3], &[-1, -2, -3], &[1, -2], &[2, -3], &[3, -1]]));
    assert!(!v.cdcl && !v.exhaustive);
    assert_eq!(v.sat2, None);
    assert_eq!(v.horn, None);
    let v = all_verdicts(&cnf(2, &[&[1, 2], &[-1, 2], &[-2]]));
    assert!(!v.cdcl);
    assert_eq!(v.sat2, Some(false));
    assert_eq!(v.horn, None);
}

#[test]
fn exhaustive_solver_reports_the_first_model() {
    // true is tried before false, the first variable outermost
    let f = cnf(2, &[&[1, 2]]);
    let mut solver = TautoSolver::new(&f);
    assert!(solver.solve());
    assert_eq!(solver.assigns, vec![BoolValue::True, BoolValue::True]);
    let f = cnf(3, &[&[-1], &[2, 3], &[-2, -3]]);
    let mut solver = TautoSolver::new(&f);
    assert!(solver.solve());
    assert_eq!(
        solver.assigns,
        vec![BoolValue::False, BoolValue::True, BoolValue::False]
    );
}

#[test]
fn two_sat_solver_starts_without_values() {
    let f = cnf(2, &[&[1, 2], &[-1]]);
    let solver = SAT2Solver::new(&f);
    assert_eq!(solver.status, None);
    assert_eq!(solver.assigns, vec![BoolValue::Undefined, BoolValue::Undefined]);
    let solver = SAT2Solver::new(&cnf(2, &[&[1, 2], &[]]));
    assert_eq!(solver.status, Some(false));
    let solver = SAT2Solver::new(&cnf(2, &[]));
    assert_eq!(solver.status, Some(true));
    assert_eq!(solver.assigns, vec![BoolValue::Undefined, BoolValue::Undefined]);
}

#[test]
fn horn_solver_follows_a_chain_to_a_conflict() {
    let f = cnf(2, &[&[1], &[-1, 2], &[-2]]);
    let mut solver = KhornSolver::new(&f);
    assert!(!solver.solve());
}

#[test]
fn every_model_found_gives_each_clause_a_true_literal() {
    let f = cnf(4, &[&[1, 2], &[-1, -2], &[1, -2], &[3, 4, -1], &[-3, -4]]);
    for kind in [SolverKind::Cdcl, SolverKind::Exhaustive] {
        let out = solve_with(&f, kind, true);
        assert!(out.sat);
        for clause in f.clauses.iter() {
            assert!(clause.iter().any(|lit| {
                let value = out.assigns[lit.get_var().0 as usize];
                (value == BoolValue::True && lit.is_pos())
                    || (value == BoolValue::False && lit.is_neg())
            }));
        }
    }
    let mut dpll = Dpll::new(&f);
    assert!(dpll.solve());
    for clause in f.clauses.iter() {
        assert!(clause.iter().any(|lit| {
            let value = dpll.assigns[lit.get_var().0 as usize];
            (value == BoolValue::True && lit.is_pos()) || (value == BoolValue::False && lit.is_neg())
        }));
    }
}

#[test]
fn horn_solver_counts_a_variable_once() {
    // the clause that negates 1 twice waits for 1 only
    let f = cnf(2, &[&[1], &[-1, -1, 2]]);
    let mut solver = KhornSolver::new(&f);
    assert!(solver.solve());
    assert_eq!(
        solver.assigns().clone(),
        vec![BoolValue::True, BoolValue::True]
    );
    // a clause with a variable and its negation forces nothing
    let g = cnf(2, &[&[1, -1], &[-1, 2]]);
    let mut solver = KhornSolver::new(&g);
    assert!(solver.solve());
    assert_eq!(
        solver.assigns().clone(),
        vec![BoolValue::False, BoolValue::False]
    );
}

#[test]
fn every_engine_reports_one_value_for_each_variable() {
    let f = cnf(4, &[&[1, 2], &[-1, 3]]);
    assert_eq!(SAT2Solver::new(&f).assigns().len(), 4);
    assert_eq!(KhornSolver::new(&f).assigns().len(), 4);
    assert_eq!(TautoSolver::new(&f).assigns().len(), 4);
    assert_eq!(Dpll::new(&f).assigns().len(), 4);
    assert_eq!(sat_solver::CdclSolver::new(&f).assigns().len(), 4);
    let empty = cnf(0, &[]);
    assert_eq!(sat_solver::CdclSolver::new(&empty).assigns().len(), 0);
}
