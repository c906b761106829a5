use sat_solver::{parse_cnf, sat_model_check, solve_auto, CdclSolver, Lit, ParseError, Solver};

#[test]
fn parses_header_and_clauses() {
    let text = b"c a comment\np cnf 3 2\n1 -2 0\n-3 2 1 0\n";
    let cnf = parse_cnf(text).unwrap();
    assert_eq!(cnf.var_num, 3);
    assert_eq!(cnf.cl_num, 2);
    assert_eq!(
        cnf.clauses,
        vec![
            vec![Lit::from(1), Lit::from(-2)],
            vec![Lit::from(-3), Lit::from(2), Lit::from(1)]
        ]
    );
    assert!(cnf.is_well_formed());
}

#[test]
fn trailing_zero_is_optional() {
    let with = parse_cnf(b"p cnf 2 3\n1 2 0\n-1 -2 0\n1 0\n").unwrap();
    let without = parse_cnf(b"p cnf 2 3\n1 2\n-1 -2\n1").unwrap();
    assert_eq!(with.clauses, without.clauses);
    assert_eq!(with.clauses.len(), 3);
}

#[test]
fn numbers_after_zero_are_dropped() {
    let cnf = parse_cnf(b"p cnf 3 1\n1 0 2 3\n").unwrap();
    assert_eq!(cnf.clauses, vec![vec![Lit::from(1)]]);
}

#[test]
fn words_that_are_no_numbers_are_passed_over() {
    let cnf = parse_cnf(b"p cnf 3 1\n 1 x -2 3y +3 99999999999\r\n").unwrap();
    assert_eq!(
        cnf.clauses,
        vec![vec![Lit::from(1), Lit::from(-2), Lit::from(3)]]
    );
}

#[test]
fn blank_and_comment_lines_are_skipped() {
    let cnf = parse_cnf(b"\n  \t \nc p cnf 9 9\n   c indented\np cnf 1 1\n\n-1\n\n").unwrap();
    assert_eq!(cnf.var_num, 1);
    assert_eq!(cnf.clauses, vec![vec![Lit::from(-1)]]);
}

#[test]
fn wrong_clause_count_gives_the_empty_clause() {
    let cnf = parse_cnf(b"p cnf 2 3\n1 2 0\n-1 0\n").unwrap();
    assert_eq!(cnf.var_num, 2);
    assert_eq!(cnf.cl_num, 3);
    assert_eq!(cnf.clauses, vec![Vec::<Lit>::new()]);
    assert!(!solve_auto(&cnf).sat);
}

#[test]
fn a_line_with_only_zero_is_no_clause() {
    let cnf = parse_cnf(b"p cnf 1 2\n1 0\n0\n").unwrap();
    assert_eq!(cnf.clauses, vec![Vec::<Lit>::new()]);
}

#[test]
fn missing_header_is_an_error() {
    assert_eq!(parse_cnf(b"1 2 0\n-1 0\n").unwrap_err(), ParseError::MissingHeader);
    assert_eq!(parse_cnf(b"").unwrap_err(), ParseError::MissingHeader);
}

#[test]
fn bad_header_is_an_error() {
    assert_eq!(parse_cnf(b"p cnf x 2\n").unwrap_err(), ParseError::BadHeader);
    assert_eq!(parse_cnf(b"p cnf 2 -2\n").unwrap_err(), ParseError::BadHeader);
    assert_eq!(
        parse_cnf(b"p cnf 99999999999999999999999999 1\n").unwrap_err(),
        ParseError::BadHeader
    );
}

#[test]
fn short_header_keeps_the_counts() {
    let cnf = parse_cnf(b"p cnf\n").unwrap();
    assert_eq!(cnf.var_num, 0);
    assert_eq!(cnf.cl_num, 0);
    assert!(cnf.clauses.is_empty());
    let cnf = parse_cnf(b"p cnf +4\n").unwrap();
    assert_eq!(cnf.var_num, 4);
}

#[test]
fn extreme_literal_numbers() {
    let cnf = parse_cnf(b"p cnf 5 1\n2147483647 -2147483648 2147483648\n").unwrap();
    assert_eq!(
        cnf.clauses,
        vec![vec![Lit::from(2147483647), Lit::from(-2147483648)]]
    );
    assert!(!cnf.is_well_formed());
}

#[test]
fn parsed_formula_is_solved() {
    let cnf = parse_cnf(b"p cnf 3 3\n1 2 3 0\n-1 2 0\n-2 3 0\n").unwrap();
    assert!(cnf.is_well_formed());
    assert!(solve_auto(&cnf).sat);
}

fn check_texts(texts: &[&[u8]], expected: bool) {
    for text in texts {
        let cnf = parse_cnf(text).unwrap();
        assert!(cnf.is_well_formed());
        let mut solver = CdclSolver::new(&cnf);
        let status = solver.solve();
        assert_eq!(status, expected);
        if status {
            assert!(sat_model_check(&cnf.clauses, solver.assigns()));
        }
    }
}

#[test]
fn test_sat() {
    check_texts(
        &[
            b"p cnf 3 3\n1 2 3 0\n-1 2 0\n-2 3 0\n",
            b"c horn\np cnf 3 3\n1 0\n-1 2 0\n-2 3 0\n",
            b"p cnf 2 3\n1 2 0\n-1 -2 0\n1 -2 0\n",
            b"p cnf 5 7\n1 -2 3\n-1 2\n2 4 5\n-4 -5\n-3 5\n1 2 3 4 5\n-2 -3 4\n",
            b"p cnf 4 0\n",
        ],
        true,
    );
}

#[test]
fn test_unsat() {
    check_texts(
        &[
            b"p cnf 2 3\n1 2 0\n-1 2 0\n-2 0\n",
            b"p cnf 2 4\n1 2\n1 -2\n-1 2\n-1 -2\n",
            b"p cnf 1 2\n1\n",
            b"c three pigeons, two holes\np cnf 6 9\n1 2 0\n3 4 0\n5 6 0\n-1 -3 0\n-1 -5 0\n-3 -5 0\n-2 -4 0\n-2 -6 0\n-4 -6 0\n",
        ],
        false,
    );
}

#[test]
#[should_panic]
fn test_parsing() {
    parse_cnf(b"c no line that starts with p\n1 2 0\n-1 0\n").unwrap();
}

#[test]
fn short_headers_are_told() {
    assert_eq!(sat_solver::missing_counts(b"p cnf 3 2\n1 2 0\n"), (false, false));
    assert_eq!(sat_solver::missing_counts(b"p cnf 3\n1 2 0\n"), (false, true));
    assert_eq!(sat_solver::missing_counts(b"c x\n  p cnf\n"), (true, true));
    assert_eq!(sat_solver::missing_counts(b"p\n"), (true, true));
    assert_eq!(sat_solver::missing_counts(b"c p\npq cnf\n1 0\n"), (false, false));
    assert_eq!(sat_solver::missing_counts(b""), (false, false));
}
