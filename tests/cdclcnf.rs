use cdcl_sat::cdclcnf::Cdcl;

#[test]
fn test_sat() {
    // (x1 or x2) and (not x1 or x2) and (not x2 or x3)
    let clauses = vec![vec![1, 2], vec![-1, 2], vec![-2, 3]];
    let mut cnf = Cdcl::new(clauses);
    assert!(cnf.solve_not_recursive());
}

#[test]
fn test_unsat() {
    // (x1) and (not x1)
    let clauses = vec![vec![1], vec![-1]];
    let mut cnf = Cdcl::new(clauses);
    assert!(!cnf.solve_not_recursive());
}
