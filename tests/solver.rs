use cdcl_sat::analysis::analyze;
use cdcl_sat::assignment::Assignment;
use cdcl_sat::cdclcnf::Cdcl;
use cdcl_sat::clause::{canonical_clause, load_clauses};
use cdcl_sat::cnf::{lit_index, Cnf, INITIAL_INCREMENT};

fn holds(values: &[Option<bool>], clause: &[i32]) -> bool {
    clause.iter().any(|&l| {
        let v = values[(l.unsigned_abs() - 1) as usize].unwrap_or(false);
        if l > 0 {
            v
        } else {
            !v
        }
    })
}

fn solve_cnf(clauses: Vec<Vec<i32>>) -> (bool, Cnf) {
    let mut s = Cnf::new(clauses);
    let r = s.solve_cdcl();
    (r, s)
}

fn solve_cdcl(clauses: Vec<Vec<i32>>) -> (bool, Cdcl) {
    let mut s = Cdcl::new(clauses);
    let r = s.solve_not_recursive();
    (r, s)
}

/// Every assignment of `n` variables, as value vectors.
fn all_assignments(n: usize) -> Vec<Vec<Option<bool>>> {
    (0..(1u32 << n))
        .map(|bits| (0..n).map(|i| Some(bits & (1 << i) != 0)).collect())
        .collect()
}

#[test]
fn three_clauses_are_satisfiable() {
    let clauses = vec![vec![1, 2], vec![-1, 2], vec![-2, 3]];
    let (r, s) = solve_cnf(clauses.clone());
    assert!(r);
    for c in &clauses {
        assert!(holds(&s.assignment.values, c));
    }
    let (r, s) = solve_cdcl(clauses.clone());
    assert!(r);
    for c in &clauses {
        assert!(holds(&s.assignment.values, c));
    }
}

#[test]
fn opposite_units_are_unsatisfiable() {
    assert!(!solve_cnf(vec![vec![1], vec![-1]]).0);
    assert!(!solve_cdcl(vec![vec![1], vec![-1]]).0);
}

#[test]
fn forced_all_false_refutes_the_wide_clause() {
    // not 3, 2 -> 3 and 1 -> 2 force every variable false, which falsifies (1 or 2 or 3)
    let clauses = vec![vec![1, 2, 3], vec![-1, 2], vec![-2, 3], vec![-3]];
    let (r, s) = solve_cnf(clauses.clone());
    assert!(!r);
    let (r2, _) = solve_cdcl(clauses);
    assert_eq!(r, r2);
    assert_eq!(s.assignment.values.len(), 3);
}

#[test]
fn forced_model_without_first_clause() {
    let clauses = vec![vec![-1, 2], vec![-2, 3], vec![-3]];
    let (r, s) = solve_cnf(clauses.clone());
    assert!(r);
    assert_eq!(s.assignment.values, vec![Some(false), Some(false), Some(false)]);
    let (r, s) = solve_cdcl(clauses);
    assert!(r);
    assert_eq!(s.assignment.values, vec![Some(false), Some(false), Some(false)]);
}

#[test]
fn two_variable_contradiction_is_unsatisfiable() {
    let clauses = vec![vec![1, 2], vec![1, -2], vec![-1, 2], vec![-1, -2]];
    assert!(!solve_cnf(clauses.clone()).0);
    assert!(!solve_cdcl(clauses).0);
}

#[test]
fn tautology_is_removed_on_load() {
    let s = Cnf::new(vec![vec![1, -1, 2]]);
    assert_eq!(s.clauses.len(), 0);
    assert!(solve_cnf(vec![vec![1, -1, 2]]).0);
    let s = Cdcl::new(vec![vec![1, -1, 2]]);
    assert_eq!(s.clauses.len(), 0);
    assert!(solve_cdcl(vec![vec![1, -1, 2]]).0);
}

#[test]
fn empty_input_has_empty_model() {
    let (r, s) = solve_cnf(vec![]);
    assert!(r);
    assert!(s.assignment.values.is_empty());
    let (r, s) = solve_cdcl(vec![]);
    assert!(r);
    assert!(s.assignment.values.is_empty());
}

#[test]
fn empty_clause_is_unsatisfiable() {
    assert!(!solve_cnf(vec![vec![1, 2], vec![]]).0);
    assert!(!solve_cdcl(vec![vec![1, 2], vec![]]).0);
}

#[test]
fn load_sorts_and_deduplicates() {
    let (loaded, n) = load_clauses(&vec![vec![3, -1, 2, 3], vec![2, -2], vec![5]]);
    assert_eq!(loaded, vec![vec![-1, 2, 3], vec![5]]);
    assert_eq!(n, 5);
    assert_eq!(canonical_clause(&vec![4, -4]), None);
    assert_eq!(canonical_clause(&vec![2, 2, -7]), Some(vec![-7, 2]));
}

#[test]
fn pigeonhole_three_into_two_is_unsatisfiable() {
    // pigeon p in hole h is variable 2 * p + h + 1
    let mut clauses = vec![];
    for p in 0..3 {
        clauses.push(vec![2 * p + 1, 2 * p + 2]);
    }
    for h in 0..2 {
        for p in 0..3 {
            for q in (p + 1)..3 {
                clauses.push(vec![-(2 * p + h + 1), -(2 * q + h + 1)]);
            }
        }
    }
    assert!(!solve_cnf(clauses.clone()).0);
    assert!(!solve_cdcl(clauses).0);
}

/// Small formulas whose answers are checked against every assignment.
fn sample_formulas() -> Vec<Vec<Vec<i32>>> {
    vec![
        vec![vec![1, 2, -3], vec![-1, 3], vec![-2, 3], vec![3, 4], vec![-4, -3, 1]],
        vec![vec![1, 2], vec![-1, 3], vec![-2, 3], vec![-3, 4], vec![-4, -1], vec![-4, -2]],
        vec![vec![1, -2, 3], vec![-1, 2], vec![2, -3], vec![-2, -3, 4], vec![-4, 1], vec![-1, -4, 5], vec![-5, -2]],
        vec![vec![1, 2, 3], vec![-1, -2], vec![-2, -3], vec![-1, -3], vec![1, -2], vec![2, -3], vec![3, -1]],
        vec![vec![-1, -2, 3], vec![1, -3], vec![2, -3], vec![-1, 2, 4], vec![-4, -5], vec![5, 1], vec![-2, 5, 6], vec![-6, 3]],
    ]
}

#[test]
fn answers_match_exhaustive_search() {
    for f in sample_formulas() {
        let n = f.iter().flatten().map(|l| l.unsigned_abs() as usize).max().unwrap();
        let expected = all_assignments(n).iter().any(|m| f.iter().all(|c| holds(m, c)));
        let (r, s) = solve_cnf(f.clone());
        assert_eq!(r, expected);
        if r {
            assert!(f.iter().all(|c| holds(&s.assignment.values, c)));
        }
        let (r, s) = solve_cdcl(f.clone());
        assert_eq!(r, expected);
        if r {
            assert!(f.iter().all(|c| holds(&s.assignment.values, c)));
        }
    }
}

#[test]
fn learned_clauses_follow_from_the_problem() {
    for f in sample_formulas() {
        let n = f.iter().flatten().map(|l| l.unsigned_abs() as usize).max().unwrap();
        let (_, s) = solve_cnf(f.clone());
        let models: Vec<_> = all_assignments(n).into_iter().filter(|m| f.iter().all(|c| holds(m, c))).collect();
        for c in &s.clauses {
            for m in &models {
                assert!(holds(m, c));
            }
        }
    }
}

#[test]
fn trail_levels_and_reasons_are_consistent() {
    for f in sample_formulas() {
        let (r, s) = solve_cnf(f);
        if !r {
            continue;
        }
        let a = &s.assignment;
        let mut prev = 0u32;
        for (j, &l) in a.trail.iter().enumerate() {
            let v = (l.unsigned_abs() - 1) as usize;
            let level = a.levels[v].unwrap();
            assert!(level >= prev);
            let first_of_level = j == 0 && level > 0 || j > 0 && level > prev;
            assert_eq!(a.reasons[v].is_none(), first_of_level);
            if let Some(rc) = a.reasons[v] {
                let clause = &s.clauses[rc];
                assert!(clause.contains(&l));
                for &x in clause {
                    if x != l {
                        assert!(a.trail[..j].contains(&-x));
                    }
                }
            }
            prev = level;
        }
    }
}

#[test]
fn solving_twice_gives_the_same_result() {
    for f in sample_formulas() {
        let (r1, s1) = solve_cnf(f.clone());
        let (r2, s2) = solve_cnf(f.clone());
        assert_eq!(r1, r2);
        assert_eq!(s1.assignment.values, s2.assignment.values);
        assert_eq!(s1.assignment.trail, s2.assignment.trail);
        assert_eq!(s1.clauses, s2.clauses);
    }
}

#[test]
fn model_as_units_solves_to_the_same_model() {
    let f = sample_formulas()[0].clone();
    let (r, s) = solve_cnf(f.clone());
    assert!(r);
    let mut g = f.clone();
    for (i, v) in s.assignment.values.iter().enumerate() {
        let var = (i + 1) as i32;
        g.push(vec![if v.unwrap() { var } else { -var }]);
    }
    let (r2, s2) = solve_cnf(g);
    assert!(r2);
    assert_eq!(s.assignment.values, s2.assignment.values);
}

#[test]
fn first_uip_learns_negated_decision() {
    // 1 implies 2 and 3, which clash
    let clauses = vec![vec![-1, 2], vec![-1, 3], vec![-2, -3]];
    let mut a = Assignment::new(3);
    a.decide(1);
    a.imply(2, 0, &clauses);
    a.imply(3, 1, &clauses);
    let (learned, bjl, asserting) = analyze(&clauses, &a, 2, 1);
    assert_eq!(learned, vec![-1]);
    assert_eq!(bjl, 0);
    assert_eq!(asserting, -1);
}

#[test]
fn first_uip_keeps_lower_level_literals() {
    // decide 1 at level 1, decide 2 at level 2; 2 and 1 imply 3 and 4, which clash
    let clauses = vec![vec![-2, -1, 3], vec![-2, 4], vec![-3, -4]];
    let mut a = Assignment::new(4);
    a.decide(1);
    a.decide(2);
    a.imply(3, 0, &clauses);
    a.imply(4, 1, &clauses);
    let (learned, bjl, asserting) = analyze(&clauses, &a, 2, 2);
    assert_eq!(learned, vec![-2, -1]);
    assert_eq!(bjl, 1);
    assert_eq!(asserting, -2);
}

#[test]
fn backtrack_keeps_lower_levels_and_phases() {
    let clauses = vec![vec![-1, 2]];
    let mut a = Assignment::new(3);
    a.decide(1);
    a.imply(2, 0, &clauses);
    a.decide(-3);
    assert_eq!(a.current_level, 2);
    a.backtrack_to_level(1);
    assert_eq!(a.trail, vec![1, 2]);
    assert_eq!(a.current_level, 1);
    assert_eq!(a.value(3), None);
    assert_eq!(a.value(-2), Some(false));
    assert_eq!(a.phases, vec![true, true, false]);
    a.backtrack_to_level(0);
    assert!(a.trail.is_empty());
    assert_eq!(a.get_level(1), None);
}

#[test]
fn vsids_bump_and_decay_values() {
    let mut s = Cnf::new(vec![vec![1, 2], vec![-1, 3]]);
    assert_eq!(s.activity_increment, INITIAL_INCREMENT);
    s.bump_vsids(1);
    assert_eq!(s.activity, vec![0, 1048576, 0]);
    s.decay_vsids();
    assert_eq!(s.activity_increment, 1048576 + 1048576 / 19);
    s.bump_vsids(1);
    s.bump_vsids(2);
    assert_eq!(s.activity, vec![0, 1048576 + 1103764, 1103764]);
}

#[test]
fn vsids_rescales_past_the_limit() {
    let mut s = Cnf::new(vec![vec![1, 2]]);
    s.activity[0] = 1 << 60;
    s.activity[1] = 1 << 40;
    s.bump_vsids(0);
    assert_eq!(s.activity, vec![((1u64 << 60) + 1048576) >> 30, 1 << 10]);
    assert_eq!(s.activity_increment, 1);
}

#[test]
fn decision_takes_highest_score_and_saved_phase() {
    let mut s = Cnf::new(vec![vec![1, 2, 3]]);
    assert_eq!(s.choose_unassigned_literal(), Some(1));
    s.bump_vsids(2);
    assert_eq!(s.choose_unassigned_literal(), Some(3));
    s.assignment.decide(-3);
    s.assignment.backtrack_to_level(0);
    assert_eq!(s.choose_unassigned_literal(), Some(-3));
}

#[test]
fn scan_decision_takes_first_unassigned_literal() {
    let mut s = Cdcl::new(vec![vec![-2, 1], vec![3]]);
    assert_eq!(s.choose_unassigned_literal(), Some(-2));
    s.assignment.decide(2);
    assert_eq!(s.choose_unassigned_literal(), Some(1));
}

#[test]
fn literal_slots() {
    assert_eq!(lit_index(1), 0);
    assert_eq!(lit_index(-1), 1);
    assert_eq!(lit_index(4), 6);
    assert_eq!(lit_index(-4), 7);
}

#[test]
fn watched_literals_are_not_both_false_after_propagation() {
    for f in sample_formulas() {
        let (r, s) = solve_cnf(f);
        if !r {
            continue;
        }
        assert_eq!(s.head, s.assignment.trail.len());
        for (c, clause) in s.clauses.iter().enumerate() {
            let (p0, p1) = s.watched[c];
            let false0 = s.assignment.value(clause[p0]) == Some(false);
            let false1 = s.assignment.value(clause[p1]) == Some(false);
            assert!(!(false0 && false1));
            assert!(s.watchers[lit_index(clause[p0])].contains(&c));
            assert!(s.watchers[lit_index(clause[p1])].contains(&c));
        }
    }
}

#[test]
fn sat_sets_every_variable() {
    for f in [vec![vec![1, -1, 2]], vec![vec![3]], vec![vec![1, 2], vec![-1, 2], vec![-2, 3]]] {
        let (r, s) = solve_cdcl(f.clone());
        assert!(r);
        assert!(s.assignment.values.iter().all(|v| v.is_some()));
        for c in &f {
            assert!(c.iter().any(|&l| s.assignment.value(l) == Some(true)));
        }
        let (r, s) = solve_cnf(f.clone());
        assert!(r);
        assert!(s.assignment.values.iter().all(|v| v.is_some()));
        for c in &f {
            assert!(c.iter().any(|&l| s.assignment.value(l) == Some(true)));
        }
    }
    let (_, s) = solve_cdcl(vec![vec![3]]);
    assert_eq!(s.assignment.values, vec![Some(true), Some(true), Some(true)]);
}

#[test]
fn scan_decision_falls_back_to_lowest_free_variable() {
    let mut s = Cdcl::new(vec![vec![3]]);
    s.assignment.decide(3);
    assert_eq!(s.choose_unassigned_literal(), Some(1));
    s.assignment.decide(1);
    assert_eq!(s.choose_unassigned_literal(), Some(2));
    s.assignment.decide(-2);
    assert_eq!(s.choose_unassigned_literal(), None);
}

#[test]
fn solving_keeps_loaded_clauses_as_prefix() {
    for f in sample_formulas() {
        let before = Cnf::new(f.clone()).clauses;
        let (_, s) = solve_cnf(f.clone());
        assert_eq!(&s.clauses[..before.len()], &before[..]);
        assert_eq!(s.num_loaded, before.len());
        let before = Cdcl::new(f.clone()).clauses;
        let (_, s) = solve_cdcl(f);
        assert_eq!(&s.clauses[..before.len()], &before[..]);
    }
}

#[test]
fn new_watches_first_two_positions() {
    let s = Cnf::new(vec![vec![4, 2, 3], vec![5], vec![-1, 2]]);
    assert_eq!(s.watched, vec![(0, 1), (0, 0), (0, 1)]);
    assert_eq!(s.head, 0);
}

#[test]
fn index_lists_clauses_only_under_watched_literals() {
    for f in sample_formulas() {
        let (_, s) = solve_cnf(f);
        for (x, list) in s.watchers.iter().enumerate() {
            for &c in list {
                let (p0, p1) = s.watched[c];
                let clause = &s.clauses[c];
                assert!(lit_index(clause[p0]) == x || lit_index(clause[p1]) == x);
            }
        }
        for (c, clause) in s.clauses.iter().enumerate() {
            if clause.len() >= 2 {
                assert_ne!(s.watched[c].0, s.watched[c].1);
            }
        }
    }
}

#[test]
fn learned_clause_bumps_each_variable_then_decays() {
    // a conflict in the pigeonhole formula triggers learning
    let mut s = Cnf::new(vec![vec![1, 2], vec![1, -2], vec![-1, 2], vec![-1, -2]]);
    assert!(!s.solve_cdcl());
    assert!(s.activity_increment > INITIAL_INCREMENT);
    assert!(s.activity.iter().any(|&a| a >= INITIAL_INCREMENT));
}
