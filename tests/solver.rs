use dpll_sat::simplifier::simplify_formula;
use dpll_sat::solver::{solve, Status};

fn satisfies(model: &[i32], formula: &[Vec<i32>]) -> bool {
    formula.iter().all(|c| c.iter().any(|l| model.contains(l)))
}

fn no_variable_twice(model: &[i32]) -> bool {
    for (i, a) in model.iter().enumerate() {
        for b in &model[i + 1..] {
            if a.abs() == b.abs() {
                return false;
            }
        }
    }
    true
}

fn brute_force_satisfiable(formula: &[Vec<i32>], vars: u32) -> bool {
    (0u32..(1 << vars)).any(|bits| {
        formula.iter().all(|c| {
            c.iter().any(|&l| {
                let v = l.unsigned_abs() - 1;
                let value = bits & (1 << v) != 0;
                if l > 0 { value } else { !value }
            })
        })
    })
}

fn check_against_brute_force(formula: Vec<Vec<i32>>, vars: u32) {
    let expected = brute_force_satisfiable(&formula, vars);
    match solve(formula.clone()) {
        Status::Sat(m) => {
            assert!(expected);
            assert!(satisfies(&m, &formula));
            assert!(no_variable_twice(&m));
        }
        Status::Unsat => assert!(!expected),
    }
}

#[test]
fn example_formula_is_satisfiable() {
    let f = vec![vec![1, 2], vec![1, 3], vec![-1, -2], vec![-3, 2]];
    match solve(f.clone()) {
        Status::Sat(m) => {
            assert!(satisfies(&m, &f));
            assert!(no_variable_twice(&m));
        }
        Status::Unsat => panic!("expected a model"),
    }
}

#[test]
fn example_formula_model_follows_pivot_rule() {
    let f = vec![vec![1, 2], vec![1, 3], vec![-1, -2], vec![-3, 2]];
    assert_eq!(solve(f), Status::Sat(vec![-2, -3, 1]));
}

#[test]
fn contradiction_is_unsatisfiable() {
    assert_eq!(solve(vec![vec![1], vec![-1]]), Status::Unsat);
}

#[test]
fn empty_formula_is_satisfiable_with_empty_model() {
    assert_eq!(solve(vec![]), Status::Sat(vec![]));
}

#[test]
fn single_empty_clause_is_unsatisfiable() {
    assert_eq!(solve(vec![vec![]]), Status::Unsat);
}

#[test]
fn single_unit_clause() {
    assert_eq!(solve(vec![vec![1]]), Status::Sat(vec![1]));
}

#[test]
fn empty_clause_wins_over_other_clauses() {
    assert_eq!(solve(vec![vec![1, 2], vec![3], vec![], vec![-1]]), Status::Unsat);
}

#[test]
fn repeated_calls_agree() {
    let f = vec![vec![1, -2, 3], vec![-1, 2], vec![2, -3], vec![-2, -3, 4]];
    let a = solve(f.clone());
    let b = solve(f);
    assert_eq!(a, b);
}

#[test]
fn propagation_then_branch_order() {
    // Unit 5 is forced; then the pivot 1 is tried true.
    let f = vec![vec![5], vec![1, 2], vec![-1, -2]];
    assert_eq!(solve(f), Status::Sat(vec![-2, 5, 1]));
}

#[test]
fn false_branch_is_taken_when_true_branch_fails() {
    let f = vec![vec![1, 2], vec![-1, 2], vec![-1, -2]];
    assert_eq!(solve(f), Status::Sat(vec![2, -1]));
}

#[test]
fn pigeonhole_three_into_two_is_unsatisfiable() {
    // variable 2 * p + h - 2 : pigeon p (1..=3) sits in hole h (1..=2)
    let v = |p: i32, h: i32| 2 * p + h - 2;
    let mut f = Vec::new();
    for p in 1..=3 {
        f.push(vec![v(p, 1), v(p, 2)]);
    }
    for h in 1..=2 {
        for p in 1..=3 {
            for q in (p + 1)..=3 {
                f.push(vec![-v(p, h), -v(q, h)]);
            }
        }
    }
    assert_eq!(solve(f.clone()), Status::Unsat);
    assert!(!brute_force_satisfiable(&f, 6));
}

#[test]
fn agrees_with_truth_tables() {
    let cases: Vec<Vec<Vec<i32>>> = vec![
        vec![vec![1, 2, 3], vec![-1, -2], vec![-2, -3], vec![-1, -3], vec![1, -2], vec![2, -3]],
        vec![vec![1, 2], vec![-1, 2], vec![1, -2], vec![-1, -2]],
        vec![vec![1, 2, 3], vec![-1, 2, 3], vec![1, -2, 3], vec![1, 2, -3], vec![-1, -2, -3]],
        vec![vec![1, -1], vec![2, -2]],
        vec![vec![1, 1, 2], vec![-1, -1], vec![-2, 3], vec![-3, -2]],
        vec![vec![4, -3], vec![3, -2], vec![2, -1], vec![1, -4], vec![1, 2, 3, 4], vec![-1, -2]],
    ];
    for f in cases {
        check_against_brute_force(f, 4);
    }
}

#[test]
fn simplify_drops_satisfied_clauses_and_removes_negation() {
    let f = vec![vec![1, 2], vec![-1, 3, -1], vec![2, 3], vec![-1]];
    let r = simplify_formula(&f, 1);
    assert_eq!(r, vec![vec![3], vec![2, 3], vec![]]);
    assert_eq!(f, vec![vec![1, 2], vec![-1, 3, -1], vec![2, 3], vec![-1]]);
}

#[test]
fn simplify_with_negative_literal() {
    let f = vec![vec![1, 2], vec![-1, 3], vec![4, 1, 5]];
    assert_eq!(simplify_formula(&f, -1), vec![vec![2], vec![4, 5]]);
}

#[test]
fn simplify_can_empty_the_formula() {
    let f = vec![vec![2], vec![2, -3]];
    assert_eq!(simplify_formula(&f, 2), Vec::<Vec<i32>>::new());
}

#[test]
fn simplify_keeps_untouched_clauses_and_order() {
    let f = vec![vec![3, 4], vec![-5, 6], vec![7]];
    assert_eq!(simplify_formula(&f, 9), f);
}

#[test]
fn simplify_never_leaves_the_literal() {
    let f = vec![vec![1, -2], vec![2, 3], vec![-2, 4], vec![2]];
    let r = simplify_formula(&f, -2);
    assert!(r.iter().all(|c| !c.contains(&-2) && !c.contains(&2)));
    assert_eq!(r, vec![vec![3], vec![]]);
}
