use procon::sat::{SatResult, SatSolver};

/// Slot of the positive literal of variable `v` among `n` variables.
fn pos(n: usize, v: usize) -> usize {
    n + v
}

/// Slot of the negative literal of variable `v` among `n` variables.
fn neg(n: usize, v: usize) -> usize {
    n - 1 - v
}

fn is_sat(r: &SatResult) -> bool {
    matches!(r, SatResult::Satisfiable(_))
}

/// A returned model makes at least one literal of each clause true.
fn model_satisfies(n: usize, clauses: &[Vec<usize>], model: &[bool]) -> bool {
    assert_eq!(model.len(), n);
    clauses.iter().all(|c| {
        c.iter().any(|&l| if l >= n { model[l - n] } else { !model[n - 1 - l] })
    })
}

#[test]
fn empty_formula_is_satisfiable() {
    for n in 0..5 {
        let mut solver = SatSolver::new(n);
        match solver.solve() {
            SatResult::Satisfiable(model) => assert_eq!(model.len(), n),
            SatResult::Unsatisfiable => panic!("empty formula reported unsatisfiable"),
        }
    }
}

#[test]
fn empty_clause_is_unsatisfiable() {
    let mut solver = SatSolver::new(3);
    solver.add_clause(vec![]);
    assert!(!is_sat(&solver.solve()));
}

#[test]
fn unit_contradiction() {
    let n = 1;
    let mut solver = SatSolver::new(n);
    solver.add_clause(vec![pos(n, 0)]);
    solver.add_clause(vec![neg(n, 0)]);
    assert!(!is_sat(&solver.solve()));
}

#[test]
fn trivial_satisfiable() {
    let n = 2;
    let clauses = vec![vec![pos(n, 0), pos(n, 1)], vec![neg(n, 0), pos(n, 1)]];
    let mut solver = SatSolver::new(n);
    for c in clauses.iter() {
        solver.add_clause(c.clone());
    }
    match solver.solve() {
        SatResult::Satisfiable(model) => {
            assert!(model_satisfies(n, &clauses, &model));
        }
        SatResult::Unsatisfiable => panic!("satisfiable formula reported unsatisfiable"),
    }
}

#[test]
fn resolve_same_clauses_same_verdict() {
    let n = 3;
    let clauses = vec![
        vec![pos(n, 0), neg(n, 1)],
        vec![pos(n, 1), neg(n, 2)],
        vec![neg(n, 0), pos(n, 2)],
    ];
    let mut first = SatSolver::new(n);
    let mut second = SatSolver::new(n);
    for c in clauses.iter() {
        first.add_clause(c.clone());
        second.add_clause(c.clone());
    }
    assert_eq!(is_sat(&first.solve()), is_sat(&second.solve()));
}

/// Clauses saying `n` pigeons sit in `n - 1` holes, no two in one hole.
fn pigeonhole(pigeons: usize) -> (usize, Vec<Vec<usize>>) {
    let holes = pigeons - 1;
    let nvars = pigeons * holes;
    let var = |p: usize, h: usize| p * holes + h;
    let mut clauses = Vec::new();
    for p in 0..pigeons {
        clauses.push((0..holes).map(|h| pos(nvars, var(p, h))).collect());
    }
    for h in 0..holes {
        for p1 in 0..pigeons {
            for p2 in (p1 + 1)..pigeons {
                clauses.push(vec![neg(nvars, var(p1, h)), neg(nvars, var(p2, h))]);
            }
        }
    }
    (nvars, clauses)
}

#[test]
fn pigeonhole_unsatisfiable() {
    let (nvars, clauses) = pigeonhole(5);
    let mut solver = SatSolver::new(nvars);
    for c in clauses {
        solver.add_clause(c);
    }
    assert!(!is_sat(&solver.solve()));
}

#[test]
fn satisfiable_model_checks_out() {
    // an assorted satisfiable instance; only the model's validity matters
    let n = 4;
    let clauses = vec![
        vec![pos(n, 0), pos(n, 1), pos(n, 2)],
        vec![neg(n, 0), pos(n, 3)],
        vec![neg(n, 1), neg(n, 3)],
        vec![pos(n, 2), neg(n, 2)],
        vec![neg(n, 2), pos(n, 0), pos(n, 1)],
    ];
    let mut solver = SatSolver::new(n);
    for c in clauses.iter() {
        solver.add_clause(c.clone());
    }
    match solver.solve() {
        SatResult::Satisfiable(model) => {
            assert!(model_satisfies(n, &clauses, &model));
        }
        SatResult::Unsatisfiable => panic!("satisfiable formula reported unsatisfiable"),
    }
}

#[test]
fn duplicate_literals_are_permitted() {
    let n = 2;
    let clauses = vec![vec![pos(n, 0), pos(n, 0)], vec![neg(n, 0), neg(n, 0), pos(n, 1)]];
    let mut solver = SatSolver::new(n);
    for c in clauses.iter() {
        solver.add_clause(c.clone());
    }
    match solver.solve() {
        SatResult::Satisfiable(model) => {
            assert!(model_satisfies(n, &clauses, &model));
        }
        SatResult::Unsatisfiable => panic!("satisfiable formula reported unsatisfiable"),
    }
}

#[test]
fn push_pop_round_trip_via_solve() {
    // a chain that forces backtracking before the answer is found
    let n = 6;
    let mut clauses = Vec::new();
    for v in 0..(n - 1) {
        clauses.push(vec![neg(n, v), pos(n, v + 1)]);
    }
    clauses.push(vec![neg(n, n - 1), neg(n, 0)]);
    clauses.push(vec![pos(n, 0), pos(n, 1)]);
    let mut solver = SatSolver::new(n);
    for c in clauses.iter() {
        solver.add_clause(c.clone());
    }
    match solver.solve() {
        SatResult::Satisfiable(model) => {
            assert!(model_satisfies(n, &clauses, &model));
        }
        SatResult::Unsatisfiable => panic!("satisfiable formula reported unsatisfiable"),
    }
}
