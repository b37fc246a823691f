use sat_solver::connections::Connection;
use sat_solver::solver::Solver;

fn build(names: &[&str], clauses: &[&[(usize, bool)]]) -> Solver {
    let mut solver = Solver::new();
    for name in names {
        solver.add_variable(name.to_string());
    }
    for clause in clauses {
        let lits: Vec<Connection> = clause.iter().map(|(v, b)| Connection::new(*v, *b)).collect();
        solver.add_connection_group(&lits);
    }
    solver
}

fn holds(clauses: &[&[(usize, bool)]], values: &[bool]) -> bool {
    clauses.iter().all(|c| c.iter().any(|(v, b)| values[*v] == *b))
}

fn satisfiable(n: usize, clauses: &[&[(usize, bool)]]) -> bool {
    for bits in 0u32..(1u32 << n) {
        let values: Vec<bool> = (0..n).map(|v| bits & (1 << v) != 0).collect();
        if holds(clauses, &values) {
            return true;
        }
    }
    false
}

#[test]
fn single_unit_is_satisfied_without_backtracks() {
    let mut solver = build(&["x"], &[&[(0, true)]]);
    let (result, search) = solver.search();
    assert!(result.sat);
    assert_eq!(result.num_backtracks, 0);
    assert_eq!(solver.variables[0].value, Some(true));
    assert_eq!(search.assigned, vec![0]);
    assert!(search.antecedents[0].is_uc);
}

#[test]
fn two_variable_formula_is_unsatisfiable() {
    let mut solver = build(
        &["a", "b"],
        &[&[(0, true)], &[(0, false)], &[(1, true), (1, false)]],
    );
    let result = solver.solve();
    assert!(!result.sat);
}

#[test]
fn chain_is_propagated_at_level_zero() {
    let mut solver = build(
        &["a", "b", "c"],
        &[&[(0, true)], &[(0, false), (1, true)], &[(1, false), (2, true)]],
    );
    let (result, search) = solver.search();
    assert!(result.sat);
    assert_eq!(solver.variables[0].value, Some(true));
    assert_eq!(solver.variables[1].value, Some(true));
    assert_eq!(solver.variables[2].value, Some(true));
    assert_eq!(search.assigned.len(), 3);
    for i in 0..3 {
        assert!(search.antecedents[i].is_uc);
        assert_eq!(search.antecedents[i].d, 0);
    }
    assert_eq!(result.num_backtracks, 0);
}

#[test]
fn pigeonhole_three_in_two_is_unsatisfiable() {
    // variable 2 * p + h: pigeon p sits in hole h
    let clauses: Vec<Vec<(usize, bool)>> = vec![
        vec![(0, true), (1, true)],
        vec![(2, true), (3, true)],
        vec![(4, true), (5, true)],
        vec![(0, false), (2, false)],
        vec![(0, false), (4, false)],
        vec![(2, false), (4, false)],
        vec![(1, false), (3, false)],
        vec![(1, false), (5, false)],
        vec![(3, false), (5, false)],
    ];
    let refs: Vec<&[(usize, bool)]> = clauses.iter().map(|c| c.as_slice()).collect();
    let mut solver = build(&["p0h0", "p0h1", "p1h0", "p1h1", "p2h0", "p2h1"], &refs);
    let result = solver.solve();
    assert!(!result.sat);
    assert!(result.num_backtracks > 0);
    assert!(!satisfiable(6, &refs));
}

#[test]
fn tautology_survives() {
    let mut solver = build(&["a", "b"], &[&[(0, true), (0, false)], &[(1, true)]]);
    let result = solver.solve();
    assert!(result.sat);
    assert_eq!(solver.variables[1].value, Some(true));
    assert!(solver.final_check());
}

fn next(seed: &mut u64) -> u64 {
    *seed = seed.wrapping_mul(6364136223846793005).wrapping_add(1442695040888963407);
    *seed >> 33
}

#[test]
fn answers_agree_with_exhaustive_search() {
    let mut seed: u64 = 12345;
    for round in 0..400 {
        let n = 3 + (next(&mut seed) % 6) as usize;
        let m = 2 + (next(&mut seed) % 30) as usize;
        let mut clauses: Vec<Vec<(usize, bool)>> = Vec::new();
        for _ in 0..m {
            let len = 1 + (next(&mut seed) % 3) as usize;
            let mut c = Vec::new();
            for _ in 0..len {
                c.push(((next(&mut seed) % n as u64) as usize, next(&mut seed) % 2 == 0));
            }
            clauses.push(c);
        }
        let refs: Vec<&[(usize, bool)]> = clauses.iter().map(|c| c.as_slice()).collect();
        let names: Vec<String> = (0..n).map(|v| format!("v{}", v)).collect();
        let name_refs: Vec<&str> = names.iter().map(|s| s.as_str()).collect();
        let mut solver = build(&name_refs, &refs);
        let result = solver.solve();
        assert_eq!(result.sat, satisfiable(n, &refs), "round {}: {:?}", round, clauses);
        if result.sat {
            assert!(solver.final_check());
            let values: Vec<bool> = solver.variables.iter().map(|v| v.value.unwrap()).collect();
            assert!(holds(&refs, &values));
        }
    }
}

#[test]
fn unit_propagation_alone_takes_nothing_back() {
    let mut seed = 5;
    for round in 0..200 {
        let n = 2 + (next(&mut seed) % 30) as usize;
        let values: Vec<bool> = (0..n).map(|_| next(&mut seed) % 2 == 0).collect();
        let mut order: Vec<usize> = (0..n).collect();
        for i in (1..n).rev() {
            order.swap(i, (next(&mut seed) % (i as u64 + 1)) as usize);
        }
        let mut clauses: Vec<Vec<Connection>> = Vec::new();
        for i in 0..n {
            let mut lits = vec![Connection::new(order[i], values[order[i]])];
            for _ in 0..(next(&mut seed) % 3).min(i as u64) {
                let w = order[(next(&mut seed) % i as u64) as usize];
                if lits.iter().all(|l| l.var_pos != w) {
                    lits.push(Connection::new(w, !values[w]));
                }
            }
            let at = (next(&mut seed) % (lits.len() as u64)) as usize;
            lits.swap(0, at);
            clauses.push(lits);
        }
        for i in (1..n).rev() {
            clauses.swap(i, (next(&mut seed) % (i as u64 + 1)) as usize);
        }
        let mut solver = Solver::new();
        for v in 0..n {
            solver.add_variable(format!("{}", v + 1));
        }
        for lits in &clauses {
            solver.add_connection_group(lits);
        }
        solver.backtracks = round;
        let result = solver.solve();
        assert!(result.sat);
        assert_eq!(result.num_backtracks, round as u64);
        for v in 0..n {
            assert_eq!(solver.variables[v].value, Some(values[v]));
        }
        assert!(solver.final_check());
    }
}

#[test]
fn an_unsatisfiable_answer_has_taken_something_back() {
    let mut solver = build(&["a", "b"], &[&[(0, true)], &[(0, false)], &[(1, true), (1, false)]]);
    solver.backtracks = 7;
    let result = solver.solve();
    assert!(!result.sat);
    assert!(result.num_backtracks > 7);
    assert!(!solver.final_check());
    let mut empty = build(&["a"], &[&[], &[(0, true)]]);
    let result = empty.solve();
    assert!(!result.sat);
    assert_eq!(result.num_backtracks, 0);
}
