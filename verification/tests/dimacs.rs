use sat_solver::dimacs::parse_dimacs;
use sat_solver::solver::Solver;

fn random(seed: &mut u64) -> u64 {
    *seed = seed.wrapping_mul(6364136223846793005).wrapping_add(1442695040888963407);
    *seed >> 33
}

/// A random 3-SAT instance that the assignment `planted` satisfies.
fn planted_instance(n: usize, m: usize, seed0: u64) -> (String, Vec<bool>) {
    let mut seed = seed0;
    let planted: Vec<bool> = (0..n).map(|_| random(&mut seed) % 2 == 0).collect();
    let mut text = String::new();
    text.push_str("c a satisfiable instance\n");
    text.push_str(&format!("p cnf {} {}\n", n, m));
    let mut made = 0;
    while made < m {
        let mut lits: Vec<(usize, bool)> = Vec::new();
        while lits.len() < 3 {
            let v = (random(&mut seed) % n as u64) as usize;
            if lits.iter().all(|(w, _)| *w != v) {
                lits.push((v, random(&mut seed) % 2 == 0));
            }
        }
        if lits.iter().any(|(v, b)| planted[*v] == *b) {
            let line: Vec<String> = lits
                .iter()
                .map(|(v, b)| if *b { format!("{}", v + 1) } else { format!("-{}", v + 1) })
                .collect();
            text.push_str(&format!(" {} 0\n", line.join(" ")));
            made += 1;
        }
    }
    text.push_str("%\n0\n\n");
    (text, planted)
}

#[test]
fn header_comments_and_end_mark_are_honoured() {
    let text = "c comment 1 2 0\n7 8 0\np cnf 3 2\n1 -2 0\n\n  \t \n-3  x 0\n% ignored\n4 5 0\n";
    let clauses = parse_dimacs(text);
    assert_eq!(clauses.len(), 2);
    let first: Vec<(String, bool)> =
        clauses[0].iter().map(|l| (l.name.clone(), l.positive)).collect();
    assert_eq!(first, vec![("1".to_string(), true), ("2".to_string(), false)]);
    let second: Vec<(String, bool)> =
        clauses[1].iter().map(|l| (l.name.clone(), l.positive)).collect();
    assert_eq!(second, vec![("3".to_string(), false), ("x".to_string(), true)]);
}

#[test]
fn nothing_is_read_without_a_header() {
    assert_eq!(parse_dimacs("1 2 0\n-1 0\n").len(), 0);
    assert_eq!(parse_dimacs("").len(), 0);
}

#[test]
fn a_line_of_zero_alone_is_the_empty_clause() {
    let clauses = parse_dimacs("p cnf 1 1\n0\n");
    assert_eq!(clauses.len(), 1);
    assert_eq!(clauses[0].len(), 0);
    let mut solver = Solver::new();
    solver.load_cnf("p cnf 1 1\n0\n");
    let result = solver.solve();
    assert!(!result.sat);
}

#[test]
fn last_line_needs_no_line_break() {
    let clauses = parse_dimacs("p cnf 2 1\n1 -2");
    assert_eq!(clauses.len(), 1);
    assert_eq!(clauses[0].len(), 2);
    assert_eq!(clauses[0][1].name, "2");
    assert!(!clauses[0][1].positive);
}

#[test]
fn names_map_to_one_variable_each() {
    let mut solver = Solver::new();
    solver.load_cnf("p cnf 3 3\n1 -2 0\n2 3 0\n-1 -3 0\n");
    assert_eq!(solver.variables.len(), 3);
    assert_eq!(solver.connection_groups.len(), 3);
    let names: Vec<&str> = solver.variables.iter().map(|v| v.name.as_str()).collect();
    assert_eq!(names, vec!["1", "2", "3"]);
    assert_eq!(solver.variables[2].pos, 2);
    assert_eq!(solver.variable_connections[0], vec![0, 2]);
    assert_eq!(solver.variable_connections[1], vec![0, 1]);
    let last = &solver.connection_groups[2].connections;
    assert_eq!(solver.connections[last[0]].var_pos, 0);
    assert!(!solver.connections[last[0]].val);
    assert_eq!(solver.connections[last[1]].var_pos, 2);
    assert!(!solver.connections[last[1]].val);
}

#[test]
fn satisfiable_instances_of_twenty_variables_are_solved() {
    for seed in 0..40u64 {
        let (text, _) = planted_instance(20, 91, 1000 + seed);
        let mut solver = Solver::new();
        solver.load_cnf(&text);
        assert_eq!(solver.variables.len() <= 20, true);
        assert!(solver.connection_groups.len() == 91);
        let result = solver.solve();
        assert!(result.sat, "seed {}", seed);
        assert!(solver.final_check());
    }
}

/// A random 3-SAT instance with `m` clauses over `n` variables.
fn random_instance(n: usize, m: usize, seed0: u64) -> String {
    let mut seed = seed0;
    let mut text = format!("p cnf {} {}\n", n, m);
    for _ in 0..m {
        let mut lits: Vec<(usize, bool)> = Vec::new();
        while lits.len() < 3 {
            let v = (random(&mut seed) % n as u64) as usize;
            if lits.iter().all(|(w, _)| *w != v) {
                lits.push((v, random(&mut seed) % 2 == 0));
            }
        }
        for (v, b) in lits {
            text.push_str(&format!("{}{} ", if b { "" } else { "-" }, v + 1));
        }
        text.push_str("0\n");
    }
    text
}

#[test]
fn hard_instances_are_solved_across_restarts() {
    let mut restarted = 0;
    let mut satisfiable = 0;
    for seed in 0..8u64 {
        let text = random_instance(40, 170, 40000 + seed);
        let mut solver = Solver::new();
        solver.load_cnf(&text);
        assert_eq!(solver.connection_groups.len(), 170);
        let (result, search) = solver.search();
        assert_eq!(solver.connection_groups.len(), 170 + search.clauses_learned);
        assert!(search.learned_at_restart <= search.clauses_learned);
        if search.learned_at_restart > 0 {
            restarted += 1;
        }
        if result.sat {
            satisfiable += 1;
            assert!(solver.final_check());
        } else {
            assert_eq!(search.assigned.len(), 0);
            assert!(result.num_backtracks > 0);
        }
    }
    assert!(restarted > 0);
    assert!(satisfiable > 0);
    assert!(satisfiable < 8);
}

#[test]
fn five_pigeons_do_not_fit_four_holes() {
    let mut text = String::from("c variable 4 * p + h + 1: pigeon p sits in hole h\np cnf 20 45\n");
    for p in 0..5 {
        for h in 0..4 {
            text.push_str(&format!("{} ", 4 * p + h + 1));
        }
        text.push_str("0\n");
    }
    for h in 0..4 {
        for p in 0..5 {
            for q in (p + 1)..5 {
                text.push_str(&format!("-{} -{} 0\n", 4 * p + h + 1, 4 * q + h + 1));
            }
        }
    }
    let mut solver = Solver::new();
    solver.load_cnf(&text);
    assert_eq!(solver.variables.len(), 20);
    assert_eq!(solver.connection_groups.len(), 45);
    let (result, search) = solver.search();
    assert!(!result.sat);
    assert!(result.num_backtracks > 0);
    assert!(search.clauses_learned >= 20);
    assert!(search.learned_at_restart > 0);
}
