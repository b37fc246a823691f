use sat_solver::connections::Connection;
use sat_solver::solver::Solver;

fn next(seed: &mut u64) -> u64 {
    *seed = seed.wrapping_mul(6364136223846793005).wrapping_add(1442695040888963407);
    *seed >> 33
}

fn satisfiable(n: usize, clauses: &Vec<Vec<(usize, bool)>>) -> bool {
    for bits in 0u32..(1u32 << n) {
        if clauses.iter().all(|c| c.iter().any(|(v, b)| (bits & (1 << v) != 0) == *b)) {
            return true;
        }
    }
    false
}

fn run(seed0: u64, rounds: usize, maxn: u64, maxm: u64, maxlen: u64) {
    let mut seed = seed0;
    let mut unsat = 0;
    for round in 0..rounds {
        let n = 2 + (next(&mut seed) % maxn) as usize;
        let m = 1 + (next(&mut seed) % maxm) as usize;
        let mut clauses: Vec<Vec<(usize, bool)>> = Vec::new();
        for _ in 0..m {
            let len = 1 + (next(&mut seed) % maxlen) as usize;
            let mut c = Vec::new();
            for _ in 0..len {
                c.push(((next(&mut seed) % n as u64) as usize, next(&mut seed) % 2 == 0));
            }
            clauses.push(c);
        }
        let mut solver = Solver::new();
        for v in 0..n {
            solver.add_variable(format!("v{}", v));
        }
        for c in clauses.iter() {
            let lits: Vec<Connection> = c.iter().map(|(v, b)| Connection::new(*v, *b)).collect();
            solver.add_connection_group(&lits);
        }
        let (result, _) = solver.search();
        let expect = satisfiable(n, &clauses);
        if !expect {
            unsat += 1;
        }
        assert_eq!(result.sat, expect, "seed {} round {}: n={} {:?}", seed0, round, n, clauses);
        if result.sat {
            for c in clauses.iter() {
                assert!(c.iter().any(|(v, b)| solver.variables[*v].value != Some(!*b)));
            }
            assert!(solver.final_check());
        }
    }
    assert!(unsat > rounds / 20);
}

#[test]
fn answers_match_exhaustive_search_on_small_formulas() { run(1, 6000, 8, 40, 3); }
#[test]
fn answers_match_exhaustive_search_on_wide_clauses() { run(2, 3000, 10, 60, 4); }
#[test]
fn answers_match_exhaustive_search_on_dense_formulas() { run(3, 6000, 6, 25, 3); }
#[test]
fn answers_match_exhaustive_search_on_eleven_variables() { run(4, 1500, 11, 50, 3); }
