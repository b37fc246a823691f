use sat_solver::connections::Connection;
use sat_solver::search::Search;
use sat_solver::solver::Solver;
use sat_solver::sat_linked_hash_set::NIL;
use std::collections::BTreeSet;

fn random(seed: &mut u64) -> u64 {
    *seed = seed.wrapping_mul(6364136223846793005).wrapping_add(1442695040888963407);
    *seed >> 33
}

fn build(n: usize, clauses: &Vec<Vec<(usize, bool)>>) -> Solver {
    let mut solver = Solver::new();
    for v in 0..n {
        solver.add_variable(format!("{}", v + 1));
    }
    for clause in clauses {
        let lits: Vec<Connection> = clause.iter().map(|(v, b)| Connection::new(*v, *b)).collect();
        solver.add_connection_group(&lits);
    }
    solver
}

fn literals(solver: &Solver, k: usize) -> Vec<Connection> {
    solver.connection_groups[k].connections.iter().map(|l| solver.connections[*l]).collect()
}

/// The state is as it must be: `open` tells whether the top of the trail is open.
fn observe(solver: &Solver, st: &Search, open: bool) {
    let n = solver.variables.len();
    let len = st.assigned.len();
    let settled = if open { len - 1 } else { len };
    for i in 0..len {
        assert_eq!(st.var_assigned_index[st.assigned[i]], i);
    }
    let value = |v: usize| {
        if open && v == st.assigned[len - 1] {
            None
        } else {
            solver.variables[v].value
        }
    };
    for v in 0..n {
        let on_trail = (0..settled).any(|i| st.assigned[i] == v);
        assert_eq!(value(v).is_some(), on_trail);
    }
    let mut total = 0;
    for v in 0..n {
        let members = st.variable_unsat_groups.members(v);
        let distinct: BTreeSet<usize> = members.iter().copied().collect();
        assert_eq!(distinct.len(), members.len());
        assert_eq!(members.len(), st.variable_unsat_groups.degree(v));
        total += members.len();
    }
    let mut mentioned = 0;
    for k in 0..solver.connection_groups.len() {
        let lits = literals(solver, k);
        let holds = lits.iter().any(|c| value(c.var_pos) == Some(c.val));
        assert_eq!(st.unsat_groups.contains(&k), !holds);
        let everywhere =
            lits.iter().all(|c| st.variable_unsat_groups.var_sets[c.var_pos][k] != NIL);
        assert_eq!(st.unsat_groups.contains(&k), everywhere);
        if st.unsat_groups.contains(&k) {
            let vars: BTreeSet<usize> = lits.iter().map(|c| c.var_pos).collect();
            mentioned += vars.len();
        }
    }
    assert_eq!(total, mentioned);
    for i in 0..len {
        if st.antecedents[i].is_uc {
            let lits = literals(solver, st.antecedents[i].antecedent.unwrap());
            let below = |v: usize| {
                if st.var_assigned_index[v] < i && st.assigned[st.var_assigned_index[v]] == v {
                    solver.variables[v].value
                } else {
                    None
                }
            };
            assert_eq!(lits.iter().filter(|c| below(c.var_pos).is_none()).count(), 1);
            assert!(lits.iter().all(|c| below(c.var_pos) != Some(c.val)));
            assert!(lits.iter().any(|c| c.var_pos == st.assigned[i]));
        }
    }
}

/// Runs the search round by round and looks at the state after each round.
fn watch(n: usize, clauses: &Vec<Vec<(usize, bool)>>) -> Option<bool> {
    let mut solver = build(n, clauses);
    let mut st = Search::begin(&solver);
    observe(&solver, &st, false);
    let first = solver.get_next_cur(&st.unsat_groups, &st.variable_unsat_groups);
    if !first.set {
        return Some(true);
    }
    match first.cur {
        None => return Some(false),
        Some(v) => st.push_entry(&solver, v, first.is_uc, first.antecedent),
    }
    observe(&solver, &st, true);
    for _ in 0..100000 {
        match solver.advance(&mut st) {
            Some(answer) => {
                observe(&solver, &st, false);
                return Some(answer);
            }
            None => observe(&solver, &st, true),
        }
    }
    None
}

fn random_formula(seed: &mut u64, maxn: u64, maxm: u64) -> (usize, Vec<Vec<(usize, bool)>>) {
    let n = 2 + (random(seed) % maxn) as usize;
    let m = 1 + (random(seed) % maxm) as usize;
    let mut clauses = Vec::new();
    for _ in 0..m {
        let len = 1 + (random(seed) % 3) as usize;
        let mut c = Vec::new();
        for _ in 0..len {
            c.push(((random(seed) % n as u64) as usize, random(seed) % 2 == 0));
        }
        clauses.push(c);
    }
    (n, clauses)
}

#[test]
fn the_indices_agree_with_the_values_after_every_round() {
    let mut seed = 99;
    for _ in 0..1500 {
        let (n, clauses) = random_formula(&mut seed, 8, 30);
        assert!(watch(n, &clauses).is_some());
    }
}

#[test]
fn taking_an_assignment_back_restores_both_indices() {
    let mut seed = 7;
    for _ in 0..300 {
        let (n, clauses) = random_formula(&mut seed, 6, 12);
        let mut solver = build(n, &clauses);
        let mut st = Search::begin(&solver);
        let mut steps = 0;
        loop {
            let next = solver.get_next_cur(&st.unsat_groups, &st.variable_unsat_groups);
            let var = match next.cur {
                Some(v) if next.set => v,
                _ => break,
            };
            let unsat_before = st.unsat_groups.clone();
            let sets_before: Vec<BTreeSet<usize>> = (0..n)
                .map(|v| st.variable_unsat_groups.members(v).into_iter().collect())
                .collect();
            let values_before: Vec<Option<bool>> =
                solver.variables.iter().map(|v| v.value).collect();
            st.push_entry(&solver, var, next.is_uc, next.antecedent);
            st.assign_top(&mut solver);
            let check = solver.do_check(
                &st.unsat_groups,
                &st.var_assigned_index,
                &var,
                &st.variable_unsat_groups,
            );
            if !check.check {
                break;
            }
            st.settle(&solver, check.groups_sat);
            observe(&solver, &st, false);
            steps += 1;
            if steps % 2 == 0 {
                st.unsettle(&solver);
                st.drop_top(&mut solver);
                observe(&solver, &st, false);
                assert_eq!(st.unsat_groups, unsat_before);
                let sets_after: Vec<BTreeSet<usize>> = (0..n)
                    .map(|v| st.variable_unsat_groups.members(v).into_iter().collect())
                    .collect();
                assert_eq!(sets_after, sets_before);
                let values_after: Vec<Option<bool>> =
                    solver.variables.iter().map(|v| v.value).collect();
                assert_eq!(values_after, values_before);
                break;
            }
        }
    }
}

#[test]
fn a_learned_clause_is_falsified_when_it_is_learned() {
    let mut seed = 4242;
    let mut learned = 0;
    for _ in 0..600 {
        let (n, clauses) = random_formula(&mut seed, 8, 30);
        let mut solver = build(n, &clauses);
        let mut st = Search::begin(&solver);
        loop {
            let next = solver.get_next_cur(&st.unsat_groups, &st.variable_unsat_groups);
            let var = match next.cur {
                Some(v) if next.set => v,
                _ => break,
            };
            st.push_entry(&solver, var, next.is_uc, next.antecedent);
            st.assign_top(&mut solver);
            let check = solver.do_check(
                &st.unsat_groups,
                &st.var_assigned_index,
                &var,
                &st.variable_unsat_groups,
            );
            if check.check {
                st.settle(&solver, check.groups_sat);
                continue;
            }
            let before = solver.connection_groups.len();
            let added = st.learn(&mut solver, check.min_group_index.unwrap());
            assert_eq!(solver.connection_groups.len(), before + if added { 1 } else { 0 });
            if added {
                learned += 1;
                let lits = literals(&solver, before);
                assert!(lits.iter().all(|c| solver.variables[c.var_pos].value == Some(!c.val)));
                assert!(st.unsat_groups.contains(&before));
                assert_eq!(st.clauses_learned, 1);
                assert_eq!(st.unique_clauses.len(), before + 1);
            }
            observe(&solver, &st, true);
            break;
        }
    }
    assert!(learned > 50);
}

#[test]
fn after_the_backtrack_a_learned_clause_has_few_unassigned_literals() {
    let mut seed = 31337;
    let mut conflicts = 0;
    let mut by_one = 0;
    let mut by_more = 0;
    let mut two_open = 0;
    for _ in 0..800 {
        let (n, clauses) = random_formula(&mut seed, 10, 40);
        let mut solver = build(n, &clauses);
        let mut st = Search::begin(&solver);
        let first = solver.get_next_cur(&st.unsat_groups, &st.variable_unsat_groups);
        match first.cur {
            Some(v) if first.set => st.push_entry(&solver, v, first.is_uc, first.antecedent),
            _ => continue,
        }
        for _ in 0..10000 {
            st.assign_top(&mut solver);
            let var = st.assigned[st.assigned.len() - 1];
            let check = solver.do_check(
                &st.unsat_groups,
                &st.var_assigned_index,
                &var,
                &st.variable_unsat_groups,
            );
            let conflict = if check.check {
                st.settle(&solver, check.groups_sat);
                let next = solver.get_next_cur(&st.unsat_groups, &st.variable_unsat_groups);
                if !next.set {
                    assert!(solver.final_check());
                    break;
                }
                match next.cur {
                    Some(v) => {
                        st.push_entry(&solver, v, next.is_uc, next.antecedent);
                        continue;
                    }
                    None => {
                        st.unsettle(&solver);
                        next.antecedent.unwrap()
                    }
                }
            } else {
                check.min_group_index.unwrap()
            };
            let values: Vec<Option<bool>> = solver.variables.iter().map(|v| v.value).collect();
            let trail = st.assigned.clone();
            let pool = solver.connection_groups.len();
            let emptied = st.on_conflict(&mut solver, conflict);
            conflicts += 1;
            assert!(st.assigned.len() <= trail.len());
            assert_eq!(st.assigned[..], trail[..st.assigned.len()]);
            let taken = &trail[st.assigned.len()..];
            for v in 0..n {
                let expected = if taken.contains(&v) { None } else { values[v] };
                assert_eq!(solver.variables[v].value, expected);
            }
            if solver.connection_groups.len() > pool {
                let lits = literals(&solver, pool);
                let mut open = 0;
                for (i, c) in lits.iter().enumerate() {
                    assert_eq!(values[c.var_pos], Some(!c.val));
                    assert!(lits[..i].iter().all(|d| d.var_pos != c.var_pos));
                    match solver.variables[c.var_pos].value {
                        Some(b) => assert_eq!(b, !c.val),
                        None => {
                            assert!(taken.contains(&c.var_pos));
                            open += 1;
                        }
                    }
                }
                assert!(open <= taken.len());
                if taken.len() == 1 {
                    by_one += 1;
                    assert!(open <= 1);
                } else if taken.len() > 1 {
                    by_more += 1;
                }
                if open >= 2 {
                    two_open += 1;
                }
            }
            if emptied {
                assert_eq!(st.assigned.len(), 0);
                break;
            }
        }
    }
    assert!(conflicts > 500);
    assert!(by_one > 20);
    assert!(by_more > 20);
    assert!(two_open > 0);
}
