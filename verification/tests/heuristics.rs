use sat_solver::antecedent::Antecedent;
use sat_solver::connections::Connection;
use sat_solver::implication_graph::ImplicationGraph;
use sat_solver::sat_linked_hash_set::SatLinkedHashSet;
use sat_solver::sat_linked_hash_set::NIL;
use sat_solver::solver::Solver;
use std::collections::BTreeSet;

fn build(n: usize, clauses: &[&[(usize, bool)]]) -> Solver {
    let mut solver = Solver::new();
    for v in 0..n {
        solver.add_variable(format!("{}", v + 1));
    }
    for clause in clauses {
        let lits: Vec<Connection> = clause.iter().map(|(v, b)| Connection::new(*v, *b)).collect();
        solver.add_connection_group(&lits);
    }
    solver
}

fn all_unsat(solver: &Solver) -> BTreeSet<usize> {
    (0..solver.connection_groups.len()).collect()
}

fn sets_of(solver: &Solver) -> SatLinkedHashSet {
    SatLinkedHashSet::new(&solver.variable_connections, solver.connection_groups.len() + 4)
}

#[test]
fn variables_are_added_once_per_name() {
    let mut solver = Solver::new();
    assert_eq!(solver.add_variable("a".to_string()), Some(0));
    assert_eq!(solver.add_variable("b".to_string()), Some(1));
    assert_eq!(solver.add_variable("a".to_string()), Some(0));
    assert_eq!(solver.variables.len(), 2);
    assert_eq!(solver.variables[1].pos, 1);
    assert_eq!(solver.variables[1].value, None);
    assert_eq!(solver.variable_connections.len(), 2);
}

#[test]
fn a_clause_is_listed_once_for_each_of_its_variables() {
    let solver = build(2, &[&[(0, true), (0, false), (1, true)], &[(1, false)]]);
    assert_eq!(solver.variable_connections[0], vec![0]);
    assert_eq!(solver.variable_connections[1], vec![0, 1]);
    assert_eq!(solver.connection_groups[0].connections, vec![0, 1, 2]);
    assert_eq!(solver.connection_groups[1].connections, vec![3]);
    assert_eq!(solver.connections[1], Connection::new(0, false));
}

#[test]
fn literal_checks_tell_unassigned_from_falsified() {
    let mut solver = build(2, &[&[(0, true), (1, false)]]);
    assert_eq!(solver.check_connection(0), Some(true));
    assert_eq!(solver.check_connection_not_null(0), Some(false));
    solver.variables[0].value = Some(true);
    solver.variables[1].value = Some(true);
    assert_eq!(solver.check_connection(0), Some(true));
    assert_eq!(solver.check_connection_not_null(0), Some(true));
    assert_eq!(solver.check_connection(1), Some(false));
    assert_eq!(solver.check_connection_not_null(1), Some(false));
    assert_eq!(solver.check_connection(2), None);
    assert_eq!(solver.check_connection_not_null(2), None);
    solver.connections.push(Connection::new(9, true));
    assert_eq!(solver.check_connection(2), None);
}

#[test]
fn final_check_completes_the_values_with_true() {
    let mut solver = build(3, &[&[(0, true), (1, false)], &[(2, true)]]);
    solver.variables[1].value = Some(true);
    assert!(solver.final_check());
    assert_eq!(solver.variables[0].value, Some(true));
    assert_eq!(solver.variables[1].value, Some(true));
    assert_eq!(solver.variables[2].value, Some(true));
    let mut other = build(1, &[&[(0, false)]]);
    assert!(!other.final_check());
    assert_eq!(other.variables[0].value, Some(true));
}

#[test]
fn the_heuristic_reports_nothing_to_decide_without_clauses() {
    let solver = build(2, &[]);
    let r = solver.get_next_cur(&BTreeSet::new(), &sets_of(&solver));
    assert!(!r.set);
    assert_eq!(r.cur, None);
    assert!(!r.is_uc);
    assert_eq!(r.literal_sign, None);
    assert_eq!(r.antecedent, None);
    assert_eq!(r.connections_checked, 0);
}

#[test]
fn the_first_unit_clause_decides() {
    let mut solver = build(
        3,
        &[&[(0, true), (1, true)], &[(0, true), (2, false)], &[(1, false), (0, true)]],
    );
    solver.variables[0].value = Some(false);
    solver.variables[1].value = Some(false);
    let unsat: BTreeSet<usize> = [1, 2].into_iter().collect();
    let r = solver.get_next_cur(&unsat, &sets_of(&solver));
    assert!(r.set);
    assert!(r.is_uc);
    assert_eq!(r.cur, Some(2));
    assert_eq!(r.literal_sign, Some(false));
    assert_eq!(r.antecedent, Some(1));
}

#[test]
fn a_clause_without_unassigned_literals_is_reported() {
    let mut solver = build(2, &[&[(0, true), (1, true)], &[(0, false)]]);
    solver.variables[0].value = Some(true);
    let unsat: BTreeSet<usize> = [1].into_iter().collect();
    let r = solver.get_next_cur(&unsat, &sets_of(&solver));
    assert!(r.set);
    assert_eq!(r.cur, None);
    assert!(!r.is_uc);
    assert_eq!(r.literal_sign, None);
    assert_eq!(r.antecedent, Some(1));
}

#[test]
fn the_first_variable_of_largest_degree_in_the_smallest_clauses_is_chosen() {
    let solver = build(
        5,
        &[
            &[(0, true), (1, true), (2, true)],
            &[(3, true), (4, true)],
            &[(4, false), (1, true)],
            &[(3, false), (2, true)],
            &[(0, true), (1, false), (3, true)],
        ],
    );
    let sets = sets_of(&solver);
    let r = solver.get_next_cur(&all_unsat(&solver), &sets);
    assert!(r.set);
    assert!(!r.is_uc);
    assert_eq!(r.literal_sign, None);
    assert_eq!(r.antecedent, None);
    // the clauses of two literals name 1, 2, 3 and 4; 1 and 3 are in three clauses each
    assert_eq!(r.cur, Some(1));
    let vars: BTreeSet<usize> = [4, 3, 2].into_iter().collect();
    assert_eq!(solver.get_var_max_deg(&sets, &vars), 3);
    let none: BTreeSet<usize> = BTreeSet::new();
    assert_eq!(solver.get_var_max_deg(&sets, &none), NIL);
    let lone = build(2, &[&[(0, true)]]);
    let only: BTreeSet<usize> = [1].into_iter().collect();
    assert_eq!(lone.get_var_max_deg(&sets_of(&lone), &only), NIL);
}

#[test]
fn the_polarity_follows_the_occurrences_in_unsatisfied_clauses() {
    let mut solver = build(
        3,
        &[
            &[(0, false), (1, true)],
            &[(0, false), (2, true)],
            &[(0, true), (1, true)],
            &[(0, true), (2, false)],
            &[(0, true)],
        ],
    );
    let sets = sets_of(&solver);
    assert!(solver.get_lcv(&solver.variables[0], &sets));
    solver.variables[1].value = Some(true);
    // the clauses 0 and 2 hold now; 1 is negative, 3 and 4 are positive
    assert!(solver.get_lcv(&solver.variables[0], &sets));
    solver.variables[2].value = Some(false);
    // clause 3 holds too: one negative against one positive
    assert!(solver.get_lcv(&solver.variables[0], &sets));
    let mut other = build(2, &[&[(0, false), (1, true)], &[(0, false)], &[(0, true)]]);
    assert!(!other.get_lcv(&other.variables[0], &sets_of(&other)));
    other.variables[1].value = Some(true);
    assert!(other.get_lcv(&other.variables[0], &sets_of(&other)));
}

#[test]
fn the_check_collects_what_is_newly_satisfied() {
    let mut solver = build(
        3,
        &[&[(0, true), (1, true)], &[(0, false), (1, true)], &[(0, true), (2, false)], &[(1, true)]],
    );
    let sets = sets_of(&solver);
    solver.variables[0].value = Some(true);
    let unsat: BTreeSet<usize> = [0, 1, 3].into_iter().collect();
    let r = solver.do_check(&unsat, &vec![0, 0, 0], &0, &sets);
    assert!(r.check);
    assert_eq!(r.groups_sat, vec![0]);
    assert_eq!(r.min_group_index, None);
    assert_eq!(r.connections_checked, 12);
}

#[test]
fn the_check_prefers_the_conflict_that_was_set_up_earliest() {
    let mut solver = build(
        4,
        &[
            &[(3, false), (2, false)],
            &[(3, false), (0, false), (1, false)],
            &[(3, false), (1, false)],
            &[(3, false), (0, false)],
            &[(3, true), (0, true)],
        ],
    );
    let sets = sets_of(&solver);
    for v in 0..4 {
        solver.variables[v].value = Some(true);
    }
    let positions = vec![0, 1, 2, 3];
    let r = solver.do_check(&all_unsat(&solver), &positions, &3, &sets);
    assert!(!r.check);
    assert_eq!(r.groups_sat, vec![4]);
    assert_eq!(r.min_group_index, Some(3));
    assert_eq!(solver.latest_other_position(1, 3, &positions), Some(1));
    assert_eq!(solver.latest_other_position(0, 3, &positions), Some(2));
    let mut unit = build(1, &[&[(0, false)], &[(0, false), (0, false)]]);
    unit.variables[0].value = Some(true);
    let r = unit.do_check(&all_unsat(&unit), &vec![0], &0, &sets_of(&unit));
    assert!(!r.check);
    assert_eq!(r.min_group_index, Some(0));
    assert_eq!(unit.latest_other_position(0, 0, &vec![0]), None);
}

#[test]
fn resolution_runs_back_through_the_unit_entries() {
    // trail: 0 (decision), 1 (unit by clause 0), 2 (unit by clause 1); clause 2 is falsified
    let solver = build(
        3,
        &[&[(0, false), (1, true)], &[(1, false), (2, true)], &[(2, false), (0, false)]],
    );
    let assigned = vec![0, 1, 2];
    let unit = |k: usize| Antecedent { is_uc: true, antecedent: Some(k), d: 1 };
    let antecedents = vec![Antecedent { is_uc: false, antecedent: None, d: 1 }, unit(0), unit(1)];
    let graph = ImplicationGraph::new(
        &assigned,
        &2,
        &antecedents,
        &vec![0, 1, 2],
        &solver.connection_groups,
        &solver.connections,
    );
    // (¬2 ∨ ¬0) with (¬1 ∨ 2) gives (¬1 ∨ ¬0), and that with (¬0 ∨ 1) gives (¬0)
    let learned: Vec<usize> = graph.learned.iter().copied().collect();
    assert_eq!(learned, vec![5]);
    assert_eq!(solver.connections[5], Connection::new(0, false));
}

#[test]
fn resolution_ends_once_one_literal_is_left_at_the_level() {
    // as above, but the first two entries are a level below the top
    let solver = build(
        3,
        &[&[(0, false), (1, true)], &[(1, false), (2, true)], &[(2, false), (0, false)]],
    );
    let antecedents = vec![
        Antecedent { is_uc: false, antecedent: None, d: 0 },
        Antecedent { is_uc: true, antecedent: Some(0), d: 0 },
        Antecedent { is_uc: true, antecedent: Some(1), d: 1 },
    ];
    let graph = ImplicationGraph::new(
        &vec![0, 1, 2],
        &2,
        &antecedents,
        &vec![0, 1, 2],
        &solver.connection_groups,
        &solver.connections,
    );
    let learned: Vec<usize> = graph.learned.iter().copied().collect();
    assert_eq!(learned, vec![2, 5]);
    let lits: Vec<Connection> = learned.iter().map(|l| solver.connections[*l]).collect();
    assert_eq!(lits, vec![Connection::new(1, false), Connection::new(0, false)]);
}

#[test]
fn a_decision_at_the_top_leaves_the_conflict_clause() {
    let solver = build(2, &[&[(0, false), (1, false)]]);
    let antecedents = vec![Antecedent::new(), Antecedent { is_uc: false, antecedent: None, d: 1 }];
    let graph = ImplicationGraph::new(
        &vec![0, 1],
        &0,
        &antecedents,
        &vec![0, 1],
        &solver.connection_groups,
        &solver.connections,
    );
    let learned: Vec<usize> = graph.learned.iter().copied().collect();
    assert_eq!(learned, vec![0, 1]);
}
