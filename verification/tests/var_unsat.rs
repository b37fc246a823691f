use sat_solver::var_unsat::VarUnsatGroup;
use sat_solver::var_unsat::VarUnsatGroups;

#[test]
fn a_new_record_is_unsatisfied_and_in_no_list() {
    let record = VarUnsatGroup::new();
    assert!(record.is_unsat);
    assert!(record.node.is_none());
}

#[test]
fn the_lists_hold_the_clauses_last_listed_first() {
    let groups = VarUnsatGroups::new(&vec![vec![4, 1, 3], vec![], vec![2]], 6);
    assert_eq!(groups.var_lists.len(), 3);
    assert_eq!(groups.var_sets.len(), 3);
    let first: Vec<usize> = groups.var_lists[0].iter().copied().collect();
    assert_eq!(first, vec![3, 1, 4]);
    assert_eq!(groups.var_lists[1].len(), 0);
    let third: Vec<usize> = groups.var_lists[2].iter().copied().collect();
    assert_eq!(third, vec![2]);
    for v in 0..3 {
        assert_eq!(groups.var_sets[v].len(), 6);
        assert!(groups.var_sets[v].iter().all(|record| record.is_unsat));
    }
}

#[test]
fn the_records_name_the_nodes_of_their_clauses() {
    let listed = vec![vec![4, 1, 3], vec![], vec![2, 0]];
    let groups = VarUnsatGroups::new(&listed, 5);
    for v in 0..3 {
        for g in 0..5 {
            let expected = if listed[v].contains(&g) { Some(g) } else { None };
            assert_eq!(groups.var_sets[v][g].node.is_some(), expected.is_some());
            assert_eq!(groups.clause_at(v, g), expected);
        }
    }
    let handle = groups.var_sets[0][4].node.unwrap();
    assert_eq!(groups.var_lists[0].node(&handle), Some(&4));
    assert_eq!(groups.var_lists[2].node(&handle), None);
}
