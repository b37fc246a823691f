use sat_solver::antecedent::Antecedent;
use sat_solver::conflict_set::ConflictSet;
use sat_solver::connections::Connection;
use sat_solver::connections::ConnectionGroup;
use sat_solver::learned_clause::is_known;
use sat_solver::learned_clause::LearnedClause;
use sat_solver::restart::TrailWindow;
use sat_solver::sat_linked_hash_set::SatLinkedHashSet;
use sat_solver::sat_linked_hash_set::SatNode;
use sat_solver::sat_linked_hash_set::NIL;
use sat_solver::variable::Variable;

#[test]
fn new_set_lists_the_given_clauses_in_order() {
    let set = SatLinkedHashSet::new(&vec![vec![4, 1, 3], vec![], vec![2]], 6);
    assert_eq!(set.members(0), vec![4, 1, 3]);
    assert_eq!(set.members(1), Vec::<usize>::new());
    assert_eq!(set.members(2), vec![2]);
    assert_eq!(set.heads, vec![0, NIL, 0]);
    assert_eq!(set.degree(0), 3);
    assert_eq!(set.degree(1), 0);
    assert_eq!(set.open_spots_len, vec![3, 6, 5]);
    assert_eq!(set.var_lists[0][0], SatNode::new(4, 1, NIL));
    assert_eq!(set.var_lists[0][1], SatNode::new(1, 2, 0));
    assert_eq!(set.var_lists[0][2], SatNode::new(3, NIL, 1));
    assert_eq!(set.var_sets[0][4], 0);
    assert_eq!(set.var_sets[0][0], NIL);
}

#[test]
fn insert_puts_the_clause_at_the_head() {
    let mut set = SatLinkedHashSet::new(&vec![vec![4, 1], vec![]], 5);
    set.insert(0, 2);
    assert_eq!(set.members(0), vec![2, 4, 1]);
    assert!(set.contains(0, 2));
    assert!(!set.contains(1, 2));
    set.insert(1, 0);
    set.insert(1, 3);
    assert_eq!(set.members(1), vec![3, 0]);
    assert_eq!(set.members(0), vec![2, 4, 1]);
}

#[test]
fn remove_keeps_the_order_of_the_others() {
    let mut set = SatLinkedHashSet::new(&vec![vec![0, 1, 2, 3]], 4);
    set.remove(0, 2);
    assert_eq!(set.members(0), vec![0, 1, 3]);
    assert!(!set.contains(0, 2));
    set.remove(0, 0);
    assert_eq!(set.members(0), vec![1, 3]);
    set.remove(0, 3);
    assert_eq!(set.members(0), vec![1]);
    set.remove(0, 1);
    assert_eq!(set.members(0), Vec::<usize>::new());
    assert_eq!(set.heads[0], NIL);
    set.insert(0, 3);
    set.insert(0, 0);
    assert_eq!(set.members(0), vec![0, 3]);
    assert_eq!(set.degree(0), 2);
}

#[test]
fn a_full_set_can_be_emptied_and_filled_again() {
    let mut set = SatLinkedHashSet::new(&vec![vec![]], 3);
    for k in 0..3 {
        set.insert(0, k);
    }
    assert_eq!(set.members(0), vec![2, 1, 0]);
    assert_eq!(set.open_spots_len[0], 0);
    for k in 0..3 {
        set.remove(0, k);
    }
    assert_eq!(set.open_spots_len[0], 3);
    for k in 0..3 {
        set.insert(0, 2 - k);
    }
    assert_eq!(set.members(0), vec![0, 1, 2]);
}

#[test]
fn the_steps_of_insert_and_remove_write_one_place_each() {
    let mut set = SatLinkedHashSet::new(&vec![vec![1, 0]], 3);
    set.update_head_insert(0, 2);
    assert_eq!(set.heads[0], 2);
    set.update_previous_head_insert(0, 0, 2);
    assert_eq!(set.var_lists[0][0].prev, 2);
    set.update_node_being_replaced(0, 2, 2, 0);
    assert_eq!(set.var_lists[0][2], SatNode::new(2, 0, NIL));
    set.update_var_sets_insert(0, 2, 2);
    assert_eq!(set.var_sets[0][2], 2);
    set.open_spots_len[0] = 0;
    assert_eq!(set.members(0), vec![2, 1, 0]);
    set.reset_node_being_removed(0, 1);
    assert_eq!(set.var_sets[0][1], NIL);
    set.update_open_spots_remove(0, 0);
    assert_eq!(set.open_spots[0][0], 0);
    assert_eq!(set.open_spots_len[0], 1);
    set.update_neighbors_remove(0, 0);
    assert_eq!(set.var_lists[0][2].next, 1);
    assert_eq!(set.var_lists[0][1].prev, 2);
    set.connect_neighbors_remove(0, 2, 1);
    set.remove_tail(0, 2);
    assert_eq!(set.var_lists[0][2].next, NIL);
    set.var_lists[0][2].next = 1;
    set.remove_head(0);
    assert_eq!(set.heads[0], 1);
    assert_eq!(set.var_lists[0][1].prev, NIL);
    set.empty_list(0);
    assert_eq!(set.heads[0], NIL);
}

#[test]
fn conflict_sets_hold_each_variable_once() {
    let mut sets = ConflictSet::new(4);
    assert!(!sets.contains(1, 2));
    sets.add(1, 2);
    sets.add(1, 3);
    sets.add(1, 2);
    assert!(sets.contains(1, 2));
    assert!(sets.contains(1, 3));
    assert!(!sets.contains(2, 1));
    assert_eq!(sets.list_len[1], 2);
    assert_eq!(&sets.var_list[1][..2], &[2, 3]);
    sets.add(0, 3);
    sets.add(0, 0);
    sets.merge(1, 0);
    assert_eq!(sets.list_len[0], 3);
    assert!(sets.contains(0, 2));
    assert!(sets.contains(0, 3));
    assert!(sets.contains(0, 0));
    assert_eq!(sets.list_len[1], 2);
    sets.merge(0, 0);
    assert_eq!(sets.list_len[0], 3);
    sets.clear(1);
    assert_eq!(sets.list_len[1], 0);
    assert!(!sets.contains(1, 2));
    assert!(!sets.contains(1, 3));
    assert!(sets.contains(0, 2));
}

#[test]
fn learned_clauses_are_kept_in_canonical_order() {
    let lits = vec![
        Connection::new(3, true),
        Connection::new(1, true),
        Connection::new(3, false),
        Connection::new(0, false),
        Connection::new(1, true),
    ];
    let clause = LearnedClause::new(2, lits, 7);
    assert_eq!(clause.lbd, 2);
    assert_eq!(clause.index, 7);
    assert_eq!(
        clause.lits,
        vec![
            Connection::new(0, false),
            Connection::new(1, true),
            Connection::new(1, true),
            Connection::new(3, false),
            Connection::new(3, true),
        ]
    );
    let seen = vec![clause];
    assert!(is_known(
        &seen,
        &LearnedClause::new(0, vec![
            Connection::new(1, true),
            Connection::new(3, true),
            Connection::new(0, false),
            Connection::new(3, false),
            Connection::new(1, true),
        ], 0).lits
    ));
    assert!(!is_known(&seen, &vec![Connection::new(0, false)]));
    assert!(!is_known(&Vec::new(), &Vec::new()));
}

#[test]
fn the_window_drops_its_oldest_entry_when_full() {
    let mut window = TrailWindow::new(3);
    assert!(!window.below_mean(0));
    window.record(4);
    window.record(6);
    assert_eq!(window.sum, 10);
    assert!(window.below_mean(4));
    assert!(!window.below_mean(5));
    window.record(8);
    window.record(1);
    let held: Vec<usize> = window.entries.iter().copied().collect();
    assert_eq!(held, vec![6, 8, 1]);
    assert_eq!(window.sum, 15);
    assert!(window.below_mean(4));
    assert!(!window.below_mean(5));
    let mut none = TrailWindow::new(0);
    none.record(9);
    assert_eq!(none.entries.len(), 0);
    assert!(!none.below_mean(0));
}

#[test]
fn small_values_are_what_they_were_made_of() {
    let a = Antecedent::new();
    assert!(!a.is_uc);
    assert_eq!(a.antecedent, None);
    assert_eq!(a.d, 0);
    let c = Connection::new(5, false);
    assert_eq!(c.var_pos, 5);
    assert!(!c.val);
    assert_eq!(ConnectionGroup::new().connections.len(), 0);
    assert_eq!(ConnectionGroup::default().connections.len(), 0);
    let v = Variable::new("x1".to_string());
    assert_eq!(v.name, "x1");
    assert_eq!(v.value, None);
    assert_eq!(v.pos, usize::MAX);
    let mut w = Variable::new("x1".to_string());
    w.value = Some(true);
    w.pos = 3;
    assert!(v == w);
    assert!(v != Variable::new("x2".to_string()));
}

#[test]
fn taking_out_what_was_put_in_last_gives_the_slot_back() {
    let mut set = SatLinkedHashSet::new(&vec![vec![4, 1], vec![]], 6);
    for var in 0..2 {
        let head = set.heads[var];
        let free = set.open_spots_len[var];
        let top = set.open_spots[var][free - 1];
        let before = set.members(var);
        set.insert(var, 3);
        assert_eq!(set.heads[var], top);
        assert_eq!(set.open_spots_len[var], free - 1);
        assert_eq!(set.var_sets[var][3], top);
        assert_eq!(set.members(var)[0], 3);
        set.remove(var, 3);
        assert_eq!(set.heads[var], head);
        assert_eq!(set.open_spots_len[var], free);
        assert_eq!(set.open_spots[var][free - 1], top);
        assert_eq!(set.members(var), before);
        assert!(!set.contains(var, 3));
    }
}
