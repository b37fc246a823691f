use sat_solver::propositional::copy_all;
use sat_solver::propositional::or_groups_of;
use sat_solver::propositional::sort_ands_last;
use sat_solver::propositional::Operator;
use sat_solver::propositional::PropositionalConnection;

fn atom(name: &str) -> PropositionalConnection {
    PropositionalConnection::new(Operator::NONE, false, Some(name.to_string()))
}

fn not(name: &str) -> PropositionalConnection {
    PropositionalConnection::new(Operator::NONE, true, Some(name.to_string()))
}

fn group(operator: Operator, negated: bool, members: Vec<PropositionalConnection>) -> PropositionalConnection {
    let mut g = PropositionalConnection::new(operator, negated, None);
    for m in members {
        g.variables.push(m);
    }
    g
}

#[test]
fn a_group_of_one_member_is_written_without_brackets() {
    assert_eq!(group(Operator::OR, false, vec![atom("a")]).print_string(), "a");
    assert_eq!(group(Operator::AND, true, vec![not("a")]).print_string(), "¬¬a");
    assert_eq!(group(Operator::AND, false, vec![]).print_string(), "");
    assert_eq!(group(Operator::NONE, false, vec![atom("a"), atom("b")]).print_string(), "(ab)");
    assert_eq!(group(Operator::IMPLIES, false, vec![atom("a")]).print_string(), "a");
}

#[test]
fn a_copy_is_written_like_the_formula_it_copies() {
    let f = group(
        Operator::AND,
        true,
        vec![group(Operator::OR, false, vec![atom("a"), not("b")]), atom("c")],
    );
    assert_eq!(f.duplicate().print_string(), "¬((a ∨ ¬b) ∧ c)");
    assert_eq!(f.clone().print_string(), f.print_string());
    let all = copy_all(&f.variables);
    assert_eq!(all.len(), 2);
    assert_eq!(all[0].print_string(), "(a ∨ ¬b)");
}

#[test]
fn de_morgan_reaches_nested_groups() {
    let mut f = group(
        Operator::OR,
        true,
        vec![group(Operator::AND, false, vec![atom("a"), not("b")]), atom("c")],
    );
    assert!(f.demorgans());
    assert_eq!(f.print_string(), "((¬a ∨ b) ∧ ¬c)");
    assert!(!f.demorgans());
    let mut single = group(Operator::AND, true, vec![atom("a")]);
    assert!(!single.demorgans());
    assert_eq!(single.print_string(), "¬a");
    assert!(single.is_negated);
    assert_eq!(single.operator, Operator::AND);
}

#[test]
fn sorting_moves_conjunctions_to_the_right() {
    let mut v = vec![
        group(Operator::AND, false, vec![atom("a"), atom("b")]),
        atom("c"),
        group(Operator::OR, false, vec![atom("d"), atom("e")]),
        group(Operator::AND, false, vec![atom("f"), atom("g")]),
        atom("h"),
    ];
    sort_ands_last(&mut v);
    let shown: Vec<String> = v.iter().map(|f| f.print_string()).collect();
    assert_eq!(shown, vec!["(d ∨ e)", "c", "h", "(a ∧ b)", "(f ∧ g)"]);
}

#[test]
fn each_member_is_joined_with_the_left_hand_side() {
    let left = vec![atom("a"), group(Operator::AND, false, vec![atom("x"), atom("y")])];
    let inner = vec![atom("b"), not("c")];
    let groups = or_groups_of(&left, &inner);
    let shown: Vec<String> = groups.iter().map(|f| f.print_string()).collect();
    assert_eq!(shown, vec!["(a ∨ b ∨ (x ∧ y))", "(a ∨ ¬c ∨ (x ∧ y))"]);
}

#[test]
fn a_leading_conjunction_is_only_moved_in_the_first_round() {
    let mut f = group(
        Operator::OR,
        false,
        vec![group(Operator::AND, false, vec![atom("a"), atom("b")]), atom("c")],
    );
    assert!(!f.distributive());
    assert_eq!(f.print_string(), "(c ∨ (a ∧ b))");
    assert!(f.distributive());
    assert_eq!(f.print_string(), "((c ∨ a) ∧ (c ∨ b))");
    let mut empty = group(Operator::OR, false, vec![]);
    assert!(!empty.distributive());
    assert_eq!(empty.variables.len(), 0);
}

#[test]
fn cleaning_flattens_and_drops_tautologies() {
    let mut f = group(
        Operator::AND,
        false,
        vec![
            group(Operator::AND, false, vec![atom("a"), atom("b")]),
            group(Operator::OR, false, vec![atom("c"), not("c"), atom("d")]),
            group(Operator::OR, false, vec![atom("c"), group(Operator::OR, false, vec![atom("e"), not("c")])]),
            atom("f"),
        ],
    );
    assert!(f.variables[1].is_tautology());
    assert!(!f.variables[2].is_tautology());
    assert!(f.clean_cnf());
    assert_eq!(f.print_string(), "(a ∧ b ∧ (c ∨ e ∨ ¬c) ∧ f)");
    assert!(f.clean_cnf());
    assert_eq!(f.print_string(), "(a ∧ b ∧ f)");
    assert!(!f.clean_cnf());
}

#[test]
fn repeated_variables_are_dropped_from_each_member() {
    let mut clause = group(
        Operator::OR,
        false,
        vec![atom("a"), not("b"), atom("a"), atom("b"), not("b"), atom("a")],
    );
    clause.drop_repeated();
    assert_eq!(clause.print_string(), "(a ∨ ¬b ∨ b)");
    let mut f = group(
        Operator::AND,
        false,
        vec![
            group(Operator::OR, false, vec![atom("a"), atom("b"), atom("a")]),
            group(Operator::OR, false, vec![not("c"), not("c")]),
        ],
    );
    f.to_cnf();
    assert_eq!(f.print_string(), "((a ∨ b) ∧ ¬c)");
}

#[test]
fn odd_formulas_reach_the_normal_form_too() {
    let mut lone = group(Operator::OR, false, vec![atom("a")]);
    lone.to_cnf();
    assert_eq!(lone.print_string(), "a");
    assert_eq!(lone.operator, Operator::AND);
    let mut slow = group(
        Operator::OR,
        false,
        vec![group(Operator::AND, false, vec![atom("a"), atom("b")]), atom("c")],
    );
    slow.distributive();
    assert_eq!(slow.print_string(), "(c ∨ (a ∧ b))");
    slow.to_cnf();
    assert_eq!(slow.print_string(), "((c ∨ a) ∧ (c ∨ b))");
    let mut gone = group(
        Operator::AND,
        true,
        vec![group(Operator::OR, false, vec![atom("a"), not("a")])],
    );
    gone.to_cnf();
    assert_eq!(gone.print_string(), "");
    assert_eq!(gone.variables.len(), 1);
    assert_eq!(gone.variables[0].variables.len(), 0);
    let mut nested = group(
        Operator::AND,
        false,
        vec![group(Operator::AND, true, vec![atom("a"), atom("b")]), atom("c")],
    );
    nested.to_cnf();
    assert_eq!(nested.print_string(), "((¬a ∨ ¬b) ∧ c)");
}
