use sat_solver::propositional::Operator;
use sat_solver::propositional::PropositionalConnection;

#[test]
fn test_simple_neg() {
    let con = PropositionalConnection::new(Operator::NONE, true, Some("a".to_string()));

    assert_eq!(con.print_string(), "¬a");
    assert_eq!(con.operator, Operator::NONE);
    assert_eq!(con.variable.unwrap(), "a");
    assert_eq!(con.variables.len(), 0);
}

#[test]
fn test_and_group() {
    let mut con = PropositionalConnection::new(Operator::AND, false, None);
    let a = PropositionalConnection::new(Operator::NONE, true, Some("a".to_string()));
    let b = PropositionalConnection::new(Operator::NONE, false, Some("b".to_string()));
    let c = PropositionalConnection::new(Operator::NONE, false, Some("c".to_string()));

    con.variables.push(a);
    con.variables.push(b);
    con.variables.push(c);

    assert_eq!(con.print_string(), "(¬a ∧ b ∧ c)");
    assert_eq!(con.operator, Operator::AND);
    assert_eq!(con.variable, None);
    assert_eq!(con.variables.len(), 3);
}

#[test]
fn test_nested_groups() {
    let mut con = PropositionalConnection::new(Operator::AND, false, None);
    let mut con2 = PropositionalConnection::new(Operator::AND, false, None);
    let mut con3 = PropositionalConnection::new(Operator::OR, true, None);
    let a = PropositionalConnection::new(Operator::NONE, false, Some("a".to_string()));
    let not_a = PropositionalConnection::new(Operator::NONE, true, Some("a".to_string()));
    let b = PropositionalConnection::new(Operator::NONE, false, Some("b".to_string()));
    let not_b = PropositionalConnection::new(Operator::NONE, true, Some("b".to_string()));
    let c = PropositionalConnection::new(Operator::NONE, false, Some("c".to_string()));

    con3.variables.push(a);
    con3.variables.push(not_b);

    con2.variables.push(not_a);
    con2.variables.push(b);
    con2.variables.push(c);

    con.variables.push(con2);
    con.variables.push(con3);

    assert_eq!(con.print_string(), "((¬a ∧ b ∧ c) ∧ ¬(a ∨ ¬b))");
}

#[test]
fn test_demorgans_law() {
    let mut con = PropositionalConnection::new(Operator::AND, true, None);
    let a = PropositionalConnection::new(Operator::NONE, true, Some("a".to_string()));
    let b = PropositionalConnection::new(Operator::NONE, false, Some("b".to_string()));
    let c = PropositionalConnection::new(Operator::NONE, false, Some("c".to_string()));

    con.variables.push(a);
    con.variables.push(b);
    con.variables.push(c);

    assert_eq!(con.print_string(), "¬(¬a ∧ b ∧ c)");
    con.demorgans();
    assert_eq!(con.print_string(), "(a ∨ ¬b ∨ ¬c)");
}

#[test]
fn test_distributive_law() {
    let mut con = PropositionalConnection::new(Operator::OR, false, None);
    let mut con2 = PropositionalConnection::new(Operator::AND, false, None);
    let a = PropositionalConnection::new(Operator::NONE, false, Some("a".to_string()));
    let b = PropositionalConnection::new(Operator::NONE, false, Some("b".to_string()));
    let c = PropositionalConnection::new(Operator::NONE, false, Some("c".to_string()));

    con2.variables.push(b);
    con2.variables.push(c);

    con.variables.push(a);
    con.variables.push(con2);

    assert_eq!(con.print_string(), "(a ∨ (b ∧ c))");
    con.distributive();
    assert_eq!(con.print_string(), "((a ∨ b) ∧ (a ∨ c))");
}

#[test]
fn test_distributive_law_separated() {
    let mut con = PropositionalConnection::new(Operator::OR, false, None);
    let mut con2 = PropositionalConnection::new(Operator::AND, false, None);
    let a = PropositionalConnection::new(Operator::NONE, false, Some("a".to_string()));
    let b = PropositionalConnection::new(Operator::NONE, false, Some("b".to_string()));
    let c = PropositionalConnection::new(Operator::NONE, false, Some("c".to_string()));
    let d = PropositionalConnection::new(Operator::NONE, false, Some("d".to_string()));

    con2.variables.push(c);
    con2.variables.push(d);

    con.variables.push(a);
    con.variables.push(b);
    con.variables.push(con2);

    assert_eq!(con.print_string(), "(a ∨ b ∨ (c ∧ d))");
    con.distributive();
    assert_eq!(con.print_string(), "((a ∨ b ∨ c) ∧ (a ∨ b ∨ d))");
}

#[test]
fn test_cnf_simple() {
    let mut con = PropositionalConnection::new(Operator::AND, false, None);
    let mut con1 = PropositionalConnection::new(Operator::OR, false, None);
    let mut con11 = PropositionalConnection::new(Operator::AND, false, None);
    let mut con12 = PropositionalConnection::new(Operator::AND, false, None);
    let mut con2 = PropositionalConnection::new(Operator::OR, false, None);
    let mut con21 = PropositionalConnection::new(Operator::AND, false, None);
    let mut con22 = PropositionalConnection::new(Operator::AND, false, None);
    let a = PropositionalConnection::new(Operator::NONE, false, Some("a".to_string()));
    let not_a = PropositionalConnection::new(Operator::NONE, true, Some("a".to_string()));
    let b = PropositionalConnection::new(Operator::NONE, false, Some("b".to_string()));
    let not_b = PropositionalConnection::new(Operator::NONE, true, Some("b".to_string()));
    let c = PropositionalConnection::new(Operator::NONE, false, Some("c".to_string()));
    let not_c = PropositionalConnection::new(Operator::NONE, true, Some("c".to_string()));
    let d = PropositionalConnection::new(Operator::NONE, false, Some("d".to_string()));
    let not_d = PropositionalConnection::new(Operator::NONE, true, Some("d".to_string()));

    con11.variables.push(a);
    con11.variables.push(not_d);

    con12.variables.push(not_a);
    con12.variables.push(d);

    con1.variables.push(con11);
    con1.variables.push(con12);

    con21.variables.push(b);
    con21.variables.push(c);

    con22.variables.push(not_b);
    con22.variables.push(not_c);

    con2.variables.push(con21);
    con2.variables.push(con22);

    con.variables.push(con1);
    con.variables.push(con2);

    assert_eq!(
        con.print_string(),
        "(((a ∧ ¬d) ∨ (¬a ∧ d)) ∧ ((b ∧ c) ∨ (¬b ∧ ¬c)))"
    );
    con.to_cnf();
    assert_eq!(
        con.print_string(),
        "((¬a ∨ ¬d) ∧ (d ∨ a) ∧ (¬b ∨ c) ∧ (¬c ∨ b))"
    );
}

#[test]
fn test_cnf_simple_part_2() {
    let mut con = PropositionalConnection::new(Operator::AND, false, None);
    let mut con3 = PropositionalConnection::new(Operator::OR, false, None);
    let mut con31 = PropositionalConnection::new(Operator::AND, false, None);
    let mut con32 = PropositionalConnection::new(Operator::AND, false, None);
    let mut con33 = PropositionalConnection::new(Operator::AND, false, None);
    let b = PropositionalConnection::new(Operator::NONE, false, Some("b".to_string()));
    let not_b = PropositionalConnection::new(Operator::NONE, true, Some("b".to_string()));
    let c = PropositionalConnection::new(Operator::NONE, false, Some("c".to_string()));
    let not_c = PropositionalConnection::new(Operator::NONE, true, Some("c".to_string()));
    let e = PropositionalConnection::new(Operator::NONE, false, Some("e".to_string()));
    let not_e = PropositionalConnection::new(Operator::NONE, true, Some("e".to_string()));
    let g = PropositionalConnection::new(Operator::NONE, false, Some("g".to_string()));
    let not_g = PropositionalConnection::new(Operator::NONE, true, Some("g".to_string()));

    con31.variables.push(c.clone());
    con31.variables.push(not_g);
    con31.variables.push(not_b.clone());
    con31.variables.push(not_e.clone());

    con32.variables.push(not_c);
    con32.variables.push(g.clone());
    con32.variables.push(not_b);
    con32.variables.push(not_e);

    con33.variables.push(c);
    con33.variables.push(g);
    con33.variables.push(b);
    con33.variables.push(e);

    con3.variables.push(con31);
    con3.variables.push(con32);
    con3.variables.push(con33);

    con.variables.push(con3);

    assert_eq!(
        con.print_string(),
        "((c ∧ ¬g ∧ ¬b ∧ ¬e) ∨ (¬c ∧ g ∧ ¬b ∧ ¬e) ∨ (c ∧ g ∧ b ∧ e))"
    );
    con.to_cnf();
    assert_eq!(
        con.print_string(),
        "((c ∨ g) ∧ (c ∨ g ∨ ¬b) ∧ (c ∨ g ∨ ¬e) ∧ (c ∨ ¬b) ∧ (c ∨ ¬b ∨ ¬g) ∧ (c ∨ ¬b) ∧ (c ∨ ¬b ∨ ¬e) ∧ (c ∨ ¬e) ∧ (c ∨ ¬e ∨ ¬g) ∧ (c ∨ ¬e ∨ ¬b) ∧ (c ∨ ¬e) ∧ (g ∨ ¬c ∨ ¬b) ∧ (g ∨ ¬c ∨ ¬e) ∧ (g ∨ c) ∧ (g ∨ ¬b) ∧ (g ∨ ¬e) ∧ (g ∨ ¬b ∨ c) ∧ (g ∨ ¬b) ∧ (g ∨ ¬b ∨ ¬e) ∧ (g ∨ ¬e ∨ c) ∧ (g ∨ ¬e ∨ ¬b) ∧ (g ∨ ¬e) ∧ (b ∨ ¬c ∨ ¬g) ∧ (b ∨ ¬c ∨ ¬e) ∧ (b ∨ g ∨ c) ∧ (b ∨ g ∨ ¬e) ∧ (b ∨ ¬e ∨ c) ∧ (b ∨ ¬e ∨ ¬g) ∧ (b ∨ ¬e) ∧ (e ∨ ¬c ∨ ¬g) ∧ (e ∨ ¬c ∨ ¬b) ∧ (e ∨ g ∨ c) ∧ (e ∨ g ∨ ¬b) ∧ (e ∨ ¬b ∨ c) ∧ (e ∨ ¬b ∨ ¬g) ∧ (e ∨ ¬b))"
    );
}

#[test]
fn test_cnf_complete() {
    let mut con = PropositionalConnection::new(Operator::AND, false, None);
    let mut con1 = PropositionalConnection::new(Operator::OR, false, None);
    let mut con11 = PropositionalConnection::new(Operator::AND, false, None);
    let mut con12 = PropositionalConnection::new(Operator::AND, false, None);
    let mut con2 = PropositionalConnection::new(Operator::OR, false, None);
    let mut con21 = PropositionalConnection::new(Operator::AND, false, None);
    let mut con22 = PropositionalConnection::new(Operator::AND, false, None);
    let mut con3 = PropositionalConnection::new(Operator::OR, false, None);
    let mut con31 = PropositionalConnection::new(Operator::AND, false, None);
    let mut con32 = PropositionalConnection::new(Operator::AND, false, None);
    let mut con33 = PropositionalConnection::new(Operator::AND, false, None);
    let a = PropositionalConnection::new(Operator::NONE, false, Some("a".to_string()));
    let not_a = PropositionalConnection::new(Operator::NONE, true, Some("a".to_string()));
    let b = PropositionalConnection::new(Operator::NONE, false, Some("b".to_string()));
    let not_b = PropositionalConnection::new(Operator::NONE, true, Some("b".to_string()));
    let c = PropositionalConnection::new(Operator::NONE, false, Some("c".to_string()));
    let not_c = PropositionalConnection::new(Operator::NONE, true, Some("c".to_string()));
    let d = PropositionalConnection::new(Operator::NONE, false, Some("d".to_string()));
    let not_d = PropositionalConnection::new(Operator::NONE, true, Some("d".to_string()));
    let e = PropositionalConnection::new(Operator::NONE, false, Some("e".to_string()));
    let not_e = PropositionalConnection::new(Operator::NONE, true, Some("e".to_string()));
    let g = PropositionalConnection::new(Operator::NONE, false, Some("g".to_string()));
    let not_g = PropositionalConnection::new(Operator::NONE, true, Some("g".to_string()));

    con11.variables.push(a);
    con11.variables.push(not_d);

    con12.variables.push(not_a);
    con12.variables.push(d);

    con1.variables.push(con11);
    con1.variables.push(con12);

    con21.variables.push(b.clone());
    con21.variables.push(c.clone());

    con22.variables.push(not_b.clone());
    con22.variables.push(not_c.clone());

    con2.variables.push(con21);
    con2.variables.push(con22);

    con31.variables.push(c.clone());
    con31.variables.push(not_g);
    con31.variables.push(not_b.clone());
    con31.variables.push(not_e.clone());

    con32.variables.push(not_c);
    con32.variables.push(g.clone());
    con32.variables.push(not_b);
    con32.variables.push(not_e);

    con33.variables.push(c);
    con33.variables.push(g);
    con33.variables.push(b);
    con33.variables.push(e);

    con3.variables.push(con31);
    con3.variables.push(con32);
    con3.variables.push(con33);

    con.variables.push(con1);
    con.variables.push(con2);
    con.variables.push(con3);

    con.to_cnf();
}
