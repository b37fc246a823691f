use sat_solver::propositional::Operator;
use sat_solver::propositional::PropositionalConnection;
use sat_solver::solver::Solver;

const NAMES: [&str; 4] = ["a", "b", "c", "d"];

fn atom(name: &str, negated: bool) -> PropositionalConnection {
    PropositionalConnection::new(Operator::NONE, negated, Some(name.to_string()))
}

fn group(operator: Operator, negated: bool, members: Vec<PropositionalConnection>) -> PropositionalConnection {
    let mut g = PropositionalConnection::new(operator, negated, None);
    for m in members {
        g.variables.push(m);
    }
    g
}

fn next(seed: &mut u64) -> u64 {
    *seed = seed.wrapping_mul(6364136223846793005).wrapping_add(1442695040888963407);
    *seed >> 33
}

/// A random proper formula over four variables: groups of no, one, two or
/// three members, negated or not.
fn random_formula(seed: &mut u64, depth: usize) -> PropositionalConnection {
    if depth == 0 || next(seed) % 3 == 0 {
        return atom(NAMES[(next(seed) % 4) as usize], next(seed) % 2 == 0);
    }
    let operator = if next(seed) % 2 == 0 { Operator::AND } else { Operator::OR };
    let negated = next(seed) % 4 == 0;
    let count = match next(seed) % 8 {
        0 => 0,
        1 => 1,
        2 | 3 | 4 => 2,
        _ => 3,
    };
    let mut members = Vec::new();
    for _ in 0..count {
        members.push(random_formula(seed, depth - 1));
    }
    group(operator, negated, members)
}

/// The truth value of the formula when variable `i` of `NAMES` has the
/// value of bit `i` of `values`.
fn holds(f: &PropositionalConnection, values: u32) -> bool {
    let inner = match &f.variable {
        Some(name) => {
            let i = NAMES.iter().position(|n| n == name).unwrap();
            values >> i & 1 == 1
        }
        None => {
            if f.operator == Operator::AND {
                f.variables.iter().all(|m| holds(m, values))
            } else {
                f.variables.iter().any(|m| holds(m, values))
            }
        }
    };
    f.is_negated != inner
}

fn alike(f: &PropositionalConnection, g: &PropositionalConnection) -> bool {
    (0..16).all(|values| holds(f, values) == holds(g, values))
}

fn is_clause(f: &PropositionalConnection) -> bool {
    f.variable.is_none()
        && !f.is_negated
        && f.operator == Operator::OR
        && f.variables.iter().all(|l| l.variable.is_some() && l.variables.is_empty())
        && f.variables.iter().enumerate().all(|(i, l)| {
            f.variables[..i].iter().all(|earlier| earlier.variable != l.variable)
        })
}

fn in_cnf(f: &PropositionalConnection) -> bool {
    f.variable.is_none()
        && !f.is_negated
        && f.operator == Operator::AND
        && f.variables.iter().all(is_clause)
}

#[test]
fn every_pass_keeps_the_meaning() {
    let mut seed: u64 = 20240229;
    for _ in 0..4000 {
        let f = random_formula(&mut seed, 3);
        let mut g = f.clone();
        g.demorgans();
        assert!(alike(&f, &g), "De Morgan's laws changed {}", f.print_string());
        let before = g.clone();
        g.distributive();
        assert!(alike(&before, &g), "distribution changed {}", before.print_string());
        let before = g.clone();
        g.clean_cnf();
        assert!(alike(&before, &g), "the clean-up changed {}", before.print_string());
        let mut h = f.clone();
        h.distributive();
        assert!(alike(&f, &h), "distribution changed {}", f.print_string());
        let mut h = f.clone();
        h.clean_cnf();
        assert!(alike(&f, &h), "the clean-up changed {}", f.print_string());
    }
}

#[test]
fn the_normal_form_is_a_conjunction_of_clauses_with_the_same_meaning() {
    let mut seed: u64 = 77;
    for _ in 0..4000 {
        let f = random_formula(&mut seed, 3);
        let mut g = f.clone();
        g.to_cnf();
        assert!(in_cnf(&g), "{} became {}", f.print_string(), g.print_string());
        assert!(alike(&f, &g), "{} became {}", f.print_string(), g.print_string());
        let mut h = f.clone();
        h.complete();
        assert!(in_cnf(&h));
        assert!(alike(&f, &h));
    }
}

#[test]
fn exclusive_or_keeps_its_meaning() {
    let f = group(
        Operator::AND,
        false,
        vec![
            group(
                Operator::OR,
                false,
                vec![
                    group(Operator::AND, false, vec![atom("a", false), atom("d", true)]),
                    group(Operator::AND, false, vec![atom("a", true), atom("d", false)]),
                ],
            ),
            group(
                Operator::OR,
                false,
                vec![
                    group(Operator::AND, false, vec![atom("b", false), atom("c", false)]),
                    group(Operator::AND, false, vec![atom("b", true), atom("c", true)]),
                ],
            ),
        ],
    );
    let mut g = f.clone();
    g.to_cnf();
    assert_eq!(g.print_string(), "((¬a ∨ ¬d) ∧ (d ∨ a) ∧ (¬b ∨ c) ∧ (¬c ∨ b))");
    assert!(in_cnf(&g));
    assert!(alike(&f, &g));
    assert!(holds(&g, 0b0001));
    assert!(!holds(&g, 0b1001));
    assert!(holds(&g, 0b0110 | 0b1000));
}

#[test]
fn a_disjunction_of_one_variable_is_that_variable() {
    let f = group(Operator::OR, true, vec![atom("a", false)]);
    let mut g = f.clone();
    g.distributive();
    assert_eq!(g.print_string(), "¬a");
    assert!(g.variable.is_some());
    assert!(alike(&f, &g));
    let mut h = f.clone();
    h.to_cnf();
    assert_eq!(h.print_string(), "¬a");
    assert!(in_cnf(&h));
    assert!(alike(&f, &h));
}

#[test]
fn a_tautology_stays_under_a_disjunction() {
    let inner = group(Operator::OR, false, vec![atom("a", false), atom("a", true)]);
    let wide = group(
        Operator::OR,
        false,
        vec![group(Operator::OR, false, vec![inner, atom("b", false)]), atom("c", false)],
    );
    let mut g = wide.clone();
    g.clean_cnf();
    assert_eq!(g.print_string(), "((a ∨ ¬a) ∨ b ∨ c)");
    assert!(alike(&wide, &g));
    let f = group(Operator::AND, false, vec![wide, atom("b", true), atom("c", true)]);
    assert!(holds(&f, 0));
    let mut h = f.clone();
    h.to_cnf();
    assert_eq!(h.print_string(), "(¬b ∧ ¬c)");
    assert!(in_cnf(&h));
    assert!(alike(&f, &h));
}

#[test]
fn a_conjunction_in_first_place_is_distributed() {
    let f = group(
        Operator::AND,
        false,
        vec![
            group(
                Operator::OR,
                false,
                vec![
                    group(Operator::AND, false, vec![atom("a", false), atom("b", false)]),
                    atom("c", false),
                ],
            ),
            atom("d", false),
        ],
    );
    let mut g = f.clone();
    g.to_cnf();
    assert_eq!(g.print_string(), "((c ∨ a) ∧ (c ∨ b) ∧ d)");
    assert!(in_cnf(&g));
    assert!(alike(&f, &g));
}

#[test]
fn groups_without_members_have_their_meaning() {
    let mut never = group(Operator::OR, false, vec![]);
    never.to_cnf();
    assert!(in_cnf(&never));
    assert_eq!(never.variables.len(), 1);
    assert_eq!(never.variables[0].variables.len(), 0);
    assert!((0..16).all(|values| !holds(&never, values)));
    let mut always = group(Operator::OR, true, vec![]);
    always.to_cnf();
    assert!(in_cnf(&always));
    assert_eq!(always.variables.len(), 0);
    assert!((0..16).all(|values| holds(&always, values)));
}

fn literal(f: &PropositionalConnection) -> Option<String> {
    let name = f.variable.as_ref()?;
    let number = NAMES.iter().position(|n| n == name).unwrap() + 1;
    Some(format!("{}{}", if f.is_negated { "-" } else { "" }, number))
}

fn clause(f: &PropositionalConnection) -> Option<String> {
    if f.variable.is_some() {
        return Some(format!("{} 0\n", literal(f)?));
    }
    if f.operator != Operator::OR || f.is_negated {
        return None;
    }
    let mut line = String::new();
    for m in &f.variables {
        line.push_str(&literal(m)?);
        line.push(' ');
    }
    line.push_str("0\n");
    Some(line)
}

/// The clauses of a formula in conjunctive normal form, or `None` for a
/// formula of another shape.
fn clauses(f: &PropositionalConnection) -> Option<Vec<String>> {
    if f.variable.is_none() && f.operator == Operator::AND && !f.is_negated {
        f.variables.iter().map(clause).collect()
    } else {
        Some(vec![clause(f)?])
    }
}

#[test]
fn the_solver_agrees_with_the_truth_table_of_the_formula() {
    let mut seed: u64 = 977;
    let mut solved = 0;
    let mut unsatisfiable = 0;
    for _ in 0..3000 {
        let f = random_formula(&mut seed, 3);
        let mut g = f.clone();
        g.to_cnf();
        let lines = clauses(&g).unwrap();
        let mut text = format!("p cnf 4 {}\n", lines.len());
        for line in &lines {
            text.push_str(line);
        }
        let mut solver = Solver::new();
        solver.load_cnf(&text);
        let result = solver.solve();
        let expected = (0..16).any(|values| holds(&f, values));
        assert_eq!(result.sat, expected, "{} as {}", f.print_string(), g.print_string());
        if result.sat {
            assert!(solver.final_check());
            let mut values = 0;
            for v in &solver.variables {
                let i = v.name.parse::<usize>().unwrap() - 1;
                if v.value == Some(true) {
                    values |= 1 << i;
                }
            }
            assert!(holds(&f, values), "{} under {:04b}", f.print_string(), values);
        } else {
            unsatisfiable += 1;
        }
        solved += 1;
    }
    assert_eq!(solved, 3000);
    assert!(unsatisfiable > 0);
}
