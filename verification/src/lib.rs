pub mod antecedent;
pub mod connections;
pub mod counting;
pub mod logic;
pub mod sat_linked_hash_set;
pub mod variable;
pub mod solver;
pub mod branching;
pub mod propagation;
pub mod conflict_set;
pub mod learned_clause;
pub mod restart;
pub mod implication_graph;
pub mod search;
pub mod learning;
pub mod driver;
pub mod propositional;
pub mod dimacs;
pub mod soundness;
pub mod laws;
pub mod progress;
pub mod var_unsat;
pub mod meaning;
pub mod clausal;
pub mod course;
