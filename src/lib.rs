//! A CDCL decision procedure for Boolean satisfiability of CNF formulas.
//!
//! `cnf::Cnf` propagates through two watched literals per clause and decides
//! by VSIDS scores with phase saving; `cdclcnf::Cdcl` rescans the clauses and
//! decides on the first unassigned literal. Both learn first-UIP clauses and
//! backjump, share the assignment store (`assignment`), the conflict analysis
//! (`analysis`) and the learning step (`search`), and answer exactly whether
//! the given formula is satisfiable. `dimacs` reads problems in DIMACS CNF.
pub mod literal;
pub mod assignment;
pub mod progress;
pub mod analysis;
pub mod search;
pub mod clause;
pub mod cdclcnf;
pub mod cnf;
pub mod laws;
pub mod dimacs;
