//! Minimising the number of transactions that settle a network of debts.
//!
//! Every person is a vertex with a weight: negative weights are debts owed to
//! the network, positive weights are claims on it. A solution is a list of
//! transfers `(Edge { u, v }, amount)`, read as "`v` pays `amount` to `u`",
//! such that every person's inflow minus outflow equals their weight.

pub mod enumerate;
pub mod graph;
pub mod probleminstance;
pub mod solution;
pub mod approximation;
pub mod exact_partitioning;
pub mod partition;
pub mod dynamic_program;
pub mod tree_bases;
pub mod graph_parser;
pub mod optimality;
