//! And-Inverter Graphs: references, nodes, the graph store, layered
//! topological scheduling, simulation, CNF encoding, and the ASCII AIGER
//! text format.
pub mod aig;
pub mod aiger;
pub mod cnf;
pub mod eval;
pub mod layering;
pub mod node;
pub mod parse;
pub mod parser;
pub mod reference;
pub mod text;
pub mod toposort;
pub mod write;
