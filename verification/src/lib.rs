pub mod util;
pub mod implication_graph;
pub mod sat_solver;
pub mod parser;
