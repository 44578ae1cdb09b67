pub mod module_graph;
pub mod analysis;
pub mod reduction;
pub mod checks;
pub mod naming;
pub mod export;
pub mod parser;
