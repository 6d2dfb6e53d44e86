//! Static-library link-order resolution.
//!
//! Given a collection of static archives, the crate determines a linear
//! ordering in which they can be handed to a single-pass linker, so that
//! every unresolved symbol one archive references is defined by an archive
//! appearing later in the list. It reports a cycle among the libraries, or
//! an ambiguous multiple definition of a symbol that is actually needed,
//! as the two fatal error conditions.

mod arguard;
mod catalog;
mod errors;
mod extract;
mod graph;
mod libinfo;
mod libname;
mod order;
mod symbols;
mod table;

pub use catalog::AllLibs;
pub use catalog::catalog_libs;
pub use errors::DepFindError;
pub use extract::get_symbols;
pub use graph::CycleDetected;
pub use graph::DependencyGraph;
pub use graph::toposort;
pub use libinfo::LibInfo;
pub use libname::get_static_lib_name;
pub use libname::is_static_lib;
pub use order::build_dependency_graph;
pub use order::order_dependencies;
pub use symbols::DefinedSymbol;
pub use symbols::UnDefinedSymbol;
pub use table::AllSymbols;
pub use table::generate_lookup_tables;
pub use table::get_lib_for_symbol;
