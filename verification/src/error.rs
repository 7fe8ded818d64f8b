//! The error raised when the modules of a package cannot be ordered.

use vstd::prelude::*;

verus! {

/// The sole failure mode of compilation sequencing: the dependency graph
/// contains a cycle. `modules` lists the identifiers of one concrete cycle,
/// in import order: each module imports the next, and the last imports the
/// first.
pub enum Error {
    ImportCycle { modules: Vec<String> },
}

} // verus!
