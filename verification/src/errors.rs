use vstd::prelude::*;
use crate::graph::CycleDetected;
use crate::symbols::DefinedSymbol;

verus! {

/// The two fatal outcomes of a resolution run. Everything else (an
/// unreadable member, an unparseable object, a symbol nothing defines) is
/// tolerated and simply contributes nothing.
#[derive(Debug)]
pub enum DepFindError {
    /// The inter-library dependency graph holds a cycle, so no valid
    /// single-pass link order exists.
    CylicDependency,
    /// A symbol that some library actually requires is defined by two
    /// distinct libraries, so its resolution would be ambiguous. The two
    /// defining libraries and the symbol are named.
    MultipleDefines { dependency_a: String, dependency_b: String, symbol: DefinedSymbol },
}

impl From<CycleDetected> for DepFindError {
    fn from(_value: CycleDetected) -> (r: DepFindError) {
        DepFindError::CylicDependency
    }
}

impl vstd::std_specs::convert::FromSpecImpl<CycleDetected> for DepFindError {
    open spec fn obeys_from_spec() -> bool {
        true
    }

    open spec fn from_spec(_value: CycleDetected) -> DepFindError {
        DepFindError::CylicDependency
    }
}

} // verus!
