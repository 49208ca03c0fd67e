//! The output generators the command line drives.  The wire formats are owned
//! by external collaborators; only the generator handles live here, while the
//! formatting and the file writing stay with the caller.

use vstd::prelude::*;

verus! {

/// Generator handle for the circuit-constants declaration.
pub struct NoirGenerator {}

impl NoirGenerator {
    /// A fresh generator.
    pub fn new() -> (r: NoirGenerator) {
        NoirGenerator {  }
    }
}

/// Generator handle for the prover-input table.
pub struct TomlGenerator {}

impl TomlGenerator {
    /// A fresh generator.
    pub fn new() -> (r: TomlGenerator) {
        TomlGenerator {  }
    }
}

} // verus!
