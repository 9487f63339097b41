//! What the server serves besides the game: the loaded package. (The static
//! client assets are read off disk by the embedder, outside the library.)

use crate::package::Package;
use vstd::prelude::*;

verus! {

/// The resources the serving endpoint holds on to.
pub struct ServerResources {
    pub package: Package,
}

impl ServerResources {
    /// Wraps the loaded package.
    pub fn load(package: Package) -> (r: ServerResources)
        ensures
            r.package.wasm_module@ == package.wasm_module@,
    {
        ServerResources { package }
    }

    /// The loaded package.
    pub fn package(&self) -> (r: &Package)
        ensures
            r.wasm_module@ == self.package.wasm_module@,
    {
        &self.package
    }
}

} // verus!
