//! Core logic of a WebAssembly package runtime: semantic versions and
//! specifiers, a package dependency resolver over an abstract registry,
//! filesystem helper operations over an abstract virtual filesystem,
//! a structural validity check for WebAssembly binaries, and snapshot
//! journal events.

pub mod text;
pub mod version;
pub mod registry;
pub mod graph;
pub mod resolver;
pub mod vfs;
pub mod wasm;
pub mod snapshot;

use vstd::prelude::*;

verus! {

} // verus!
