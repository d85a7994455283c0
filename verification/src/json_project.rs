//! A workspace that was written down by hand: a list of root folders and a
//! list of crates, each with its root module, edition and dependencies.
use vstd::prelude::*;
use crate::base::Edition;

verus! {

/// A root folder of the project.
#[derive(Clone, Debug)]
pub struct Root {
    pub path: String,
}

/// A dependency of a declared crate: the index of another declared crate
/// and the alias under which it is used.
#[derive(Clone, Debug)]
pub struct Dep {
    pub krate: usize,
    pub name: String,
}

/// A declared crate.
#[derive(Clone, Debug)]
pub struct Crate {
    pub root_module: String,
    pub edition: Edition,
    pub deps: Vec<Dep>,
}

/// The whole declaration. A crate is known by its position in `crates`.
#[derive(Clone, Debug)]
pub struct JsonProject {
    pub roots: Vec<Root>,
    pub crates: Vec<Crate>,
}

} // verus!
