//! A workspace as the package manager describes it: packages, the targets of
//! each package, and the dependencies between packages.
use vstd::prelude::*;
use crate::base::Edition;

verus! {

/// What a target is built as.
#[derive(Clone, Copy, Debug, PartialEq, Eq, Structural)]
pub enum TargetKind {
    Bin,
    Lib,
    Example,
    Test,
    Bench,
    Other,
}

/// One compilation target of a package.
#[derive(Clone, Debug)]
pub struct TargetData {
    pub name: String,
    /// Path of the target's root file.
    pub root: String,
    pub kind: TargetKind,
}

/// A dependency of a package: the index of another package of the same
/// workspace and the alias under which it is used.
#[derive(Clone, Debug)]
pub struct PackageDependency {
    pub pkg: usize,
    pub name: String,
}

/// One package.
#[derive(Clone, Debug)]
pub struct PackageData {
    pub name: String,
    /// Folder that holds the package's manifest.
    pub root: String,
    pub is_member: bool,
    pub edition: Edition,
    pub targets: Vec<TargetData>,
    pub dependencies: Vec<PackageDependency>,
}

/// The packages of a workspace. A package is known by its position in
/// `packages`.
#[derive(Clone, Debug)]
pub struct CargoWorkspace {
    pub packages: Vec<PackageData>,
    pub workspace_root: String,
}

} // verus!
