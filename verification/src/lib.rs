//! Module-tree resolution and workspace-to-crate-graph projection.
//!
//! The crate has two halves. The first half turns the files of a source root
//! into a tree of modules, following `mod name;` declarations through a
//! file resolver. The second half turns a description of a workspace into a
//! [`crate_graph::CrateGraph`]: a graph of compilation units with named
//! dependency edges and no cycles.
pub mod base;
pub mod builder;
pub mod cargo_graph;
pub mod cargo_workspace;
pub mod collections;
pub mod crate_graph;
pub mod cycles;
pub mod database;
pub mod discover;
pub mod growth;
pub mod json_graph;
pub mod json_project;
pub mod loading;
pub mod memory;
pub mod module_tree;
pub mod paths;
pub mod project_root;
pub mod project_workspace;
pub mod queries;
pub mod resolve;
pub mod scope;
pub mod shape;
pub mod syntax;
pub mod sysroot;

pub use crate::base::Edition;
pub use crate::base::FileId;
pub use crate::base::SourceRootId;
pub use crate::cargo_workspace::CargoWorkspace;
pub use crate::cargo_workspace::PackageData;
pub use crate::cargo_workspace::PackageDependency;
pub use crate::cargo_workspace::TargetData;
pub use crate::cargo_workspace::TargetKind;
pub use crate::crate_graph::CrateGraph;
pub use crate::crate_graph::CrateId;
pub use crate::crate_graph::CyclicDependencies;
pub use crate::crate_graph::Dependency;
pub use crate::crate_graph::RefusedDep;
pub use crate::json_project::JsonProject;
pub use crate::project_root::ProjectRoot;
pub use crate::project_workspace::ProjectWorkspace;
pub use crate::sysroot::Sysroot;
pub use crate::sysroot::SysrootCrateData;
