//! A workspace in one of its two forms, and its projection onto the list of
//! root folders and onto the crate graph.
use vstd::prelude::*;
use crate::base::FileId;
use crate::cargo_workspace::CargoWorkspace;
use crate::cargo_workspace::PackageData;
use crate::cargo_graph::cargo_crate_graph;
use crate::cargo_graph::cargo_graph;
use crate::cargo_graph::cargo_refused;
use crate::cargo_graph::lib_edges_present;
use crate::cargo_graph::pkg_offset;
use crate::json_graph::json_crate_graph;
use crate::json_graph::json_graph;
use crate::json_graph::json_refused;
use crate::crate_graph::acyclic;
use crate::discover::discover_manifest;
use crate::discover::manifest_found;
use crate::discover::no_manifest;
use crate::discover::not_found_message;
use crate::discover::Manifest;
use crate::crate_graph::CrateGraph;
use crate::crate_graph::refused_view;
use crate::crate_graph::CrateView;
use crate::crate_graph::DepRequest;
use crate::crate_graph::RefusedDep;
use crate::json_project::JsonProject;
use crate::json_project::Root;
use crate::paths::path_has_prefix;
use crate::paths::path_starts_with;
use crate::project_root::ProjectRoot;
use crate::project_root::ProjectRootView;
use crate::sysroot::Sysroot;

verus! {

/// A workspace, either discovered through the package manager or declared
/// by hand.
#[derive(Clone, Debug)]
pub enum ProjectWorkspace {
    /// Packages of the package manager together with the sysroot.
    Cargo { cargo: CargoWorkspace, sysroot: Sysroot },
    /// A project declared by hand.
    Json { project: JsonProject },
}

/// Position of the first of the first `n` roots that is a prefix of `path`.
pub open spec fn first_root_above(roots: Seq<Root>, path: Seq<char>, n: int) -> Option<int>
    decreases n,
{
    if n <= 0 {
        None
    } else {
        match first_root_above(roots, path, n - 1) {
            Some(i) => Some(i),
            None => if path_has_prefix(path, roots[n - 1].path@) {
                Some(n - 1)
            } else {
                None
            },
        }
    }
}

/// The position of the first `true` among the first `n` answers.
pub open spec fn first_true(answers: Seq<bool>, n: int) -> Option<int>
    decreases n,
{
    if n <= 0 {
        None
    } else {
        match first_true(answers, n - 1) {
            Some(i) => Some(i),
            None => if answers[n - 1] {
                Some(n - 1)
            } else {
                None
            },
        }
    }
}

/// The position of the first answer that is a yes, if there is one.
pub fn first_yes(answers: &Vec<bool>) -> (found: Option<usize>)
    ensures
        match found {
            Some(i) => first_true(answers@, answers@.len() as int) == Some(i as int),
            None => first_true(answers@, answers@.len() as int) is None,
        },
{
    let mut i: usize = 0;
    while i < answers.len()
        invariant
            0 <= i <= answers.len(),
            first_true(answers@, i as int) is None,
        decreases answers.len() - i,
    {
        if answers[i] {
            proof {
                assert(first_true(answers@, i as int + 1) == Some(i as int));
                lemma_first_true_stable(answers@, i as int + 1, answers@.len() as int);
            }
            return Some(i);
        }
        i += 1;
    }
    None
}

proof fn lemma_first_true_stable(answers: Seq<bool>, n: int, m: int)
    requires
        0 <= n <= m,
        first_true(answers, n) is Some,
    ensures
        first_true(answers, m) == first_true(answers, n),
    decreases m - n,
{
    if n < m {
        lemma_first_true_stable(answers, n, m - 1);
    }
}

/// Where each answer says whether the root at its position lies above
/// `path`, the first yes is the first root above `path`.
proof fn lemma_first_root_is_first_true(roots: Seq<Root>, path: Seq<char>, answers: Seq<bool>, n: int)
    requires
        0 <= n <= answers.len(),
        forall|i: int| 0 <= i < n ==> #[trigger] answers[i] == path_has_prefix(path, roots[i].path@),
    ensures
        first_root_above(roots, path, n) == first_true(answers, n),
    decreases n,
{
    if n > 0 {
        lemma_first_root_is_first_true(roots, path, answers, n - 1);
    }
}

proof fn lemma_first_true_in_range(answers: Seq<bool>, n: int)
    ensures
        first_true(answers, n) matches Some(i) ==> 0 <= i < n,
    decreases n,
{
    if n > 0 {
        lemma_first_true_in_range(answers, n - 1);
    }
}

/// The paths of the root files of the targets of the first `p` packages.
pub open spec fn package_root_paths(pkgs: Seq<PackageData>, p: int) -> Seq<Seq<char>>
    decreases p,
{
    if p <= 0 {
        Seq::empty()
    } else {
        package_root_paths(pkgs, p - 1) + Seq::new(
            pkgs[p - 1].targets@.len(),
            |t: int| pkgs[p - 1].targets@[t].root@,
        )
    }
}

proof fn lemma_package_root_paths_len(pkgs: Seq<PackageData>, p: int)
    ensures
        package_root_paths(pkgs, p).len() == pkg_offset(pkgs, p),
    decreases p,
{
    if p > 0 {
        lemma_package_root_paths_len(pkgs, p - 1);
    }
}

/// `answer` is what `load` gave for a path with the text `path`.
pub open spec fn answers<F: Fn(&str) -> Option<FileId>>(load: &F, path: Seq<char>, answer: Option<FileId>) -> bool {
    exists|p: &str| p@ == path && #[trigger] call_ensures(*load, (p,), answer)
}

impl ProjectWorkspace {
    /// The root folders: for a declared project its roots, all members; for
    /// a workspace of the package manager the folder of each package, then
    /// the folder of each sysroot crate, none of which is a member.
    pub open spec fn spec_roots(&self) -> Seq<ProjectRootView> {
        match self {
            ProjectWorkspace::Json { project } => Seq::new(
                project.roots@.len(),
                |i: int| ProjectRootView { path: project.roots@[i].path@, is_member: true },
            ),
            ProjectWorkspace::Cargo { cargo, sysroot } => Seq::new(
                cargo.packages@.len(),
                |i: int|
                    ProjectRootView { path: cargo.packages@[i].root@, is_member: cargo.packages@[i].is_member },
            ) + Seq::new(
                sysroot.crates@.len(),
                |i: int| ProjectRootView { path: sysroot.crates@[i].root_dir@, is_member: false },
            ),
        }
    }

    /// Number of declared crates, or of packages.
    pub open spec fn spec_count(&self) -> nat {
        match self {
            ProjectWorkspace::Json { project } => project.crates@.len(),
            ProjectWorkspace::Cargo { cargo, .. } => cargo.packages@.len(),
        }
    }

    /// The root of the workspace that lies above `path`.
    pub open spec fn spec_workspace_root_for(&self, path: Seq<char>) -> Option<Seq<char>> {
        match self {
            ProjectWorkspace::Cargo { cargo, .. } => if path_has_prefix(path, cargo.workspace_root@) {
                Some(cargo.workspace_root@)
            } else {
                None
            },
            ProjectWorkspace::Json { project } => match first_root_above(
                project.roots@,
                path,
                project.roots@.len() as int,
            ) {
                Some(i) => Some(project.roots@[i].path@),
                None => None,
            },
        }
    }

    /// The paths of the root files, in the order in which they are loaded.
    pub open spec fn spec_root_paths(&self) -> Seq<Seq<char>> {
        match self {
            ProjectWorkspace::Json { project } => Seq::new(
                project.crates@.len(),
                |i: int| project.crates@[i].root_module@,
            ),
            ProjectWorkspace::Cargo { cargo, sysroot } => Seq::new(
                sysroot.crates@.len(),
                |i: int| sysroot.crates@[i].root@,
            ) + package_root_paths(cargo.packages@, cargo.packages@.len() as int),
        }
    }

    /// The crate graph that follows from the loader's answers.
    pub open spec fn spec_crate_graph(&self, loads: Seq<Option<FileId>>) -> Seq<CrateView> {
        match self {
            ProjectWorkspace::Json { project } => json_graph(project.crates@, loads),
            ProjectWorkspace::Cargo { cargo, sysroot } => cargo_graph(sysroot.crates@, cargo.packages@, loads),
        }
    }

    /// The edges that the crate graph refuses, in the order in which they
    /// are asked for.
    pub open spec fn spec_refused(&self, loads: Seq<Option<FileId>>) -> Seq<DepRequest> {
        match self {
            ProjectWorkspace::Json { project } => json_refused(project.crates@, loads),
            ProjectWorkspace::Cargo { cargo, sysroot } => cargo_refused(sysroot.crates@, cargo.packages@, loads),
        }
    }

    /// In a workspace of the package manager, every crate of a package that
    /// is not the package's library has an edge to that library.
    pub open spec fn spec_lib_edges(&self, loads: Seq<Option<FileId>>, g: Seq<CrateView>) -> bool {
        match self {
            ProjectWorkspace::Json { .. } => true,
            ProjectWorkspace::Cargo { cargo, sysroot } => lib_edges_present(
                cargo.packages@,
                loads,
                sysroot.crates@.len() as int,
                cargo.packages@.len() as int,
                g,
            ),
        }
    }

    /// Finds the manifest of the workspace above `path` and has `load`
    /// read the workspace that the manifest stands for. `probe` says
    /// whether a file exists. Where no manifest is found, `load` is not
    /// called, and the error names `path`.
    pub fn discover<P: Fn(&str) -> bool, L: FnOnce(Manifest) -> Result<ProjectWorkspace, String>>(
        path: &str,
        probe: &P,
        load: L,
    ) -> (res: Result<ProjectWorkspace, String>)
        requires
            forall|p: &str| call_requires(*probe, (p,)),
            forall|manifest: Manifest| call_requires(load, (manifest,)),
        ensures
            (exists|manifest: Manifest|
                manifest_found(probe, path@, manifest@) && #[trigger] call_ensures(load, (manifest,), res)) || (
            no_manifest(probe, path@) && (res matches Err(message) && message@ == not_found_message(path@))),
    {
        match discover_manifest(path, probe) {
            Ok(manifest) => {
                let ghost found = manifest;
                let res = load(manifest);
                assert(call_ensures(load, (found,), res));
                res
            },
            Err(message) => Err(message),
        }
    }

    /// The root folders of the workspace, each with the mark that says
    /// whether it is a member.
    pub fn to_roots(&self) -> (roots: Vec<ProjectRoot>)
        ensures
            roots@.map_values(|r: ProjectRoot| r@) == self.spec_roots(),
    {
        let mut roots: Vec<ProjectRoot> = Vec::new();
        match self {
            ProjectWorkspace::Json { project } => {
                let mut i: usize = 0;
                while i < project.roots.len()
                    invariant
                        0 <= i <= project.roots.len(),
                        roots@.len() == i,
                        forall|j: int|
                            0 <= j < i ==> (#[trigger] roots@[j])@ == (ProjectRootView {
                                path: project.roots@[j].path@,
                                is_member: true,
                            }),
                    decreases project.roots.len() - i,
                {
                    roots.push(ProjectRoot::new(project.roots[i].path.clone(), true));
                    i += 1;
                }
                assert(roots@.map_values(|r: ProjectRoot| r@) =~= self.spec_roots());
            },
            ProjectWorkspace::Cargo { cargo, sysroot } => {
                let mut i: usize = 0;
                while i < cargo.packages.len()
                    invariant
                        0 <= i <= cargo.packages.len(),
                        roots@.len() == i,
                        forall|j: int|
                            0 <= j < i ==> (#[trigger] roots@[j])@ == (ProjectRootView {
                                path: cargo.packages@[j].root@,
                                is_member: cargo.packages@[j].is_member,
                            }),
                    decreases cargo.packages.len() - i,
                {
                    let pkg = &cargo.packages[i];
                    roots.push(ProjectRoot::new(pkg.root.clone(), pkg.is_member));
                    i += 1;
                }
                let np = cargo.packages.len();
                let mut i: usize = 0;
                while i < sysroot.crates.len()
                    invariant
                        0 <= i <= sysroot.crates.len(),
                        np == cargo.packages.len(),
                        roots@.len() == np + i,
                        forall|j: int|
                            0 <= j < np ==> (#[trigger] roots@[j])@ == (ProjectRootView {
                                path: cargo.packages@[j].root@,
                                is_member: cargo.packages@[j].is_member,
                            }),
                        forall|j: int|
                            np <= j < np + i ==> (#[trigger] roots@[j])@ == (ProjectRootView {
                                path: sysroot.crates@[j - np].root_dir@,
                                is_member: false,
                            }),
                    decreases sysroot.crates.len() - i,
                {
                    roots.push(ProjectRoot::new(sysroot.crates[i].root_dir.clone(), false));
                    i += 1;
                }
                assert(roots@.map_values(|r: ProjectRoot| r@) =~= self.spec_roots());
            },
        }
        roots
    }

    /// Number of declared crates, or of packages.
    pub fn count(&self) -> (n: usize)
        ensures
            n == self.spec_count(),
    {
        match self {
            ProjectWorkspace::Json { project } => project.crates.len(),
            ProjectWorkspace::Cargo { cargo, .. } => cargo.packages.len(),
        }
    }

    /// The root of the workspace that lies above `path`: for a workspace of
    /// the package manager its one root, for a declared project the first
    /// of its roots that does.
    pub fn workspace_root_for(&self, path: &str) -> (root: Option<&String>)
        ensures
            match root {
                Some(r) => self.spec_workspace_root_for(path@) == Some(r@),
                None => self.spec_workspace_root_for(path@) is None,
            },
    {
        match self {
            ProjectWorkspace::Cargo { cargo, .. } => {
                if path_starts_with(path, cargo.workspace_root.as_str()) {
                    Some(&cargo.workspace_root)
                } else {
                    None
                }
            },
            ProjectWorkspace::Json { project } => {
                let mut answers: Vec<bool> = Vec::new();
                let mut i: usize = 0;
                while i < project.roots.len()
                    invariant
                        0 <= i <= project.roots.len(),
                        answers@.len() == i,
                        forall|k: int|
                            0 <= k < i ==> #[trigger] answers@[k] == path_has_prefix(path@, project.roots@[k].path@),
                    decreases project.roots.len() - i,
                {
                    answers.push(path_starts_with(path, project.roots[i].path.as_str()));
                    i += 1;
                }
                proof {
                    lemma_first_root_is_first_true(project.roots@, path@, answers@, answers@.len() as int);
                }
                match first_yes(&answers) {
                    Some(k) => {
                        proof {
                            lemma_first_true_in_range(answers@, answers@.len() as int);
                        }
                        Some(&project.roots[k].path)
                    },
                    None => None,
                }
            },
        }
    }

    /// The crate graph, from the loader's answers for the root files in the
    /// order of [`ProjectWorkspace::spec_root_paths`], together with the
    /// edges that were asked for and refused. Where `loads` is shorter than
    /// that, the missing answers count as "not loaded".
    pub fn crate_graph_from_loads(&self, loads: &Vec<Option<FileId>>) -> (res: (CrateGraph, Vec<RefusedDep>))
        requires
            self.spec_root_paths().len() <= u32::MAX,
        ensures
            res.0.wf(),
            acyclic(res.0@),
            res.0@ == self.spec_crate_graph(loads@),
            refused_view(res.1@) == self.spec_refused(loads@),
            self.spec_lib_edges(loads@, res.0@),
    {
        let res = match self {
            ProjectWorkspace::Json { project } => json_crate_graph(project, loads),
            ProjectWorkspace::Cargo { cargo, sysroot } => {
                proof {
                    lemma_package_root_paths_len(cargo.packages@, cargo.packages@.len() as int);
                }
                cargo_crate_graph(cargo, sysroot, loads)
            },
        };
        proof {
            res.0.lemma_acyclic();
        }
        res
    }

    /// Asks `load` for each root file, in order.
    pub fn load_roots<F: Fn(&str) -> Option<FileId>>(&self, load: &F) -> (loads: Vec<Option<FileId>>)
        requires
            forall|p: &str| call_requires(*load, (p,)),
        ensures
            loads@.len() == self.spec_root_paths().len(),
            forall|i: int|
                0 <= i < loads@.len() ==> answers(load, self.spec_root_paths()[i], #[trigger] loads@[i]),
    {
        let mut loads: Vec<Option<FileId>> = Vec::new();
        match self {
            ProjectWorkspace::Json { project } => {
                let mut i: usize = 0;
                while i < project.crates.len()
                    invariant
                        0 <= i <= project.crates.len(),
                        self == (ProjectWorkspace::Json { project: *project }),
                        forall|p: &str| call_requires(*load, (p,)),
                        loads@.len() == i,
                        forall|j: int|
                            0 <= j < i ==> answers(load, self.spec_root_paths()[j], #[trigger] loads@[j]),
                    decreases project.crates.len() - i,
                {
                    let path = project.crates[i].root_module.as_str();
                    let answer = load(path);
                    loads.push(answer);
                    i += 1;
                }
            },
            ProjectWorkspace::Cargo { cargo, sysroot } => {
                let ghost paths = self.spec_root_paths();
                let mut i: usize = 0;
                while i < sysroot.crates.len()
                    invariant
                        0 <= i <= sysroot.crates.len(),
                        self == (ProjectWorkspace::Cargo { cargo: *cargo, sysroot: *sysroot }),
                        paths == self.spec_root_paths(),
                        forall|p: &str| call_requires(*load, (p,)),
                        loads@.len() == i,
                        forall|j: int| 0 <= j < i ==> answers(load, paths[j], #[trigger] loads@[j]),
                    decreases sysroot.crates.len() - i,
                {
                    let path = sysroot.crates[i].root.as_str();
                    let answer = load(path);
                    loads.push(answer);
                    i += 1;
                }
                let ns = sysroot.crates.len();
                let mut p: usize = 0;
                while p < cargo.packages.len()
                    invariant
                        0 <= p <= cargo.packages.len(),
                        ns == sysroot.crates.len(),
                        self == (ProjectWorkspace::Cargo { cargo: *cargo, sysroot: *sysroot }),
                        paths == self.spec_root_paths(),
                        forall|p: &str| call_requires(*load, (p,)),
                        loads@.len() == ns + pkg_offset(cargo.packages@, p as int),
                        forall|j: int| 0 <= j < loads@.len() ==> answers(load, paths[j], #[trigger] loads@[j]),
                    decreases cargo.packages.len() - p,
                {
                    let pkg = &cargo.packages[p];
                    proof {
                        lemma_package_root_paths_len(cargo.packages@, p as int);
                        lemma_package_root_paths_len(cargo.packages@, p as int + 1);
                        lemma_package_root_paths_prefix(
                            cargo.packages@,
                            p as int + 1,
                            cargo.packages@.len() as int,
                        );
                    }
                    let mut t: usize = 0;
                    while t < pkg.targets.len()
                        invariant
                            0 <= p < cargo.packages.len(),
                            0 <= t <= pkg.targets.len(),
                            pkg == cargo.packages@[p as int],
                            ns == sysroot.crates.len(),
                            self == (ProjectWorkspace::Cargo { cargo: *cargo, sysroot: *sysroot }),
                            paths == self.spec_root_paths(),
                            package_root_paths(cargo.packages@, p as int).len() == pkg_offset(
                                cargo.packages@,
                                p as int,
                            ),
                            package_root_paths(cargo.packages@, p as int + 1).len() == pkg_offset(
                                cargo.packages@,
                                p as int,
                            ) + pkg.targets@.len(),
                            forall|j: int|
                                0 <= j < package_root_paths(cargo.packages@, p as int + 1).len()
                                    ==> package_root_paths(cargo.packages@, cargo.packages@.len() as int)[j]
                                    == package_root_paths(cargo.packages@, p as int + 1)[j] && j
                                    < package_root_paths(cargo.packages@, cargo.packages@.len() as int).len(),
                            forall|p: &str| call_requires(*load, (p,)),
                            loads@.len() == ns + pkg_offset(cargo.packages@, p as int) + t,
                            forall|j: int|
                                0 <= j < loads@.len() ==> answers(load, paths[j], #[trigger] loads@[j]),
                        decreases pkg.targets.len() - t,
                    {
                        let path = pkg.targets[t].root.as_str();
                        let answer = load(path);
                        proof {
                            let j = loads@.len() as int;
                            let here = package_root_paths(cargo.packages@, p as int + 1);
                            let all = package_root_paths(cargo.packages@, cargo.packages@.len() as int);
                            assert(all[j - ns] == here[j - ns]);
                            assert(paths[j] == all[j - ns]);
                            assert(here[j - ns] == path@);
                        }
                        loads.push(answer);
                        t += 1;
                    }
                    p += 1;
                }
                proof {
                    lemma_package_root_paths_len(cargo.packages@, cargo.packages@.len() as int);
                }
            },
        }
        loads
    }

    /// The crate graph of the workspace. `load` is asked once for each root
    /// file, in order; the graph is the one that follows from its answers.
    pub fn to_crate_graph<F: Fn(&str) -> Option<FileId>>(&self, load: &F) -> (graph: CrateGraph)
        requires
            self.spec_root_paths().len() <= u32::MAX,
            forall|p: &str| call_requires(*load, (p,)),
        ensures
            graph.wf(),
            acyclic(graph@),
            exists|loads: Seq<Option<FileId>>|
                {
                    &&& loads.len() == self.spec_root_paths().len()
                    &&& forall|i: int|
                        0 <= i < loads.len() ==> answers(load, self.spec_root_paths()[i], #[trigger] loads[i])
                    &&& graph@ == #[trigger] self.spec_crate_graph(loads)
                    &&& self.spec_lib_edges(loads, graph@)
                },
    {
        let loads = self.load_roots(load);
        let (graph, _) = self.crate_graph_from_loads(&loads);
        proof {
            let witness = loads@;
            assert(graph@ == self.spec_crate_graph(witness));
        }
        graph
    }
}

/// The root paths of the first packages stay where they are when more
/// packages follow.
proof fn lemma_package_root_paths_prefix(pkgs: Seq<PackageData>, p: int, q: int)
    requires
        0 <= p <= q,
    ensures
        package_root_paths(pkgs, p).len() <= package_root_paths(pkgs, q).len(),
        forall|j: int|
            0 <= j < package_root_paths(pkgs, p).len() ==> package_root_paths(pkgs, q)[j] == package_root_paths(
                pkgs,
                p,
            )[j],
    decreases q - p,
{
    if p < q {
        lemma_package_root_paths_prefix(pkgs, p, q - 1);
    }
}

} // verus!
