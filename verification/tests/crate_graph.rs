use std::cell::RefCell;

use ra_project_model::cargo_graph::cargo_crate_graph;
use ra_project_model::crate_graph::{CrateGraph, CrateId, CyclicDependencies, RefusedDep};
use ra_project_model::json_graph::json_crate_graph;
use ra_project_model::json_project::{Crate, Dep, JsonProject, Root};
use ra_project_model::project_workspace::first_yes;
use ra_project_model::{
    CargoWorkspace, Edition, FileId, PackageData, PackageDependency, ProjectRoot, ProjectWorkspace, Sysroot,
    SysrootCrateData, TargetData, TargetKind,
};
use relative_path::RelativePath;

fn edges(graph: &CrateGraph) -> Vec<(u32, String, u32)> {
    let mut edges = Vec::new();
    for from in 0..graph.len() as u32 {
        for dep in graph.dependencies(CrateId(from)) {
            edges.push((from, dep.name.clone(), dep.crate_id.0));
        }
    }
    edges
}

fn reaches(graph: &CrateGraph, from: u32, to: u32, steps: usize) -> bool {
    steps > 0
        && graph
            .dependencies(CrateId(from))
            .iter()
            .any(|dep| dep.crate_id.0 == to || reaches(graph, dep.crate_id.0, to, steps - 1))
}

fn assert_acyclic(graph: &CrateGraph) {
    for node in 0..graph.len() as u32 {
        assert!(!reaches(graph, node, node, graph.len() + 1), "crate {} reaches itself", node);
    }
}

#[test]
fn it_should_refuse_a_cycle() {
    let mut graph = CrateGraph::new();
    assert!(graph.is_empty());
    let a = graph.add_crate_root(FileId(1), Edition::Edition2018);
    let b = graph.add_crate_root(FileId(2), Edition::Edition2018);
    let c = graph.add_crate_root(FileId(3), Edition::Edition2015);
    assert_eq!((a, b, c), (CrateId(0), CrateId(1), CrateId(2)));
    assert!(graph.add_dep(a, "b".to_string(), b).is_ok());
    assert!(graph.add_dep(b, "c".to_string(), c).is_ok());
    assert_eq!(graph.add_dep(c, "a".to_string(), a), Err(CyclicDependencies));
    assert_eq!(edges(&graph), vec![(0, "b".to_string(), 1), (1, "c".to_string(), 2)]);
    assert_eq!(graph.len(), 3);
    assert!(!graph.is_empty());
    assert_eq!(graph.crate_root(b), FileId(2));
    assert_eq!(graph.edition(c), Edition::Edition2015);
    assert_acyclic(&graph);
}

#[test]
fn it_should_refuse_a_self_loop() {
    let mut graph = CrateGraph::new();
    let a = graph.add_crate_root(FileId(1), Edition::Edition2015);
    assert_eq!(graph.add_dep(a, "a".to_string(), a), Err(CyclicDependencies));
    assert!(edges(&graph).is_empty());
}

#[test]
fn it_should_keep_parallel_edges_and_diamonds() {
    let mut graph = CrateGraph::new();
    let a = graph.add_crate_root(FileId(1), Edition::Edition2018);
    let b = graph.add_crate_root(FileId(2), Edition::Edition2018);
    let c = graph.add_crate_root(FileId(3), Edition::Edition2018);
    let d = graph.add_crate_root(FileId(4), Edition::Edition2018);
    assert!(graph.add_dep(a, "b".to_string(), b).is_ok());
    assert!(graph.add_dep(a, "again".to_string(), b).is_ok());
    assert!(graph.add_dep(a, "c".to_string(), c).is_ok());
    assert!(graph.add_dep(b, "d".to_string(), d).is_ok());
    assert!(graph.add_dep(c, "d".to_string(), d).is_ok());
    assert!(graph.add_dep(d, "a".to_string(), a).is_err());
    assert!(graph.add_dep(d, "b".to_string(), b).is_err());
    assert_eq!(edges(&graph).len(), 5);
    assert_acyclic(&graph);
}

fn krate(root: &str, deps: &[(usize, &str)]) -> Crate {
    Crate {
        root_module: root.to_string(),
        edition: Edition::Edition2018,
        deps: deps.iter().map(|(krate, name)| Dep { krate: *krate, name: name.to_string() }).collect(),
    }
}

fn load_by_number(path: &str) -> Option<FileId> {
    let digits: String = path.chars().filter(|c| c.is_ascii_digit()).collect();
    digits.parse().ok().map(FileId)
}

#[test]
fn json_crate_graph_with_cycle_keeps_two_edges() {
    let project = JsonProject {
        roots: vec![Root { path: "/ws".to_string() }],
        crates: vec![
            krate("/ws/a10.rs", &[(1, "b")]),
            krate("/ws/b11.rs", &[(2, "c")]),
            krate("/ws/c12.rs", &[(0, "a")]),
        ],
    };
    let ws = ProjectWorkspace::Json { project };
    let graph = ws.to_crate_graph(&load_by_number);
    assert_eq!(graph.len(), 3);
    assert_eq!(graph.crate_root(CrateId(0)), FileId(10));
    assert_eq!(graph.crate_root(CrateId(1)), FileId(11));
    assert_eq!(graph.crate_root(CrateId(2)), FileId(12));
    assert_eq!(edges(&graph), vec![(0, "b".to_string(), 1), (1, "c".to_string(), 2)]);
    assert_acyclic(&graph);
    let (again, refused) = ws.crate_graph_from_loads(&ws.load_roots(&load_by_number));
    assert_eq!(edges(&again), edges(&graph));
    assert_eq!(refused, vec![RefusedDep { from: CrateId(2), name: "a".to_string(), to: CrateId(0) }]);
}

#[test]
fn refused_edges_are_noted_in_order() {
    let mut graph = CrateGraph::new();
    let a = graph.add_crate_root(FileId(1), Edition::Edition2018);
    let b = graph.add_crate_root(FileId(2), Edition::Edition2018);
    let mut refused = Vec::new();
    graph.add_dep_or_note(a, "b".to_string(), b, &mut refused);
    assert!(refused.is_empty());
    graph.add_dep_or_note(b, "a".to_string(), a, &mut refused);
    graph.add_dep_or_note(b, "me".to_string(), b, &mut refused);
    graph.add_dep_or_note(a, "b2".to_string(), b, &mut refused);
    assert_eq!(
        refused,
        vec![
            RefusedDep { from: b, name: "a".to_string(), to: a },
            RefusedDep { from: b, name: "me".to_string(), to: b },
        ]
    );
    assert_eq!(edges(&graph), vec![(0, "b".to_string(), 1), (0, "b2".to_string(), 1)]);
}

#[test]
fn json_crate_that_does_not_load_is_left_out() {
    let mut second = krate("/ws/missing.rs", &[(0, "a")]);
    second.edition = Edition::Edition2015;
    let mut third = krate("/ws/c3.rs", &[(1, "gone"), (0, "a"), (7, "nowhere"), (2, "me")]);
    third.edition = Edition::Edition2015;
    let project = JsonProject { roots: vec![], crates: vec![krate("/ws/a1.rs", &[(1, "gone")]), second, third] };
    let loads = vec![Some(FileId(1)), None, Some(FileId(3))];
    let (graph, refused) = json_crate_graph(&project, &loads);
    assert_eq!(refused, vec![RefusedDep { from: CrateId(1), name: "me".to_string(), to: CrateId(1) }]);
    assert_eq!(graph.len(), 2);
    assert_eq!(graph.crate_root(CrateId(1)), FileId(3));
    assert_eq!(graph.edition(CrateId(0)), Edition::Edition2018);
    assert_eq!(graph.edition(CrateId(1)), Edition::Edition2015);
    assert_eq!(edges(&graph), vec![(1, "a".to_string(), 0)]);
    let (short, _) = json_crate_graph(&project, &vec![Some(FileId(1))]);
    assert_eq!(short.len(), 1);
    assert!(edges(&short).is_empty());
    let ws = ProjectWorkspace::Json { project };
    assert_eq!(edges(&ws.crate_graph_from_loads(&loads).0), vec![(1, "a".to_string(), 0)]);
    assert_eq!(ws.count(), 3);
}

#[test]
fn loader_is_asked_for_each_root_in_order() {
    let asked = RefCell::new(Vec::new());
    let load = |path: &str| {
        asked.borrow_mut().push(path.to_string());
        None
    };
    let (cargo, sysroot) = workspace();
    let ws = ProjectWorkspace::Cargo { cargo, sysroot };
    let graph = ws.to_crate_graph(&load);
    assert!(graph.is_empty());
    assert_eq!(
        *asked.borrow(),
        vec![
            "/sys/core1/lib.rs",
            "/sys/std2/lib.rs",
            "/sys/alloc3/lib.rs",
            "/ws/app/src/lib10.rs",
            "/ws/app/src/main11.rs",
            "/ws/app/tests/t12.rs",
            "/ws/util/src/lib20.rs",
            "/ws/tool/src/main30.rs",
        ]
    );
    assert_eq!(ws.load_roots(&load_by_number).len(), 8);
}

fn target(name: &str, root: &str, kind: TargetKind) -> TargetData {
    TargetData { name: name.to_string(), root: root.to_string(), kind }
}

fn package(name: &str, edition: Edition, targets: Vec<TargetData>, deps: &[(usize, &str)]) -> PackageData {
    PackageData {
        name: name.to_string(),
        root: format!("/ws/{}", name),
        is_member: name != "util",
        edition,
        targets,
        dependencies: deps.iter().map(|(pkg, name)| PackageDependency { pkg: *pkg, name: name.to_string() }).collect(),
    }
}

fn sysroot_crate(name: &str, number: u32, deps: &[usize]) -> SysrootCrateData {
    SysrootCrateData {
        name: name.to_string(),
        root: format!("/sys/{}{}/lib.rs", name, number),
        root_dir: format!("/sys/{}{}", name, number),
        deps: deps.to_vec(),
    }
}

fn workspace() -> (CargoWorkspace, Sysroot) {
    let cargo = CargoWorkspace {
        workspace_root: "/ws".to_string(),
        packages: vec![
            package(
                "app",
                Edition::Edition2018,
                vec![
                    target("app", "/ws/app/src/lib10.rs", TargetKind::Lib),
                    target("app", "/ws/app/src/main11.rs", TargetKind::Bin),
                    target("t", "/ws/app/tests/t12.rs", TargetKind::Test),
                ],
                &[(1, "util"), (9, "nowhere"), (2, "tool")],
            ),
            package(
                "util",
                Edition::Edition2015,
                vec![target("util", "/ws/util/src/lib20.rs", TargetKind::Lib)],
                &[(0, "app_again")],
            ),
            package("tool", Edition::Edition2018, vec![target("tool", "/ws/tool/src/main30.rs", TargetKind::Bin)], &[]),
        ],
    };
    let sysroot = Sysroot {
        crates: vec![sysroot_crate("core", 1, &[]), sysroot_crate("std", 2, &[0, 2, 5]), sysroot_crate("alloc", 3, &[0, 1])],
    };
    (cargo, sysroot)
}

#[test]
fn cargo_workspace_becomes_a_crate_graph() {
    let (cargo, sysroot) = workspace();
    let ws = ProjectWorkspace::Cargo { cargo, sysroot };
    let graph = ws.to_crate_graph(&load_by_number);
    let roots: Vec<u32> = (0..graph.len() as u32).map(|c| graph.crate_root(CrateId(c)).0).collect();
    assert_eq!(roots, vec![1, 2, 3, 10, 11, 12, 20, 30]);
    let editions: Vec<Edition> = (0..graph.len() as u32).map(|c| graph.edition(CrateId(c))).collect();
    assert_eq!(
        editions,
        vec![
            Edition::Edition2015,
            Edition::Edition2015,
            Edition::Edition2015,
            Edition::Edition2018,
            Edition::Edition2018,
            Edition::Edition2018,
            Edition::Edition2015,
            Edition::Edition2018,
        ]
    );
    let edge = |from: u32, name: &str, to: u32| (from, name.to_string(), to);
    assert_eq!(
        edges(&graph),
        vec![
            edge(1, "core", 0),
            edge(1, "alloc", 2),
            edge(2, "core", 0),
            edge(3, "std", 1),
            edge(3, "util", 6),
            edge(4, "app", 3),
            edge(4, "std", 1),
            edge(4, "util", 6),
            edge(5, "app", 3),
            edge(5, "std", 1),
            edge(5, "util", 6),
            edge(6, "std", 1),
            edge(7, "std", 1),
        ]
    );
    assert_acyclic(&graph);
    assert_eq!(ws.count(), 3);
    let (_, refused) = ws.crate_graph_from_loads(&ws.load_roots(&load_by_number));
    assert_eq!(
        refused,
        vec![
            RefusedDep { from: CrateId(2), name: "std".to_string(), to: CrateId(1) },
            RefusedDep { from: CrateId(6), name: "app_again".to_string(), to: CrateId(3) },
        ]
    );
}

#[test]
fn every_other_target_depends_on_the_library_of_its_package() {
    let (cargo, sysroot) = workspace();
    for skipped in [None, Some(3usize), Some(4), Some(1)] {
        let mut loads: Vec<Option<FileId>> = (0..8).map(|i| Some(FileId(i))).collect();
        if let Some(skipped) = skipped {
            loads[skipped] = None;
        }
        let (graph, refused) = cargo_crate_graph(&cargo, &sysroot, &loads);
        assert!(refused.iter().all(|r| r.name == "app_again" || (r.name == "std" && r.to.0 < 3 && r.from.0 < 3)));
        let crate_of = |root: usize| -> Option<u32> {
            loads[root].map(|_| loads[..root].iter().filter(|l| l.is_some()).count() as u32)
        };
        let lib = crate_of(3);
        for other in [4, 5] {
            if let (Some(lib), Some(other)) = (lib, crate_of(other)) {
                assert!(edges(&graph).contains(&(other, "app".to_string(), lib)));
            }
        }
        if let Some(lib) = lib {
            assert!(!edges(&graph).iter().any(|(from, _, to)| *from == lib && *to == lib));
        } else {
            assert!(!edges(&graph).iter().any(|(_, name, _)| name == "app"));
        }
        assert_eq!(edges(&graph).iter().any(|(_, name, _)| name == "std"), skipped != Some(1));
        assert_acyclic(&graph);
    }
}

#[test]
fn workspace_lists_its_roots() {
    let (cargo, sysroot) = workspace();
    let ws = ProjectWorkspace::Cargo { cargo, sysroot };
    let roots: Vec<(String, bool)> = ws.to_roots().iter().map(|r| (r.path().clone(), r.is_member())).collect();
    assert_eq!(
        roots,
        vec![
            ("/ws/app".to_string(), true),
            ("/ws/util".to_string(), false),
            ("/ws/tool".to_string(), true),
            ("/sys/core1".to_string(), false),
            ("/sys/std2".to_string(), false),
            ("/sys/alloc3".to_string(), false),
        ]
    );
    let project = JsonProject {
        roots: vec![Root { path: "/a".to_string() }, Root { path: "/b/c".to_string() }],
        crates: vec![],
    };
    let ws = ProjectWorkspace::Json { project };
    let roots: Vec<(String, bool)> = ws.to_roots().iter().map(|r| (r.path().clone(), r.is_member())).collect();
    assert_eq!(roots, vec![("/a".to_string(), true), ("/b/c".to_string(), true)]);
    assert_eq!(ws.count(), 0);
    assert!(ws.to_crate_graph(&load_by_number).is_empty());
}

#[test]
fn workspace_root_is_the_first_root_above_the_path() {
    let (cargo, sysroot) = workspace();
    let ws = ProjectWorkspace::Cargo { cargo, sysroot };
    assert_eq!(ws.workspace_root_for("/ws/app/src/lib.rs"), Some(&"/ws".to_string()));
    assert_eq!(ws.workspace_root_for("/ws"), Some(&"/ws".to_string()));
    assert_eq!(ws.workspace_root_for("/wsx/app"), None);
    assert_eq!(ws.workspace_root_for("/elsewhere"), None);
    let project = JsonProject {
        roots: vec![
            Root { path: "/a/b".to_string() },
            Root { path: "/a".to_string() },
            Root { path: "/a/b/c".to_string() },
        ],
        crates: vec![],
    };
    let ws = ProjectWorkspace::Json { project };
    assert_eq!(ws.workspace_root_for("/a/b/c/d.rs"), Some(&"/a/b".to_string()));
    assert_eq!(ws.workspace_root_for("/a/x.rs"), Some(&"/a".to_string()));
    assert_eq!(ws.workspace_root_for("/b"), None);
}

#[test]
fn sysroot_finds_its_crates_by_name() {
    let (_, sysroot) = workspace();
    assert_eq!(sysroot.std_crate(), Some(1));
    assert_eq!(sysroot.by_name("alloc"), Some(2));
    assert_eq!(sysroot.by_name("test"), None);
    let twice = Sysroot { crates: vec![sysroot_crate("std", 1, &[]), sysroot_crate("std", 2, &[])] };
    assert_eq!(twice.std_crate(), Some(0));
}

#[test]
fn include_dir_skips_ignored_and_hidden_directories() {
    let member = ProjectRoot::new("/ws".to_string(), true);
    let external = ProjectRoot::new("/dep".to_string(), false);
    assert_eq!(member.path(), "/ws");
    assert!(member.is_member());
    assert!(!external.is_member());
    for root in [&member, &external] {
        assert!(root.include_dir(RelativePath::new("src/foo")));
        assert!(root.include_dir(RelativePath::new("")));
        assert!(root.include_dir(RelativePath::new("./src")));
        assert!(root.include_dir(RelativePath::new("targets/debug")));
        for ignored in [
            "node_modules", "target", ".git", "obj", "build", "ci", "jemalloc", "llvm-emscripten", "llvm",
            "llvm-project", "docs", "lld", "lldb", "clang",
        ] {
            assert!(!root.include_dir(RelativePath::new(ignored)), "{}", ignored);
            assert!(!root.include_dir(&RelativePath::new("src").join(ignored).join("x")), "{}", ignored);
        }
        assert!(!root.include_dir(RelativePath::new("src/.hidden")));
        assert!(!root.include_dir(RelativePath::new("src/../other")));
    }
    for outside in ["examples", "tests", "benches"] {
        assert!(member.include_dir(RelativePath::new(outside)));
        assert!(!external.include_dir(RelativePath::new(outside)));
        assert!(!external.include_dir(&RelativePath::new("a").join(outside)));
    }
    let components = vec!["src".to_string(), "tests".to_string()];
    assert!(member.include_components(&components));
    assert!(!external.include_components(&components));
    assert!(!member.include_components(&vec![".".to_string()]));
    assert!(member.include_components(&vec![]));
}

#[test]
fn include_file_takes_rust_sources_only() {
    let root = ProjectRoot::new("/ws".to_string(), true);
    assert!(root.include_file(RelativePath::new("src/lib.rs")));
    assert!(root.include_file(RelativePath::new("a.b.rs")));
    assert!(!root.include_file(RelativePath::new("src/lib.txt")));
    assert!(!root.include_file(RelativePath::new("src/rs")));
    assert!(!root.include_file(RelativePath::new(".rs")));
    assert!(!root.include_file(RelativePath::new("lib.RS")));
    assert!(root.include_extension(&Some("rs".to_string())));
    assert!(!root.include_extension(&Some("r".to_string())));
    assert!(!root.include_extension(&None));
}

#[test]
fn first_yes_is_the_first_true_answer() {
    assert_eq!(first_yes(&vec![false, true, false, true]), Some(1));
    assert_eq!(first_yes(&vec![true]), Some(0));
    assert_eq!(first_yes(&vec![false, false]), None);
    assert_eq!(first_yes(&vec![]), None);
}

#[test]
fn library_edges_carry_the_name_of_the_package() {
    let (cargo, sysroot) = workspace();
    let loads: Vec<Option<FileId>> = (0..8).map(|i| Some(FileId(i))).collect();
    let (graph, _) = cargo_crate_graph(&cargo, &sysroot, &loads);
    assert!(edges(&graph).contains(&(4, "app".to_string(), 3)));
    assert!(edges(&graph).contains(&(5, "app".to_string(), 3)));
    assert!(!edges(&graph).iter().any(|(from, _, to)| from == to));
}
