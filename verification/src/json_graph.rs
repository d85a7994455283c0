//! The crate graph of a project declared by hand.
use vstd::prelude::*;
use rustc_hash::FxHashMap;
use crate::base::FileId;
use crate::collections::fx_map_get;
use crate::collections::fx_map_insert;
use crate::collections::fx_map_new;
use crate::crate_graph::add_deps_spec;
use crate::crate_graph::lemma_add_deps_push;
use crate::crate_graph::lemma_refused_push;
use crate::crate_graph::refused_deps;
use crate::crate_graph::refused_view;
use crate::crate_graph::RefusedDep;
use crate::crate_graph::with_root;
use crate::crate_graph::CrateGraph;
use crate::crate_graph::CrateId;
use crate::crate_graph::CrateView;
use crate::crate_graph::DepRequest;
use crate::json_project::Crate;
use crate::json_project::JsonProject;
use crate::loading::count_loaded;
use crate::loading::crate_of;
use crate::loading::lemma_count_loaded_bounds;
use crate::loading::lemma_count_loaded_mono;
use crate::loading::load_at;
use crate::loading::loaded_at;

verus! {

/// The roots of the first `n` declared crates that were loaded, as nodes.
pub open spec fn json_nodes(crates: Seq<Crate>, loads: Seq<Option<FileId>>, n: int) -> Seq<CrateView>
    decreases n,
{
    if n <= 0 {
        Seq::empty()
    } else {
        let g = json_nodes(crates, loads, n - 1);
        match load_at(loads, n - 1) {
            Some(file) => with_root(g, file, crates[n - 1].edition),
            None => g,
        }
    }
}

/// The edges asked for by the first `m` dependencies of the declared crate
/// at position `i`: one for each dependency whose two ends were loaded.
pub open spec fn json_crate_requests(
    crates: Seq<Crate>,
    loads: Seq<Option<FileId>>,
    i: int,
    m: int,
) -> Seq<DepRequest>
    decreases m,
{
    if m <= 0 {
        Seq::empty()
    } else {
        let before = json_crate_requests(crates, loads, i, m - 1);
        let dep = crates[i].deps@[m - 1];
        match (crate_of(loads, crates.len() as int, i), crate_of(loads, crates.len() as int, dep.krate as int)) {
            (Some(from), Some(to)) => before.push(DepRequest { from, name: dep.name@, to }),
            _ => before,
        }
    }
}

/// The edges asked for by the first `n` declared crates, in order.
pub open spec fn json_requests(crates: Seq<Crate>, loads: Seq<Option<FileId>>, n: int) -> Seq<DepRequest>
    decreases n,
{
    if n <= 0 {
        Seq::empty()
    } else {
        json_requests(crates, loads, n - 1) + json_crate_requests(
            crates,
            loads,
            n - 1,
            crates[n - 1].deps@.len() as int,
        )
    }
}

/// The crate graph of a declared project: a node for each crate whose root
/// was loaded, then each declared edge between loaded crates, in order,
/// unless it would close a cycle.
pub open spec fn json_graph(crates: Seq<Crate>, loads: Seq<Option<FileId>>) -> Seq<CrateView> {
    add_deps_spec(
        json_nodes(crates, loads, crates.len() as int),
        json_requests(crates, loads, crates.len() as int),
    )
}

/// The declared edges that the crate graph of a declared project refuses,
/// in order.
pub open spec fn json_refused(crates: Seq<Crate>, loads: Seq<Option<FileId>>) -> Seq<DepRequest> {
    refused_deps(json_nodes(crates, loads, crates.len() as int), json_requests(crates, loads, crates.len() as int))
}

/// The crate graph of a declared project, from the loader's answers,
/// together with the declared edges that were refused.
pub fn json_crate_graph(project: &JsonProject, loads: &Vec<Option<FileId>>) -> (res: (CrateGraph, Vec<RefusedDep>))
    requires
        project.crates@.len() <= u32::MAX,
    ensures
        res.0.wf(),
        res.0@ == json_graph(project.crates@, loads@),
        refused_view(res.1@) == json_refused(project.crates@, loads@),
{
    let ghost cs = project.crates@;
    let ghost n = cs.len() as int;
    let mut graph = CrateGraph::new();
    let mut notes: Vec<RefusedDep> = Vec::new();
    let refused = &mut notes;
    let ghost r0 = refused_view(refused@);
    let mut crates: FxHashMap<usize, CrateId> = fx_map_new();
    let mut i: usize = 0;
    while i < project.crates.len()
        invariant
            0 <= i <= project.crates.len(),
            cs == project.crates@,
            n == cs.len(),
            n <= u32::MAX,
            graph.wf(),
            graph@ == json_nodes(cs, loads@, i as int),
            graph@.len() == count_loaded(loads@, i as int),
            forall|k: usize| crates@.contains_key(k) <==> crate_of(loads@, i as int, k as int) is Some,
            forall|k: usize| #[trigger]
                crates@.contains_key(k) ==> crate_of(loads@, i as int, k as int) == Some(
                    crates@[k].0 as int,
                ),
        decreases project.crates.len() - i,
    {
        proof {
            lemma_count_loaded_bounds(loads@, i as int);
        }
        match loaded_at(loads, i) {
            Some(file_id) => {
                let crate_id = graph.add_crate_root(file_id, project.crates[i].edition);
                fx_map_insert(&mut crates, i, crate_id);
            },
            None => {},
        }
        i += 1;
    }
    let ghost nodes = graph@;
    let mut i: usize = 0;
    while i < project.crates.len()
        invariant
            0 <= i <= project.crates.len(),
            cs == project.crates@,
            n == cs.len(),
            graph.wf(),
            nodes == json_nodes(cs, loads@, n),
            graph@.len() == nodes.len(),
            nodes.len() == count_loaded(loads@, n),
            graph@ == add_deps_spec(nodes, json_requests(cs, loads@, i as int)),
            refused_view(refused@) == r0 + refused_deps(nodes, json_requests(cs, loads@, i as int)),
            forall|k: usize| crates@.contains_key(k) <==> crate_of(loads@, n, k as int) is Some,
            forall|k: usize| #[trigger]
                crates@.contains_key(k) ==> crate_of(loads@, n, k as int) == Some(crates@[k].0 as int),
        decreases project.crates.len() - i,
    {
        let krate = &project.crates[i];
        let ghost done = json_requests(cs, loads@, i as int);
        let mut j: usize = 0;
        while j < krate.deps.len()
            invariant
                0 <= i < project.crates.len(),
                0 <= j <= krate.deps.len(),
                krate == project.crates@[i as int],
                cs == project.crates@,
                n == cs.len(),
                graph.wf(),
                graph@.len() == nodes.len(),
                nodes.len() == count_loaded(loads@, n),
                done == json_requests(cs, loads@, i as int),
                graph@ == add_deps_spec(nodes, done + json_crate_requests(cs, loads@, i as int, j as int)),
                refused_view(refused@) == r0 + refused_deps(nodes, done + json_crate_requests(cs, loads@, i as int, j as int)),
                forall|k: usize| crates@.contains_key(k) <==> crate_of(loads@, n, k as int) is Some,
                forall|k: usize| #[trigger]
                    crates@.contains_key(k) ==> crate_of(loads@, n, k as int) == Some(
                        crates@[k].0 as int,
                    ),
            decreases krate.deps.len() - j,
        {
            let dep = &krate.deps[j];
            let ghost before = json_crate_requests(cs, loads@, i as int, j as int);
            match (fx_map_get(&crates, i), fx_map_get(&crates, dep.krate)) {
                (Some(from), Some(to)) => {
                    proof {
                        lemma_count_loaded_mono(loads@, i as int, n);
                        lemma_count_loaded_mono(loads@, dep.krate as int, n);
                        let r = DepRequest { from: from.0 as int, name: dep.name@, to: to.0 as int };
                        lemma_add_deps_push(nodes, done + before, r);
                        lemma_refused_push(nodes, done + before, r);
                        assert(done + before.push(r) =~= (done + before).push(r));
                    }
                    graph.add_dep_or_note(*from, dep.name.clone(), *to, refused);
                },
                _ => {},
            }
            j += 1;
        }
        i += 1;
    }
    proof {
        assert(refused_view(notes@) =~= json_refused(project.crates@, loads@));
    }
    (graph, notes)
}

} // verus!
