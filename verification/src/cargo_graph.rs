//! The crate graph of a workspace of the package manager.
//!
//! The root files are taken in a fixed order: the crates of the sysroot,
//! then the targets of the first package, of the second, and so on. The
//! graph is built in passes: sysroot crates and the edges between them,
//! then the targets of all packages, then the edges inside each package,
//! and last the edges between packages.
use vstd::prelude::*;
use vstd::string::StringExecFns;
use rustc_hash::FxHashMap;
use crate::base::Edition;
use crate::base::FileId;
use crate::cargo_workspace::CargoWorkspace;
use crate::cargo_workspace::PackageData;
use crate::cargo_workspace::TargetKind;
use crate::collections::fx_map_get;
use crate::collections::fx_map_insert;
use crate::collections::fx_map_new;
use crate::crate_graph::add_deps_spec;
use crate::crate_graph::has_edge;
use crate::crate_graph::has_named_edge;
use crate::crate_graph::is_path;
use crate::crate_graph::lemma_add_dep_edges;
use crate::crate_graph::lemma_with_dep_edges;
use crate::crate_graph::lemma_with_root_edges;
use crate::crate_graph::reachable;
use crate::crate_graph::with_dep;
use crate::crate_graph::lemma_add_deps_concat;
use crate::crate_graph::lemma_add_deps_push;
use crate::crate_graph::lemma_refused_concat;
use crate::crate_graph::lemma_refused_push;
use crate::crate_graph::refused_deps;
use crate::crate_graph::refused_view;
use crate::crate_graph::RefusedDep;
use crate::crate_graph::with_root;
use crate::crate_graph::CrateGraph;
use crate::crate_graph::CrateId;
use crate::crate_graph::CrateView;
use crate::crate_graph::DepRequest;
use crate::loading::count_loaded;
use crate::loading::crate_of;
use crate::loading::lemma_count_loaded_bounds;
use crate::loading::lemma_count_loaded_mono;
use crate::loading::load_at;
use crate::loading::loaded_at;
use crate::sysroot::first_named;
use crate::sysroot::Sysroot;
use crate::sysroot::SysrootCrateData;

verus! {

/// Number of targets of the first `p` packages.
pub open spec fn pkg_offset(pkgs: Seq<PackageData>, p: int) -> int
    decreases p,
{
    if p <= 0 {
        0
    } else {
        pkg_offset(pkgs, p - 1) + pkgs[p - 1].targets@.len()
    }
}

/// Number of root files of the workspace.
pub open spec fn root_count(sys: Seq<SysrootCrateData>, pkgs: Seq<PackageData>) -> int {
    sys.len() + pkg_offset(pkgs, pkgs.len() as int)
}

/// Position, among all root files, of target `t` of package `p`.
pub open spec fn target_root(ns: int, pkgs: Seq<PackageData>, p: int, t: int) -> int {
    ns + pkg_offset(pkgs, p) + t
}

/// The first `n` sysroot crates that were loaded, as nodes.
pub open spec fn sysroot_nodes(loads: Seq<Option<FileId>>, n: int) -> Seq<CrateView>
    decreases n,
{
    if n <= 0 {
        Seq::empty()
    } else {
        let g = sysroot_nodes(loads, n - 1);
        match load_at(loads, n - 1) {
            Some(file) => with_root(g, file, Edition::Edition2015),
            None => g,
        }
    }
}

/// `g` with a node for each of the first `m` targets of package `p` that
/// was loaded.
pub open spec fn pkg_nodes(
    g: Seq<CrateView>,
    pkgs: Seq<PackageData>,
    loads: Seq<Option<FileId>>,
    ns: int,
    p: int,
    m: int,
) -> Seq<CrateView>
    decreases m,
{
    if m <= 0 {
        g
    } else {
        let h = pkg_nodes(g, pkgs, loads, ns, p, m - 1);
        match load_at(loads, target_root(ns, pkgs, p, m - 1)) {
            Some(file) => with_root(h, file, pkgs[p].edition),
            None => h,
        }
    }
}

/// `g` with a node for each loaded target of the first `p` packages.
pub open spec fn pkgs_nodes(
    g: Seq<CrateView>,
    pkgs: Seq<PackageData>,
    loads: Seq<Option<FileId>>,
    ns: int,
    p: int,
) -> Seq<CrateView>
    decreases p,
{
    if p <= 0 {
        g
    } else {
        pkg_nodes(
            pkgs_nodes(g, pkgs, loads, ns, p - 1),
            pkgs,
            loads,
            ns,
            p - 1,
            pkgs[p - 1].targets@.len() as int,
        )
    }
}

/// The crates of the first `m` targets of package `p`, in order.
pub open spec fn pkg_crates(
    pkgs: Seq<PackageData>,
    loads: Seq<Option<FileId>>,
    ns: int,
    p: int,
    m: int,
) -> Seq<int>
    decreases m,
{
    if m <= 0 {
        Seq::empty()
    } else {
        let before = pkg_crates(pkgs, loads, ns, p, m - 1);
        let k = target_root(ns, pkgs, p, m - 1);
        if load_at(loads, k) is Some {
            before.push(count_loaded(loads, k))
        } else {
            before
        }
    }
}

/// The crate of the last library target among the first `m` targets of
/// package `p` that was loaded.
pub open spec fn pkg_lib(
    pkgs: Seq<PackageData>,
    loads: Seq<Option<FileId>>,
    ns: int,
    p: int,
    m: int,
) -> Option<int>
    decreases m,
{
    if m <= 0 {
        None
    } else {
        let k = target_root(ns, pkgs, p, m - 1);
        if load_at(loads, k) is Some && pkgs[p].targets@[m - 1].kind == TargetKind::Lib {
            Some(count_loaded(loads, k))
        } else {
            pkg_lib(pkgs, loads, ns, p, m - 1)
        }
    }
}

/// The crates of package `p`.
pub open spec fn crates_of(pkgs: Seq<PackageData>, loads: Seq<Option<FileId>>, ns: int, p: int) -> Seq<
    int,
> {
    pkg_crates(pkgs, loads, ns, p, pkgs[p].targets@.len() as int)
}

/// The library crate of package `p`, if the package has one.
pub open spec fn lib_of(pkgs: Seq<PackageData>, loads: Seq<Option<FileId>>, ns: int, p: int) -> Option<
    int,
> {
    if 0 <= p < pkgs.len() {
        pkg_lib(pkgs, loads, ns, p, pkgs[p].targets@.len() as int)
    } else {
        None
    }
}

/// The edges asked for by the first `m` dependencies of sysroot crate `i`.
pub open spec fn sysroot_crate_requests(
    sys: Seq<SysrootCrateData>,
    loads: Seq<Option<FileId>>,
    i: int,
    m: int,
) -> Seq<DepRequest>
    decreases m,
{
    if m <= 0 {
        Seq::empty()
    } else {
        let before = sysroot_crate_requests(sys, loads, i, m - 1);
        let dep = sys[i].deps@[m - 1] as int;
        match (crate_of(loads, sys.len() as int, i), crate_of(loads, sys.len() as int, dep)) {
            (Some(from), Some(to)) => before.push(DepRequest { from, name: sys[dep].name@, to }),
            _ => before,
        }
    }
}

/// The edges asked for by the first `n` sysroot crates.
pub open spec fn sysroot_requests(sys: Seq<SysrootCrateData>, loads: Seq<Option<FileId>>, n: int) -> Seq<
    DepRequest,
>
    decreases n,
{
    if n <= 0 {
        Seq::empty()
    } else {
        sysroot_requests(sys, loads, n - 1) + sysroot_crate_requests(
            sys,
            loads,
            n - 1,
            sys[n - 1].deps@.len() as int,
        )
    }
}

/// The crate of the sysroot crate called `std`.
pub open spec fn libstd_of(sys: Seq<SysrootCrateData>, loads: Seq<Option<FileId>>) -> Option<int> {
    match first_named(sys, "std"@, sys.len() as int) {
        Some(s) => crate_of(loads, sys.len() as int, s),
        None => None,
    }
}

/// The edges that one crate of a package asks for inside the package: one
/// to the package's library, unless the crate is that library, and one to
/// `std`.
pub open spec fn intra_requests_of(from: int, name: Seq<char>, lib: Option<int>, libstd: Option<int>) -> Seq<
    DepRequest,
> {
    let to_lib = match lib {
        Some(to) => if to != from {
            seq![DepRequest { from, name, to }]
        } else {
            Seq::empty()
        },
        None => Seq::empty(),
    };
    let to_std = match libstd {
        Some(to) => seq![DepRequest { from, name: "std"@, to }],
        None => Seq::empty(),
    };
    to_lib + to_std
}

/// The edges asked for inside package `p` by its first `c` crates.
pub open spec fn pkg_intra_requests(
    pkgs: Seq<PackageData>,
    loads: Seq<Option<FileId>>,
    ns: int,
    libstd: Option<int>,
    p: int,
    c: int,
) -> Seq<DepRequest>
    decreases c,
{
    if c <= 0 {
        Seq::empty()
    } else {
        pkg_intra_requests(pkgs, loads, ns, libstd, p, c - 1) + intra_requests_of(
            crates_of(pkgs, loads, ns, p)[c - 1],
            pkgs[p].name@,
            lib_of(pkgs, loads, ns, p),
            libstd,
        )
    }
}

/// The edges asked for inside each of the first `p` packages.
pub open spec fn intra_requests(
    pkgs: Seq<PackageData>,
    loads: Seq<Option<FileId>>,
    ns: int,
    libstd: Option<int>,
    p: int,
) -> Seq<DepRequest>
    decreases p,
{
    if p <= 0 {
        Seq::empty()
    } else {
        intra_requests(pkgs, loads, ns, libstd, p - 1) + pkg_intra_requests(
            pkgs,
            loads,
            ns,
            libstd,
            p - 1,
            crates_of(pkgs, loads, ns, p - 1).len() as int,
        )
    }
}

/// An edge to `to` from each of the first `c` crates of `froms`.
pub open spec fn dep_requests(froms: Seq<int>, name: Seq<char>, to: int, c: int) -> Seq<DepRequest>
    decreases c,
{
    if c <= 0 {
        Seq::empty()
    } else {
        dep_requests(froms, name, to, c - 1).push(DepRequest { from: froms[c - 1], name, to })
    }
}

/// The edges asked for by the first `d` dependencies of package `p`: for
/// each dependency on a package with a library, an edge from every crate of
/// `p` to that library.
pub open spec fn pkg_inter_requests(
    pkgs: Seq<PackageData>,
    loads: Seq<Option<FileId>>,
    ns: int,
    p: int,
    d: int,
) -> Seq<DepRequest>
    decreases d,
{
    if d <= 0 {
        Seq::empty()
    } else {
        let before = pkg_inter_requests(pkgs, loads, ns, p, d - 1);
        let dep = pkgs[p].dependencies@[d - 1];
        let froms = crates_of(pkgs, loads, ns, p);
        match lib_of(pkgs, loads, ns, dep.pkg as int) {
            Some(to) => before + dep_requests(froms, dep.name@, to, froms.len() as int),
            None => before,
        }
    }
}

/// The edges between packages asked for by the first `p` packages.
pub open spec fn inter_requests(pkgs: Seq<PackageData>, loads: Seq<Option<FileId>>, ns: int, p: int) -> Seq<
    DepRequest,
>
    decreases p,
{
    if p <= 0 {
        Seq::empty()
    } else {
        inter_requests(pkgs, loads, ns, p - 1) + pkg_inter_requests(
            pkgs,
            loads,
            ns,
            p - 1,
            pkgs[p - 1].dependencies@.len() as int,
        )
    }
}

/// The crate graph of a workspace of the package manager, pass by pass.
pub open spec fn cargo_graph(
    sys: Seq<SysrootCrateData>,
    pkgs: Seq<PackageData>,
    loads: Seq<Option<FileId>>,
) -> Seq<CrateView> {
    let ns = sys.len() as int;
    let np = pkgs.len() as int;
    let sysroot = add_deps_spec(sysroot_nodes(loads, ns), sysroot_requests(sys, loads, ns));
    let nodes = pkgs_nodes(sysroot, pkgs, loads, ns, np);
    let intra = add_deps_spec(nodes, intra_requests(pkgs, loads, ns, libstd_of(sys, loads), np));
    add_deps_spec(intra, inter_requests(pkgs, loads, ns, np))
}

/// The numbers of a vector of crates.
pub open spec fn ids_view(ids: Seq<CrateId>) -> Seq<int> {
    ids.map_values(|c: CrateId| c.0 as int)
}

/// The targets of a package are counted after those of the packages
/// before it.
pub(crate) proof fn lemma_pkg_offset_mono(pkgs: Seq<PackageData>, p: int, q: int)
    requires
        0 <= p <= q,
    ensures
        0 <= pkg_offset(pkgs, p) <= pkg_offset(pkgs, q),
        p < q ==> pkg_offset(pkgs, p) + pkgs[p].targets@.len() <= pkg_offset(pkgs, q),
    decreases q,
{
    if p < q {
        lemma_pkg_offset_mono(pkgs, p, q - 1);
    } else if p > 0 {
        lemma_pkg_offset_mono(pkgs, p - 1, p - 1);
    }
}

/// First pass: a node for each sysroot crate whose root was loaded.
fn add_sysroot_roots(graph: &mut CrateGraph, sysroot: &Sysroot, loads: &Vec<Option<FileId>>) -> (map:
    FxHashMap<usize, CrateId>)
    requires
        old(graph).wf(),
        old(graph)@.len() == 0,
        sysroot.crates@.len() <= u32::MAX,
    ensures
        final(graph).wf(),
        final(graph)@ == sysroot_nodes(loads@, sysroot.crates@.len() as int),
        final(graph)@.len() == count_loaded(loads@, sysroot.crates@.len() as int),
        forall|k: usize| map@.contains_key(k) <==> crate_of(loads@, sysroot.crates@.len() as int, k as int) is Some,
        forall|k: usize| #[trigger]
            map@.contains_key(k) ==> crate_of(loads@, sysroot.crates@.len() as int, k as int) == Some(
                map@[k].0 as int,
            ),
{
    let mut map: FxHashMap<usize, CrateId> = fx_map_new();
    let mut i: usize = 0;
    assert(graph@ =~= sysroot_nodes(loads@, 0));
    while i < sysroot.crates.len()
        invariant
            0 <= i <= sysroot.crates.len(),
            sysroot.crates@.len() <= u32::MAX,
            graph.wf(),
            graph@ == sysroot_nodes(loads@, i as int),
            graph@.len() == count_loaded(loads@, i as int),
            forall|k: usize| map@.contains_key(k) <==> crate_of(loads@, i as int, k as int) is Some,
            forall|k: usize| #[trigger]
                map@.contains_key(k) ==> crate_of(loads@, i as int, k as int) == Some(map@[k].0 as int),
        decreases sysroot.crates.len() - i,
    {
        proof {
            lemma_count_loaded_bounds(loads@, i as int);
        }
        match loaded_at(loads, i) {
            Some(file_id) => {
                let crate_id = graph.add_crate_root(file_id, Edition::Edition2015);
                fx_map_insert(&mut map, i, crate_id);
            },
            None => {},
        }
        i += 1;
    }
    map
}

/// Second pass: the edges between sysroot crates.
fn add_sysroot_deps(
    graph: &mut CrateGraph,
    sysroot: &Sysroot,
    loads: Ghost<Seq<Option<FileId>>>,
    map: &FxHashMap<usize, CrateId>,
    refused: &mut Vec<RefusedDep>,
)
    requires
        old(graph).wf(),
        old(graph)@.len() == count_loaded(loads@, sysroot.crates@.len() as int),
        forall|k: usize| map@.contains_key(k) <==> crate_of(loads@, sysroot.crates@.len() as int, k as int) is Some,
        forall|k: usize| #[trigger]
            map@.contains_key(k) ==> crate_of(loads@, sysroot.crates@.len() as int, k as int) == Some(
                map@[k].0 as int,
            ),
    ensures
        final(graph).wf(),
        final(graph)@.len() == old(graph)@.len(),
        final(graph)@ == add_deps_spec(
            old(graph)@,
            sysroot_requests(sysroot.crates@, loads@, sysroot.crates@.len() as int),
        ),
        refused_view(final(refused)@) == refused_view(old(refused)@) + refused_deps(
            old(graph)@,
            sysroot_requests(sysroot.crates@, loads@, sysroot.crates@.len() as int),
        ),
{
    let ghost sys = sysroot.crates@;
    let ghost ns = sys.len() as int;
    let ghost nodes = graph@;
    let ghost r0 = refused_view(refused@);
    let mut i: usize = 0;
    while i < sysroot.crates.len()
        invariant
            0 <= i <= sysroot.crates.len(),
            sys == sysroot.crates@,
            ns == sys.len(),
            graph.wf(),
            graph@.len() == nodes.len(),
            nodes.len() == count_loaded(loads@, ns),
            graph@ == add_deps_spec(nodes, sysroot_requests(sys, loads@, i as int)),
            refused_view(refused@) == r0 + refused_deps(nodes, sysroot_requests(sys, loads@, i as int)),
            forall|k: usize| map@.contains_key(k) <==> crate_of(loads@, ns, k as int) is Some,
            forall|k: usize| #[trigger]
                map@.contains_key(k) ==> crate_of(loads@, ns, k as int) == Some(map@[k].0 as int),
        decreases sysroot.crates.len() - i,
    {
        let krate = &sysroot.crates[i];
        let ghost done = sysroot_requests(sys, loads@, i as int);
        let mut j: usize = 0;
        while j < krate.deps.len()
            invariant
                0 <= i < sysroot.crates.len(),
                0 <= j <= krate.deps.len(),
                krate == sysroot.crates@[i as int],
                sys == sysroot.crates@,
                ns == sys.len(),
                graph.wf(),
                graph@.len() == nodes.len(),
                nodes.len() == count_loaded(loads@, ns),
                done == sysroot_requests(sys, loads@, i as int),
                graph@ == add_deps_spec(nodes, done + sysroot_crate_requests(sys, loads@, i as int, j as int)),
                refused_view(refused@) == r0 + refused_deps(nodes, done + sysroot_crate_requests(sys, loads@, i as int, j as int)),
                forall|k: usize| map@.contains_key(k) <==> crate_of(loads@, ns, k as int) is Some,
                forall|k: usize| #[trigger]
                    map@.contains_key(k) ==> crate_of(loads@, ns, k as int) == Some(map@[k].0 as int),
            decreases krate.deps.len() - j,
        {
            let dep = krate.deps[j];
            let ghost before = sysroot_crate_requests(sys, loads@, i as int, j as int);
            match (fx_map_get(map, i), fx_map_get(map, dep)) {
                (Some(from), Some(to)) => {
                    proof {
                        lemma_count_loaded_mono(loads@, i as int, ns);
                        lemma_count_loaded_mono(loads@, dep as int, ns);
                        let r = DepRequest {
                            from: from.0 as int,
                            name: sys[dep as int].name@,
                            to: to.0 as int,
                        };
                        lemma_add_deps_push(nodes, done + before, r);
                        lemma_refused_push(nodes, done + before, r);
                        assert(done + before.push(r) =~= (done + before).push(r));
                    }
                    let name = sysroot.crates[dep].name.clone();
                    graph.add_dep_or_note(*from, name, *to, refused);
                },
                _ => {},
            }
            j += 1;
        }
        i += 1;
    }
}

/// The number of an optional crate.
pub open spec fn id_view(id: Option<CrateId>) -> Option<int> {
    match id {
        Some(c) => Some(c.0 as int),
        None => None,
    }
}

/// `x` is the library crate of some package.
pub open spec fn is_lib(pkgs: Seq<PackageData>, loads: Seq<Option<FileId>>, ns: int, x: int) -> bool {
    exists|q: int| #[trigger] lib_of(pkgs, loads, ns, q) == Some(x)
}

/// Every crate of a package that is not the package's library has an edge
/// to that library, under the name of the package.
pub open spec fn lib_edges_present(
    pkgs: Seq<PackageData>,
    loads: Seq<Option<FileId>>,
    ns: int,
    np: int,
    g: Seq<CrateView>,
) -> bool {
    forall|p: int, c: int|
        0 <= p < np && 0 <= c < crates_of(pkgs, loads, ns, p).len() ==> (lib_of(pkgs, loads, ns, p) matches Some(
            to,
        ) ==> to != (#[trigger] crates_of(pkgs, loads, ns, p)[c]) ==> has_named_edge(
            g,
            crates_of(pkgs, loads, ns, p)[c],
            pkgs[p].name@,
            to,
        ))
}

/// While the edges inside packages are added, every edge ends at a sysroot
/// crate, or leads from a crate of a package that is no library to a
/// library.
spec fn edges_point_down(
    g: Seq<CrateView>,
    sysroot_len: int,
    pkgs: Seq<PackageData>,
    loads: Seq<Option<FileId>>,
    ns: int,
) -> bool {
    forall|u: int, v: int| #[trigger]
        has_edge(g, u, v) ==> v < sysroot_len || (u >= sysroot_len && is_lib(pkgs, loads, ns, v) && !is_lib(
            pkgs,
            loads,
            ns,
            u,
        ))
}

/// The crates of a package are numbered after those of the packages before
/// it and before those of the packages after it.
pub(crate) proof fn lemma_pkg_crates_range(
    pkgs: Seq<PackageData>,
    loads: Seq<Option<FileId>>,
    ns: int,
    p: int,
    m: int,
)
    requires
        0 <= ns,
        0 <= p,
        0 <= m,
    ensures
        forall|c: int|
            0 <= c < pkg_crates(pkgs, loads, ns, p, m).len() ==> count_loaded(
                loads,
                target_root(ns, pkgs, p, 0),
            ) <= (#[trigger] pkg_crates(pkgs, loads, ns, p, m)[c]) < count_loaded(
                loads,
                target_root(ns, pkgs, p, m),
            ),
        pkg_lib(pkgs, loads, ns, p, m) matches Some(x) ==> count_loaded(loads, target_root(ns, pkgs, p, 0))
            <= x < count_loaded(loads, target_root(ns, pkgs, p, m)),
    decreases m,
{
    if m > 0 {
        lemma_pkg_crates_range(pkgs, loads, ns, p, m - 1);
        let k = target_root(ns, pkgs, p, m - 1);
        lemma_count_loaded_mono(loads, target_root(ns, pkgs, p, 0), k);
        lemma_count_loaded_mono(loads, k, k + 1);
        let before = pkg_crates(pkgs, loads, ns, p, m - 1);
        let now = pkg_crates(pkgs, loads, ns, p, m);
        assert(target_root(ns, pkgs, p, m) == k + 1);
        assert forall|c: int| 0 <= c < now.len() implies count_loaded(
            loads,
            target_root(ns, pkgs, p, 0),
        ) <= (#[trigger] now[c]) < count_loaded(loads, k + 1) by {
            if c < before.len() {
                assert(now[c] == before[c]);
            }
        }
    }
}

/// A library crate numbered among the crates of package `p` is the library
/// of `p`.
proof fn lemma_lib_unique(pkgs: Seq<PackageData>, loads: Seq<Option<FileId>>, ns: int, p: int, x: int)
    requires
        0 <= ns,
        0 <= p < pkgs.len(),
        is_lib(pkgs, loads, ns, x),
        count_loaded(loads, target_root(ns, pkgs, p, 0)) <= x < count_loaded(
            loads,
            target_root(ns, pkgs, p, pkgs[p].targets@.len() as int),
        ),
    ensures
        lib_of(pkgs, loads, ns, p) == Some(x),
{
    let q = choose|q: int| #[trigger] lib_of(pkgs, loads, ns, q) == Some(x);
    lemma_pkg_crates_range(pkgs, loads, ns, q, pkgs[q].targets@.len() as int);
    if q < p {
        lemma_pkg_offset_mono(pkgs, q, p);
        lemma_count_loaded_mono(
            loads,
            target_root(ns, pkgs, q, pkgs[q].targets@.len() as int),
            target_root(ns, pkgs, p, 0),
        );
    } else if p < q {
        lemma_pkg_offset_mono(pkgs, p, q);
        lemma_count_loaded_mono(
            loads,
            target_root(ns, pkgs, p, pkgs[p].targets@.len() as int),
            target_root(ns, pkgs, q, 0),
        );
    }
}

/// From a library no crate of a package can be reached.
proof fn lemma_no_path_from_lib(
    g: Seq<CrateView>,
    sysroot_len: int,
    pkgs: Seq<PackageData>,
    loads: Seq<Option<FileId>>,
    ns: int,
    x: int,
    y: int,
)
    requires
        edges_point_down(g, sysroot_len, pkgs, loads, ns),
        is_lib(pkgs, loads, ns, x),
        y >= sysroot_len,
    ensures
        !reachable(g, x, y),
{
    if reachable(g, x, y) {
        let path = choose|path: Seq<int>| #[trigger]
            is_path(g, path) && path.len() >= 2 && path[0] == x && path[path.len() - 1] == y;
        lemma_path_below(g, sysroot_len, pkgs, loads, ns, path, path.len() - 1);
    }
}

proof fn lemma_path_below(
    g: Seq<CrateView>,
    sysroot_len: int,
    pkgs: Seq<PackageData>,
    loads: Seq<Option<FileId>>,
    ns: int,
    path: Seq<int>,
    k: int,
)
    requires
        edges_point_down(g, sysroot_len, pkgs, loads, ns),
        is_path(g, path),
        is_lib(pkgs, loads, ns, path[0]),
        1 <= k < path.len(),
    ensures
        path[k] < sysroot_len,
    decreases k,
{
    assert(has_edge(g, path[k - 1], path[k - 1 + 1]));
    if k > 1 {
        lemma_path_below(g, sysroot_len, pkgs, loads, ns, path, k - 1);
    }
}

proof fn lemma_pkg_nodes(
    g: Seq<CrateView>,
    pkgs: Seq<PackageData>,
    loads: Seq<Option<FileId>>,
    ns: int,
    p: int,
    m: int,
)
    requires
        0 <= m,
    ensures
        pkg_nodes(g, pkgs, loads, ns, p, m).len() == g.len() + count_loaded(
            loads,
            target_root(ns, pkgs, p, m),
        ) - count_loaded(loads, target_root(ns, pkgs, p, 0)),
        forall|u: int, v: int| #[trigger]
            has_edge(pkg_nodes(g, pkgs, loads, ns, p, m), u, v) <==> has_edge(g, u, v),
    decreases m,
{
    if m > 0 {
        lemma_pkg_nodes(g, pkgs, loads, ns, p, m - 1);
        let h = pkg_nodes(g, pkgs, loads, ns, p, m - 1);
        match load_at(loads, target_root(ns, pkgs, p, m - 1)) {
            Some(file) => {
                lemma_with_root_edges(h, file, pkgs[p].edition);
            },
            None => {},
        }
    }
}

proof fn lemma_pkgs_nodes(g: Seq<CrateView>, pkgs: Seq<PackageData>, loads: Seq<Option<FileId>>, ns: int, p: int)
    requires
        0 <= p,
    ensures
        forall|u: int, v: int| #[trigger]
            has_edge(pkgs_nodes(g, pkgs, loads, ns, p), u, v) <==> has_edge(g, u, v),
    decreases p,
{
    if p > 0 {
        lemma_pkgs_nodes(g, pkgs, loads, ns, p - 1);
        lemma_pkg_nodes(
            pkgs_nodes(g, pkgs, loads, ns, p - 1),
            pkgs,
            loads,
            ns,
            p - 1,
            pkgs[p - 1].targets@.len() as int,
        );
    }
}

/// Third pass: a node for each target of each package whose root was
/// loaded. Returns the library crate of each package that has one, and the
/// crates of each package.
fn add_package_roots(
    graph: &mut CrateGraph,
    cargo: &CargoWorkspace,
    loads: &Vec<Option<FileId>>,
    ns: usize,
) -> (maps: (FxHashMap<usize, CrateId>, FxHashMap<usize, Vec<CrateId>>))
    requires
        old(graph).wf(),
        old(graph)@.len() == count_loaded(loads@, ns as int),
        ns + pkg_offset(cargo.packages@, cargo.packages@.len() as int) <= u32::MAX,
    ensures
        final(graph).wf(),
        final(graph)@ == pkgs_nodes(
            old(graph)@,
            cargo.packages@,
            loads@,
            ns as int,
            cargo.packages@.len() as int,
        ),
        final(graph)@.len() == count_loaded(
            loads@,
            ns + pkg_offset(cargo.packages@, cargo.packages@.len() as int),
        ),
        forall|q: usize| maps.0@.contains_key(q) <==> lib_of(cargo.packages@, loads@, ns as int, q as int) is Some,
        forall|q: usize| #[trigger]
            maps.0@.contains_key(q) ==> lib_of(cargo.packages@, loads@, ns as int, q as int) == Some(
                maps.0@[q].0 as int,
            ),
        forall|q: usize| maps.1@.contains_key(q) <==> q < cargo.packages@.len(),
        forall|q: usize| #[trigger]
            maps.1@.contains_key(q) ==> ids_view(maps.1@[q]@) == crates_of(
                cargo.packages@,
                loads@,
                ns as int,
                q as int,
            ),
{
    let ghost pkgs = cargo.packages@;
    let ghost np = pkgs.len() as int;
    let ghost g0 = graph@;
    let mut libs: FxHashMap<usize, CrateId> = fx_map_new();
    let mut crates: FxHashMap<usize, Vec<CrateId>> = fx_map_new();
    let mut k: usize = ns;
    let mut p: usize = 0;
    while p < cargo.packages.len()
        invariant
            0 <= p <= cargo.packages.len(),
            pkgs == cargo.packages@,
            np == pkgs.len(),
            ns + pkg_offset(pkgs, np) <= u32::MAX,
            k == ns + pkg_offset(pkgs, p as int),
            graph.wf(),
            graph@ == pkgs_nodes(g0, pkgs, loads@, ns as int, p as int),
            graph@.len() == count_loaded(loads@, k as int),
            forall|q: usize| libs@.contains_key(q) <==> q < p && lib_of(pkgs, loads@, ns as int, q as int) is Some,
            forall|q: usize| #[trigger]
                libs@.contains_key(q) ==> lib_of(pkgs, loads@, ns as int, q as int) == Some(libs@[q].0 as int),
            forall|q: usize| crates@.contains_key(q) <==> q < p,
            forall|q: usize| #[trigger]
                crates@.contains_key(q) ==> ids_view(crates@[q]@) == crates_of(pkgs, loads@, ns as int, q as int),
        decreases cargo.packages.len() - p,
    {
        let pkg = &cargo.packages[p];
        let ghost g1 = graph@;
        let mut lib_tgt: Option<CrateId> = None;
        let mut mine: Vec<CrateId> = Vec::new();
        let mut t: usize = 0;
        proof {
            lemma_pkg_offset_mono(pkgs, p as int, np);
            assert(ids_view(mine@) =~= pkg_crates(pkgs, loads@, ns as int, p as int, 0));
        }
        while t < pkg.targets.len()
            invariant
                0 <= p < cargo.packages.len(),
                0 <= t <= pkg.targets.len(),
                pkg == cargo.packages@[p as int],
                pkgs == cargo.packages@,
                np == pkgs.len(),
                ns + pkg_offset(pkgs, np) <= u32::MAX,
                pkg_offset(pkgs, p as int) + pkgs[p as int].targets@.len() <= pkg_offset(pkgs, np),
                k == ns + pkg_offset(pkgs, p as int) + t,
                graph.wf(),
                graph@ == pkg_nodes(g1, pkgs, loads@, ns as int, p as int, t as int),
                graph@.len() == count_loaded(loads@, k as int),
                id_view(lib_tgt) == pkg_lib(pkgs, loads@, ns as int, p as int, t as int),
                ids_view(mine@) == pkg_crates(pkgs, loads@, ns as int, p as int, t as int),
            decreases pkg.targets.len() - t,
        {
            proof {
                lemma_count_loaded_bounds(loads@, k as int);
            }
            match loaded_at(loads, k) {
                Some(file_id) => {
                    let crate_id = graph.add_crate_root(file_id, pkg.edition);
                    if pkg.targets[t].kind == TargetKind::Lib {
                        lib_tgt = Some(crate_id);
                    }
                    let ghost before = mine@;
                    mine.push(crate_id);
                    assert(ids_view(mine@) =~= ids_view(before).push(crate_id.0 as int));
                },
                None => {},
            }
            k += 1;
            t += 1;
        }
        match lib_tgt {
            Some(lib) => {
                fx_map_insert(&mut libs, p, lib);
            },
            None => {},
        }
        fx_map_insert(&mut crates, p, mine);
        p += 1;
    }
    (libs, crates)
}

/// An edge to `to` from each crate of `froms`, unless it would close a
/// cycle.
fn add_dep_from_each(
    graph: &mut CrateGraph,
    froms: &Vec<CrateId>,
    name: &String,
    to: CrateId,
    refused: &mut Vec<RefusedDep>,
)
    requires
        old(graph).wf(),
        (to.0 as int) < old(graph)@.len(),
        forall|c: int| 0 <= c < froms@.len() ==> (#[trigger] froms@[c]).0 < old(graph)@.len(),
    ensures
        final(graph).wf(),
        final(graph)@.len() == old(graph)@.len(),
        final(graph)@ == add_deps_spec(
            old(graph)@,
            dep_requests(ids_view(froms@), name@, to.0 as int, froms@.len() as int),
        ),
        refused_view(final(refused)@) == refused_view(old(refused)@) + refused_deps(
            old(graph)@,
            dep_requests(ids_view(froms@), name@, to.0 as int, froms@.len() as int),
        ),
        forall|u: int, v: int| has_edge(old(graph)@, u, v) ==> has_edge(final(graph)@, u, v),
        forall|u: int, n: Seq<char>, v: int| has_named_edge(old(graph)@, u, n, v) ==> has_named_edge(final(graph)@, u, n, v),
{
    let ghost g0 = graph@;
    let ghost r0 = refused_view(refused@);
    let ghost ids = ids_view(froms@);
    let mut c: usize = 0;
    while c < froms.len()
        invariant
            0 <= c <= froms.len(),
            ids == ids_view(froms@),
            graph.wf(),
            graph@.len() == g0.len(),
            (to.0 as int) < g0.len(),
            forall|c: int| 0 <= c < froms@.len() ==> (#[trigger] froms@[c]).0 < g0.len(),
            graph@ == add_deps_spec(g0, dep_requests(ids, name@, to.0 as int, c as int)),
            refused_view(refused@) == r0 + refused_deps(g0, dep_requests(ids, name@, to.0 as int, c as int)),
            forall|u: int, v: int| has_edge(g0, u, v) ==> has_edge(graph@, u, v),
            forall|u: int, n: Seq<char>, v: int| has_named_edge(g0, u, n, v) ==> has_named_edge(graph@, u, n, v),
        decreases froms.len() - c,
    {
        let from = froms[c];
        proof {
            let r = DepRequest { from: from.0 as int, name: name@, to: to.0 as int };
            lemma_add_deps_push(g0, dep_requests(ids, name@, to.0 as int, c as int), r);
            lemma_refused_push(g0, dep_requests(ids, name@, to.0 as int, c as int), r);
            lemma_add_dep_edges(graph@, from.0 as int, name@, to.0 as int);
        }
        graph.add_dep_or_note(from, name.clone(), to, refused);
        c += 1;
    }
}

/// Fifth pass: for each dependency of a package on a package with a
/// library, an edge from every crate of the first to that library.
fn add_inter_deps(
    graph: &mut CrateGraph,
    cargo: &CargoWorkspace,
    loads: Ghost<Seq<Option<FileId>>>,
    ns: Ghost<int>,
    libs: &FxHashMap<usize, CrateId>,
    crates: &FxHashMap<usize, Vec<CrateId>>,
    refused: &mut Vec<RefusedDep>,
)
    requires
        old(graph).wf(),
        0 <= ns@,
        old(graph)@.len() == count_loaded(
            loads@,
            ns@ + pkg_offset(cargo.packages@, cargo.packages@.len() as int),
        ),
        forall|q: usize| libs@.contains_key(q) <==> lib_of(cargo.packages@, loads@, ns@, q as int) is Some,
        forall|q: usize| #[trigger]
            libs@.contains_key(q) ==> lib_of(cargo.packages@, loads@, ns@, q as int) == Some(libs@[q].0 as int),
        forall|q: usize| crates@.contains_key(q) <==> q < cargo.packages@.len(),
        forall|q: usize| #[trigger]
            crates@.contains_key(q) ==> ids_view(crates@[q]@) == crates_of(cargo.packages@, loads@, ns@, q as int),
    ensures
        final(graph).wf(),
        final(graph)@.len() == old(graph)@.len(),
        final(graph)@ == add_deps_spec(
            old(graph)@,
            inter_requests(cargo.packages@, loads@, ns@, cargo.packages@.len() as int),
        ),
        refused_view(final(refused)@) == refused_view(old(refused)@) + refused_deps(
            old(graph)@,
            inter_requests(cargo.packages@, loads@, ns@, cargo.packages@.len() as int),
        ),
        forall|u: int, v: int| has_edge(old(graph)@, u, v) ==> has_edge(final(graph)@, u, v),
        forall|u: int, n: Seq<char>, v: int| has_named_edge(old(graph)@, u, n, v) ==> has_named_edge(final(graph)@, u, n, v),
{
    let ghost pkgs = cargo.packages@;
    let ghost np = pkgs.len() as int;
    let ghost g0 = graph@;
    let ghost r0 = refused_view(refused@);
    let mut p: usize = 0;
    while p < cargo.packages.len()
        invariant
            0 <= p <= cargo.packages.len(),
            pkgs == cargo.packages@,
            np == pkgs.len(),
            0 <= ns@,
            graph.wf(),
            graph@.len() == g0.len(),
            g0.len() == count_loaded(loads@, ns@ + pkg_offset(pkgs, np)),
            graph@ == add_deps_spec(g0, inter_requests(pkgs, loads@, ns@, p as int)),
            refused_view(refused@) == r0 + refused_deps(g0, inter_requests(pkgs, loads@, ns@, p as int)),
            forall|u: int, v: int| has_edge(g0, u, v) ==> has_edge(graph@, u, v),
            forall|u: int, n: Seq<char>, v: int| has_named_edge(g0, u, n, v) ==> has_named_edge(graph@, u, n, v),
            forall|q: usize| libs@.contains_key(q) <==> lib_of(pkgs, loads@, ns@, q as int) is Some,
            forall|q: usize| #[trigger]
                libs@.contains_key(q) ==> lib_of(pkgs, loads@, ns@, q as int) == Some(libs@[q].0 as int),
            forall|q: usize| crates@.contains_key(q) <==> q < np,
            forall|q: usize| #[trigger]
                crates@.contains_key(q) ==> ids_view(crates@[q]@) == crates_of(pkgs, loads@, ns@, q as int),
        decreases cargo.packages.len() - p,
    {
        let pkg = &cargo.packages[p];
        let ghost done = inter_requests(pkgs, loads@, ns@, p as int);
        let ghost froms_spec = crates_of(pkgs, loads@, ns@, p as int);
        let found = fx_map_get(crates, p);
        assert(crates@.contains_key(p));
        let froms = found.unwrap();
        proof {
            lemma_pkg_crates_range(pkgs, loads@, ns@, p as int, pkgs[p as int].targets@.len() as int);
            lemma_pkg_offset_mono(pkgs, p as int, np);
            lemma_count_loaded_mono(
                loads@,
                target_root(ns@, pkgs, p as int, pkgs[p as int].targets@.len() as int),
                ns@ + pkg_offset(pkgs, np),
            );
            assert forall|c: int| 0 <= c < froms@.len() implies (#[trigger] froms@[c]).0 < g0.len() by {
                assert(ids_view(froms@)[c] == froms@[c].0);
            }
        }
        let mut d: usize = 0;
        while d < pkg.dependencies.len()
            invariant
                0 <= p < cargo.packages.len(),
                0 <= d <= pkg.dependencies.len(),
                pkg == cargo.packages@[p as int],
                pkgs == cargo.packages@,
                np == pkgs.len(),
                0 <= ns@,
                graph.wf(),
                graph@.len() == g0.len(),
                g0.len() == count_loaded(loads@, ns@ + pkg_offset(pkgs, np)),
                done == inter_requests(pkgs, loads@, ns@, p as int),
                froms_spec == crates_of(pkgs, loads@, ns@, p as int),
                ids_view(froms@) == froms_spec,
                forall|c: int| 0 <= c < froms@.len() ==> (#[trigger] froms@[c]).0 < g0.len(),
                graph@ == add_deps_spec(g0, done + pkg_inter_requests(pkgs, loads@, ns@, p as int, d as int)),
                refused_view(refused@) == r0 + refused_deps(g0, done + pkg_inter_requests(pkgs, loads@, ns@, p as int, d as int)),
                forall|u: int, v: int| has_edge(g0, u, v) ==> has_edge(graph@, u, v),
                forall|u: int, n: Seq<char>, v: int| has_named_edge(g0, u, n, v) ==> has_named_edge(graph@, u, n, v),
                forall|q: usize| libs@.contains_key(q) <==> lib_of(pkgs, loads@, ns@, q as int) is Some,
                forall|q: usize| #[trigger]
                    libs@.contains_key(q) ==> lib_of(pkgs, loads@, ns@, q as int) == Some(libs@[q].0 as int),
            decreases pkg.dependencies.len() - d,
        {
            let dep = &pkg.dependencies[d];
            let ghost before = pkg_inter_requests(pkgs, loads@, ns@, p as int, d as int);
            match fx_map_get(libs, dep.pkg) {
                Some(to) => {
                    proof {
                        let q = dep.pkg as int;
                        lemma_pkg_crates_range(pkgs, loads@, ns@, q, pkgs[q].targets@.len() as int);
                        lemma_pkg_offset_mono(pkgs, q, np);
                        lemma_count_loaded_mono(
                            loads@,
                            target_root(ns@, pkgs, q, pkgs[q].targets@.len() as int),
                            ns@ + pkg_offset(pkgs, np),
                        );
                        let more = dep_requests(froms_spec, dep.name@, to.0 as int, froms_spec.len() as int);
                        lemma_add_deps_concat(g0, done + before, more);
                        lemma_refused_concat(g0, done + before, more);
                        assert(done + (before + more) =~= (done + before) + more);
                    }
                    add_dep_from_each(graph, froms, &dep.name, *to, refused);
                },
                None => {},
            }
            d += 1;
        }
        p += 1;
    }
}

/// Fourth pass: from each crate of a package an edge to the package's
/// library, unless the crate is that library, and an edge to `std`.
fn add_intra_deps(
    graph: &mut CrateGraph,
    cargo: &CargoWorkspace,
    loads: Ghost<Seq<Option<FileId>>>,
    ns: Ghost<int>,
    libstd: Option<CrateId>,
    libs: &FxHashMap<usize, CrateId>,
    crates: &FxHashMap<usize, Vec<CrateId>>,
    refused: &mut Vec<RefusedDep>,
)
    requires
        old(graph).wf(),
        0 <= ns@,
        old(graph)@.len() == count_loaded(
            loads@,
            ns@ + pkg_offset(cargo.packages@, cargo.packages@.len() as int),
        ),
        libstd matches Some(s) ==> s.0 < count_loaded(loads@, ns@),
        edges_point_down(old(graph)@, count_loaded(loads@, ns@), cargo.packages@, loads@, ns@),
        forall|q: usize| libs@.contains_key(q) <==> lib_of(cargo.packages@, loads@, ns@, q as int) is Some,
        forall|q: usize| #[trigger]
            libs@.contains_key(q) ==> lib_of(cargo.packages@, loads@, ns@, q as int) == Some(libs@[q].0 as int),
        forall|q: usize| crates@.contains_key(q) <==> q < cargo.packages@.len(),
        forall|q: usize| #[trigger]
            crates@.contains_key(q) ==> ids_view(crates@[q]@) == crates_of(cargo.packages@, loads@, ns@, q as int),
    ensures
        final(graph).wf(),
        final(graph)@.len() == old(graph)@.len(),
        final(graph)@ == add_deps_spec(
            old(graph)@,
            intra_requests(cargo.packages@, loads@, ns@, id_view(libstd), cargo.packages@.len() as int),
        ),
        refused_view(final(refused)@) == refused_view(old(refused)@) + refused_deps(
            old(graph)@,
            intra_requests(cargo.packages@, loads@, ns@, id_view(libstd), cargo.packages@.len() as int),
        ),
        lib_edges_present(cargo.packages@, loads@, ns@, cargo.packages@.len() as int, final(graph)@),
{
    let ghost pkgs = cargo.packages@;
    let ghost np = pkgs.len() as int;
    let ghost g0 = graph@;
    let ghost r0 = refused_view(refused@);
    let ghost low = count_loaded(loads@, ns@);
    let mut p: usize = 0;
    while p < cargo.packages.len()
        invariant
            0 <= p <= cargo.packages.len(),
            pkgs == cargo.packages@,
            np == pkgs.len(),
            0 <= ns@,
            low == count_loaded(loads@, ns@),
            libstd matches Some(s) ==> s.0 < low,
            graph.wf(),
            graph@.len() == g0.len(),
            g0.len() == count_loaded(loads@, ns@ + pkg_offset(pkgs, np)),
            graph@ == add_deps_spec(g0, intra_requests(pkgs, loads@, ns@, id_view(libstd), p as int)),
            refused_view(refused@) == r0 + refused_deps(g0, intra_requests(pkgs, loads@, ns@, id_view(libstd), p as int)),
            edges_point_down(graph@, low, pkgs, loads@, ns@),
            lib_edges_present(pkgs, loads@, ns@, p as int, graph@),
            forall|q: usize| libs@.contains_key(q) <==> lib_of(pkgs, loads@, ns@, q as int) is Some,
            forall|q: usize| #[trigger]
                libs@.contains_key(q) ==> lib_of(pkgs, loads@, ns@, q as int) == Some(libs@[q].0 as int),
            forall|q: usize| crates@.contains_key(q) <==> q < np,
            forall|q: usize| #[trigger]
                crates@.contains_key(q) ==> ids_view(crates@[q]@) == crates_of(pkgs, loads@, ns@, q as int),
        decreases cargo.packages.len() - p,
    {
        let pkg = &cargo.packages[p];
        let ghost done = intra_requests(pkgs, loads@, ns@, id_view(libstd), p as int);
        let ghost ids = crates_of(pkgs, loads@, ns@, p as int);
        let ghost lib_spec = lib_of(pkgs, loads@, ns@, p as int);
        let found = fx_map_get(crates, p);
        assert(crates@.contains_key(p));
        let froms = found.unwrap();
        let lib: Option<CrateId> = match fx_map_get(libs, p) {
            Some(c) => Some(*c),
            None => None,
        };
        proof {
            let all = pkgs[p as int].targets@.len() as int;
            lemma_pkg_crates_range(pkgs, loads@, ns@, p as int, all);
            lemma_pkg_offset_mono(pkgs, p as int, np);
            lemma_pkg_offset_mono(pkgs, 0, p as int);
            lemma_count_loaded_mono(loads@, target_root(ns@, pkgs, p as int, all), ns@ + pkg_offset(pkgs, np));
            lemma_count_loaded_mono(loads@, ns@, target_root(ns@, pkgs, p as int, 0));
            assert forall|c: int| 0 <= c < froms@.len() implies low <= (#[trigger] froms@[c]).0 < g0.len() by {
                assert(ids_view(froms@)[c] == froms@[c].0);
            }
        }
        let mut c: usize = 0;
        while c < froms.len()
            invariant
                0 <= p < cargo.packages.len(),
                0 <= c <= froms.len(),
                pkg == cargo.packages@[p as int],
                pkgs == cargo.packages@,
                np == pkgs.len(),
                0 <= ns@,
                low == count_loaded(loads@, ns@),
                libstd matches Some(s) ==> s.0 < low,
                graph.wf(),
                graph@.len() == g0.len(),
                done == intra_requests(pkgs, loads@, ns@, id_view(libstd), p as int),
                ids == crates_of(pkgs, loads@, ns@, p as int),
                ids_view(froms@) == ids,
                lib_spec == lib_of(pkgs, loads@, ns@, p as int),
                id_view(lib) == lib_spec,
                lib matches Some(l) ==> l.0 < g0.len(),
                forall|c: int| 0 <= c < froms@.len() ==> low <= (#[trigger] froms@[c]).0 < g0.len(),
                forall|c: int|
                    0 <= c < ids.len() ==> count_loaded(loads@, target_root(ns@, pkgs, p as int, 0)) <= (
                    #[trigger] ids[c]) < count_loaded(
                        loads@,
                        target_root(ns@, pkgs, p as int, pkgs[p as int].targets@.len() as int),
                    ),
                graph@ == add_deps_spec(
                    g0,
                    done + pkg_intra_requests(pkgs, loads@, ns@, id_view(libstd), p as int, c as int),
                ),
                refused_view(refused@) == r0 + refused_deps(
                    g0,
                    done + pkg_intra_requests(pkgs, loads@, ns@, id_view(libstd), p as int, c as int),
                ),
                edges_point_down(graph@, low, pkgs, loads@, ns@),
                lib_edges_present(pkgs, loads@, ns@, p as int, graph@),
                forall|b: int|
                    0 <= b < c ==> (lib_spec matches Some(to) ==> to != (#[trigger] ids[b]) ==> has_named_edge(
                        graph@,
                        ids[b],
                        pkgs[p as int].name@,
                        to,
                    )),
            decreases froms.len() - c,
        {
            let from = froms[c];
            let ghost f = from.0 as int;
            assert(ids[c as int] == f) by {
                assert(ids_view(froms@)[c as int] == froms@[c as int].0);
            }
            let ghost before = done + pkg_intra_requests(pkgs, loads@, ns@, id_view(libstd), p as int, c as int);
            let ghost mut acc = before;
            match lib {
                Some(to) => {
                    if to != from {
                        let ghost g = graph@;
                        proof {
                            let t = to.0 as int;
                            assert(lib_of(pkgs, loads@, ns@, p as int) == Some(t));
                            assert(is_lib(pkgs, loads@, ns@, t));
                            lemma_no_path_from_lib(g, low, pkgs, loads@, ns@, t, f);
                            lemma_with_dep_edges(g, f, pkg.name@, t);
                            if is_lib(pkgs, loads@, ns@, f) {
                                lemma_lib_unique(pkgs, loads@, ns@, p as int, f);
                            }
                            let r = DepRequest { from: f, name: pkg.name@, to: t };
                            lemma_add_deps_push(g0, acc, r);
                            lemma_refused_push(g0, acc, r);
                            acc = acc.push(r);
                        }
                        graph.add_dep_or_note(from, pkg.name.clone(), to, refused);
                        assert(graph@ == with_dep(g, f, pkg.name@, to.0 as int));
                    }
                },
                None => {},
            }
            match libstd {
                Some(std_crate) => {
                    let ghost g = graph@;
                    proof {
                        let r = DepRequest { from: f, name: "std"@, to: std_crate.0 as int };
                        lemma_add_dep_edges(g, f, "std"@, std_crate.0 as int);
                        lemma_add_deps_push(g0, acc, r);
                        lemma_refused_push(g0, acc, r);
                        acc = acc.push(r);
                    }
                    graph.add_dep_or_note(from, String::from_str("std"), std_crate, refused);
                },
                None => {},
            }
            proof {
                let step = intra_requests_of(f, pkg.name@, lib_spec, id_view(libstd));
                assert(acc =~= before + step);
                assert(before + step =~= done + pkg_intra_requests(
                    pkgs,
                    loads@,
                    ns@,
                    id_view(libstd),
                    p as int,
                    c as int + 1,
                ));
            }
            c += 1;
        }
        proof {
            assert(lib_edges_present(pkgs, loads@, ns@, p as int + 1, graph@));
        }
        p += 1;
    }
}

/// The edges that the crate graph of a workspace of the package manager
/// refuses, pass by pass, in order.
pub open spec fn cargo_refused(
    sys: Seq<SysrootCrateData>,
    pkgs: Seq<PackageData>,
    loads: Seq<Option<FileId>>,
) -> Seq<DepRequest> {
    let ns = sys.len() as int;
    let np = pkgs.len() as int;
    let sysroot = add_deps_spec(sysroot_nodes(loads, ns), sysroot_requests(sys, loads, ns));
    let nodes = pkgs_nodes(sysroot, pkgs, loads, ns, np);
    let intra = add_deps_spec(nodes, intra_requests(pkgs, loads, ns, libstd_of(sys, loads), np));
    refused_deps(sysroot_nodes(loads, ns), sysroot_requests(sys, loads, ns)) + refused_deps(
        nodes,
        intra_requests(pkgs, loads, ns, libstd_of(sys, loads), np),
    ) + refused_deps(intra, inter_requests(pkgs, loads, ns, np))
}

/// The crate graph of a workspace of the package manager, from the
/// loader's answers, together with the edges that were refused. Every crate
/// of a package that is not the package's library has an edge to that
/// library.
pub fn cargo_crate_graph(cargo: &CargoWorkspace, sysroot: &Sysroot, loads: &Vec<Option<FileId>>) -> (res: (
    CrateGraph,
    Vec<RefusedDep>,
))
    requires
        root_count(sysroot.crates@, cargo.packages@) <= u32::MAX,
    ensures
        res.0.wf(),
        res.0@ == cargo_graph(sysroot.crates@, cargo.packages@, loads@),
        refused_view(res.1@) == cargo_refused(sysroot.crates@, cargo.packages@, loads@),
        lib_edges_present(
            cargo.packages@,
            loads@,
            sysroot.crates@.len() as int,
            cargo.packages@.len() as int,
            res.0@,
        ),
{
    let ghost sys = sysroot.crates@;
    let ghost pkgs = cargo.packages@;
    let ns = sysroot.crates.len();
    proof {
        lemma_pkg_offset_mono(pkgs, 0, pkgs.len() as int);
    }
    let mut graph = CrateGraph::new();
    let mut notes: Vec<RefusedDep> = Vec::new();
    let sysroot_crates = add_sysroot_roots(&mut graph, sysroot, loads);
    add_sysroot_deps(&mut graph, sysroot, Ghost(loads@), &sysroot_crates, &mut notes);
    let libstd: Option<CrateId> = match sysroot.std_crate() {
        Some(s) => match fx_map_get(&sysroot_crates, s) {
            Some(c) => Some(*c),
            None => None,
        },
        None => None,
    };
    let ghost g2 = graph@;
    proof {
        graph.lemma_acyclic();
        assert(id_view(libstd) == libstd_of(sys, loads@));
        if libstd is Some {
            let s = first_named(sys, "std"@, sys.len() as int)->0;
            lemma_count_loaded_mono(loads@, s, ns as int);
        }
    }
    let (libs, crates) = add_package_roots(&mut graph, cargo, loads, ns);
    proof {
        lemma_pkgs_nodes(g2, pkgs, loads@, ns as int, pkgs.len() as int);
    }
    add_intra_deps(&mut graph, cargo, Ghost(loads@), Ghost(ns as int), libstd, &libs, &crates, &mut notes);
    add_inter_deps(&mut graph, cargo, Ghost(loads@), Ghost(ns as int), &libs, &crates, &mut notes);
    proof {
        assert(refused_view(notes@) =~= cargo_refused(sys, pkgs, loads@));
    }
    (graph, notes)
}

} // verus!
