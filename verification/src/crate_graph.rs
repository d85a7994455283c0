//! A directed graph of crates with named dependency edges.
//!
//! Nodes are added with [`CrateGraph::add_crate_root`] and never removed.
//! Edges are added with [`CrateGraph::add_dep`], which refuses an edge that
//! would close a cycle, so a well-formed graph is always acyclic.
use vstd::prelude::*;
use crate::base::Edition;
use crate::base::FileId;

verus! {

/// Dense index of a crate inside one [`CrateGraph`].
#[derive(Clone, Copy, Debug, PartialEq, Eq, Hash, PartialOrd, Ord, Structural)]
pub struct CrateId(pub u32);

/// One outgoing edge: the crate depended on, under a crate-local alias.
#[derive(Clone, Debug)]
pub struct Dependency {
    pub crate_id: CrateId,
    pub name: String,
}

/// The error of [`CrateGraph::add_dep`]: the edge would have closed a cycle.
#[derive(Clone, Copy, Debug, PartialEq, Eq, Structural)]
pub struct CyclicDependencies;

/// An edge that was asked for and refused.
#[derive(Clone, Debug, PartialEq, Eq)]
pub struct RefusedDep {
    pub from: CrateId,
    pub name: String,
    pub to: CrateId,
}

/// Mathematical model of an edge.
pub struct DepView {
    pub name: Seq<char>,
    pub to: int,
}

/// Mathematical model of a node.
pub struct CrateView {
    pub file: FileId,
    pub edition: Edition,
    pub deps: Seq<DepView>,
}

impl Dependency {
    /// The edge as a mathematical value.
    pub open spec fn view(&self) -> DepView {
        DepView { name: self.name@, to: self.crate_id.0 as int }
    }
}

impl RefusedDep {
    /// The request that was refused.
    pub open spec fn view(&self) -> DepRequest {
        DepRequest { from: self.from.0 as int, name: self.name@, to: self.to.0 as int }
    }
}

/// The models of a vector of refused edges.
pub open spec fn refused_view(refused: Seq<RefusedDep>) -> Seq<DepRequest> {
    refused.map_values(|r: RefusedDep| r@)
}

/// `g` has an edge from `u` to `v`.
pub open spec fn has_edge(g: Seq<CrateView>, u: int, v: int) -> bool {
    0 <= u < g.len() && exists|i: int| 0 <= i < g[u].deps.len() && (#[trigger] g[u].deps[i]).to == v
}

/// `g` has an edge from `u` to `v` under the alias `name`.
pub open spec fn has_named_edge(g: Seq<CrateView>, u: int, name: Seq<char>, v: int) -> bool {
    0 <= u < g.len() && exists|i: int|
        0 <= i < g[u].deps.len() && (#[trigger] g[u].deps[i]).to == v && g[u].deps[i].name == name
}

/// `p` is a walk along the edges of `g`.
pub open spec fn is_path(g: Seq<CrateView>, p: Seq<int>) -> bool {
    p.len() >= 1 && forall|k: int| 0 <= k < p.len() - 1 ==> #[trigger] has_edge(g, p[k], p[k + 1])
}

/// `v` can be reached from `u` along at least one edge of `g`.
pub open spec fn reachable(g: Seq<CrateView>, u: int, v: int) -> bool {
    exists|p: Seq<int>| #[trigger] is_path(g, p) && p.len() >= 2 && p[0] == u && p[p.len() - 1] == v
}

/// No crate of `g` can reach itself.
pub open spec fn acyclic(g: Seq<CrateView>) -> bool {
    forall|u: int| !#[trigger] reachable(g, u, u)
}

/// Every edge of `g` ends at a node of `g`.
pub open spec fn edges_in_range(g: Seq<CrateView>) -> bool {
    forall|u: int, i: int|
        0 <= u < g.len() && 0 <= i < g[u].deps.len() ==> 0 <= (#[trigger] g[u].deps[i]).to < g.len()
}

/// `g` with one more edge, appended to the edges of `from`.
pub open spec fn with_dep(g: Seq<CrateView>, from: int, name: Seq<char>, to: int) -> Seq<CrateView> {
    g.update(
        from,
        CrateView {
            file: g[from].file,
            edition: g[from].edition,
            deps: g[from].deps.push(DepView { name, to }),
        },
    )
}

/// `g` with one more node that has no edges.
pub open spec fn with_root(g: Seq<CrateView>, file: FileId, edition: Edition) -> Seq<CrateView> {
    g.push(CrateView { file, edition, deps: Seq::empty() })
}

/// The edge `from -> to` would close a cycle in `g`.
pub open spec fn refuses(g: Seq<CrateView>, from: int, to: int) -> bool {
    from == to || reachable(g, to, from)
}

/// What [`CrateGraph::add_dep`] makes of `g`: the edge is added unless it
/// would close a cycle.
pub open spec fn add_dep_spec(g: Seq<CrateView>, from: int, name: Seq<char>, to: int) -> Seq<CrateView> {
    if refuses(g, from, to) {
        g
    } else {
        with_dep(g, from, name, to)
    }
}

/// A request for one edge.
pub struct DepRequest {
    pub from: int,
    pub name: Seq<char>,
    pub to: int,
}

/// What a run of [`CrateGraph::add_dep`] over `requests`, first to last,
/// makes of `g`.
pub open spec fn add_deps_spec(g: Seq<CrateView>, requests: Seq<DepRequest>) -> Seq<CrateView>
    decreases requests.len(),
{
    if requests.len() == 0 {
        g
    } else {
        let last = requests.last();
        add_dep_spec(add_deps_spec(g, requests.drop_last()), last.from, last.name, last.to)
    }
}

/// The request, if `g` refuses it.
pub open spec fn refusal_of(g: Seq<CrateView>, request: DepRequest) -> Seq<DepRequest> {
    if refuses(g, request.from, request.to) {
        seq![request]
    } else {
        Seq::empty()
    }
}

/// The requests that a run of [`CrateGraph::add_dep`] over `requests`,
/// first to last, refuses, in order.
pub open spec fn refused_deps(g: Seq<CrateView>, requests: Seq<DepRequest>) -> Seq<DepRequest>
    decreases requests.len(),
{
    if requests.len() == 0 {
        Seq::empty()
    } else {
        refused_deps(g, requests.drop_last()) + refusal_of(
            add_deps_spec(g, requests.drop_last()),
            requests.last(),
        )
    }
}

/// What one run refuses after another is what one run over both refuses.
pub(crate) proof fn lemma_refused_concat(g: Seq<CrateView>, a: Seq<DepRequest>, b: Seq<DepRequest>)
    ensures
        refused_deps(g, a + b) == refused_deps(g, a) + refused_deps(add_deps_spec(g, a), b),
    decreases b.len(),
{
    if b.len() == 0 {
        assert(a + b =~= a);
        assert(refused_deps(g, a) + refused_deps(add_deps_spec(g, a), b) =~= refused_deps(g, a));
    } else {
        lemma_refused_concat(g, a, b.drop_last());
        lemma_add_deps_concat(g, a, b.drop_last());
        assert((a + b).drop_last() =~= a + b.drop_last());
        assert((a + b).last() == b.last());
        assert(refused_deps(g, a + b) =~= refused_deps(g, a) + refused_deps(add_deps_spec(g, a), b));
    }
}

/// One more request at the end is refused or not by the graph that the
/// requests before it left.
pub(crate) proof fn lemma_refused_push(g: Seq<CrateView>, a: Seq<DepRequest>, r: DepRequest)
    ensures
        refused_deps(g, a.push(r)) == refused_deps(g, a) + refusal_of(add_deps_spec(g, a), r),
{
    assert(a.push(r).drop_last() =~= a);
}

/// Adding edges one run after another is adding them in one run.
pub(crate) proof fn lemma_add_deps_concat(g: Seq<CrateView>, a: Seq<DepRequest>, b: Seq<DepRequest>)
    ensures
        add_deps_spec(add_deps_spec(g, a), b) == add_deps_spec(g, a + b),
    decreases b.len(),
{
    if b.len() == 0 {
        assert(a + b =~= a);
    } else {
        lemma_add_deps_concat(g, a, b.drop_last());
        assert((a + b).drop_last() =~= a + b.drop_last());
    }
}

/// One more request at the end is one more call.
pub(crate) proof fn lemma_add_deps_push(g: Seq<CrateView>, a: Seq<DepRequest>, r: DepRequest)
    ensures
        add_deps_spec(g, a.push(r)) == add_dep_spec(add_deps_spec(g, a), r.from, r.name, r.to),
{
    assert(a.push(r).drop_last() =~= a);
}

/// The edges of a graph with one more edge are the old ones and the new one.
pub(crate) proof fn lemma_with_dep_edges(g: Seq<CrateView>, from: int, name: Seq<char>, to: int)
    requires
        0 <= from < g.len(),
    ensures
        with_dep(g, from, name, to).len() == g.len(),
        forall|u: int, v: int| #[trigger]
            has_edge(with_dep(g, from, name, to), u, v) <==> has_edge(g, u, v) || (u == from && v == to),
        has_named_edge(with_dep(g, from, name, to), from, name, to),
        forall|u: int, n: Seq<char>, v: int|
            has_named_edge(g, u, n, v) ==> #[trigger] has_named_edge(with_dep(g, from, name, to), u, n, v),
{
    let h = with_dep(g, from, name, to);
    assert(h[from].deps[g[from].deps.len() as int].to == to);
    assert forall|u: int, n: Seq<char>, v: int| has_named_edge(g, u, n, v) implies #[trigger] has_named_edge(
        h,
        u,
        n,
        v,
    ) by {
        let i = choose|i: int|
            0 <= i < g[u].deps.len() && (#[trigger] g[u].deps[i]).to == v && g[u].deps[i].name == n;
        assert(h[u].deps[i].to == v && h[u].deps[i].name == n);
    }
    assert forall|u: int, v: int| #[trigger]
        has_edge(h, u, v) <==> has_edge(g, u, v) || (u == from && v == to) by {
        if has_edge(h, u, v) {
            let i = choose|i: int| 0 <= i < h[u].deps.len() && (#[trigger] h[u].deps[i]).to == v;
            if u == from && i == g[u].deps.len() {
            } else {
                assert(g[u].deps[i].to == v);
            }
        }
        if has_edge(g, u, v) {
            let i = choose|i: int| 0 <= i < g[u].deps.len() && (#[trigger] g[u].deps[i]).to == v;
            assert(h[u].deps[i].to == v);
        }
        if u == from && v == to {
            assert(h[u].deps[g[u].deps.len() as int].to == v);
        }
    }
}

/// A new node brings no edge.
pub(crate) proof fn lemma_with_root_edges(g: Seq<CrateView>, file: FileId, edition: Edition)
    ensures
        with_root(g, file, edition).len() == g.len() + 1,
        forall|u: int, v: int| #[trigger]
            has_edge(with_root(g, file, edition), u, v) <==> has_edge(g, u, v),
{
    let h = with_root(g, file, edition);
    assert forall|u: int, v: int| #[trigger] has_edge(h, u, v) <==> has_edge(g, u, v) by {
        if has_edge(h, u, v) {
            let i = choose|i: int| 0 <= i < h[u].deps.len() && (#[trigger] h[u].deps[i]).to == v;
            assert(g[u].deps[i].to == v);
        }
        if has_edge(g, u, v) {
            let i = choose|i: int| 0 <= i < g[u].deps.len() && (#[trigger] g[u].deps[i]).to == v;
            assert(h[u].deps[i].to == v);
        }
    }
}

/// Asking for an edge never removes one, and adds at most the one asked for.
pub(crate) proof fn lemma_add_dep_edges(g: Seq<CrateView>, from: int, name: Seq<char>, to: int)
    requires
        0 <= from < g.len(),
    ensures
        add_dep_spec(g, from, name, to).len() == g.len(),
        forall|u: int, v: int| has_edge(g, u, v) ==> #[trigger] has_edge(add_dep_spec(g, from, name, to), u, v),
        forall|u: int, v: int| #[trigger]
            has_edge(add_dep_spec(g, from, name, to), u, v) ==> has_edge(g, u, v) || (u == from && v == to),
        forall|u: int, n: Seq<char>, v: int|
            has_named_edge(g, u, n, v) ==> #[trigger] has_named_edge(add_dep_spec(g, from, name, to), u, n, v),
        !refuses(g, from, to) ==> has_named_edge(add_dep_spec(g, from, name, to), from, name, to),
{
    lemma_with_dep_edges(g, from, name, to);
}

struct CrateData {
    file_id: FileId,
    edition: Edition,
    dependencies: Vec<Dependency>,
}

impl CrateData {
    spec fn view(&self) -> CrateView {
        CrateView {
            file: self.file_id,
            edition: self.edition,
            deps: self.dependencies@.map_values(|d: Dependency| d@),
        }
    }
}

/// The graph itself. `rank` and `bound` are ghost: a numbering of the nodes
/// that falls along every edge, which is what shows that no cycle exists.
pub struct CrateGraph {
    arena: Vec<CrateData>,
    rank: Ghost<Seq<nat>>,
    bound: Ghost<nat>,
}

/// Number of `false` entries of `s`.
spec fn count_false(s: Seq<bool>) -> nat
    decreases s.len(),
{
    if s.len() == 0 {
        0
    } else {
        count_false(s.drop_last()) + if s.last() { 0nat } else { 1nat }
    }
}

proof fn lemma_count_false_update(s: Seq<bool>, i: int)
    requires
        0 <= i < s.len(),
        !s[i],
    ensures
        count_false(s.update(i, true)) + 1 == count_false(s),
    decreases s.len(),
{
    let t = s.update(i, true);
    if i == s.len() - 1 {
        assert(t.drop_last() =~= s.drop_last());
    } else {
        lemma_count_false_update(s.drop_last(), i);
        assert(t.drop_last() =~= s.drop_last().update(i, true));
    }
}

proof fn lemma_count_false_mono(s: Seq<bool>, t: Seq<bool>)
    requires
        s.len() == t.len(),
        forall|i: int| 0 <= i < s.len() && s[i] ==> t[i],
    ensures
        count_false(t) <= count_false(s),
    decreases s.len(),
{
    if s.len() > 0 {
        lemma_count_false_mono(s.drop_last(), t.drop_last());
    }
}

/// Every edge out of `x` ends at a node marked in `vis`.
spec fn closed_at(g: Seq<CrateView>, vis: Seq<bool>, x: int) -> bool {
    forall|i: int| 0 <= i < g[x].deps.len() ==> vis[(#[trigger] g[x].deps[i]).to]
}

proof fn lemma_path_extend(g: Seq<CrateView>, u: int, p: Seq<int>)
    requires
        is_path(g, p),
        has_edge(g, u, p[0]),
    ensures
        is_path(g, seq![u] + p),
{
    let q = seq![u] + p;
    assert forall|k: int| 0 <= k < q.len() - 1 implies #[trigger] has_edge(g, q[k], q[k + 1]) by {
        if k > 0 {
            assert(has_edge(g, p[k - 1], p[k - 1 + 1]));
        }
    }
}

/// A walk that starts inside a set closed under edges never leaves it.
proof fn lemma_path_stays_closed(g: Seq<CrateView>, vis: Seq<bool>, p: Seq<int>, k: int)
    requires
        vis.len() == g.len(),
        edges_in_range(g),
        is_path(g, p),
        0 <= p[0] < g.len(),
        vis[p[0]],
        forall|x: int| 0 <= x < g.len() && vis[x] ==> closed_at(g, vis, x),
        0 <= k < p.len(),
    ensures
        0 <= p[k] < g.len(),
        vis[p[k]],
    decreases k,
{
    if k > 0 {
        lemma_path_stays_closed(g, vis, p, k - 1);
        assert(has_edge(g, p[k - 1], p[k - 1 + 1]));
        assert(closed_at(g, vis, p[k - 1]));
    }
}

/// Along a walk the rank falls.
proof fn lemma_rank_falls(g: Seq<CrateView>, rank: Seq<nat>, p: Seq<int>, k: int)
    requires
        rank.len() == g.len(),
        edges_in_range(g),
        forall|u: int, i: int|
            0 <= u < g.len() && 0 <= i < g[u].deps.len() ==> rank[u] > rank[(#[trigger] g[u].deps[i]).to],
        is_path(g, p),
        1 <= k < p.len(),
    ensures
        0 <= p[0] < g.len(),
        0 <= p[k] < g.len(),
        rank[p[0]] > rank[p[k]],
    decreases k,
{
    assert(has_edge(g, p[k - 1], p[k - 1 + 1]));
    if k > 1 {
        lemma_rank_falls(g, rank, p, k - 1);
    } else {
        assert(has_edge(g, p[0int], p[0int + 1]));
    }
}

impl CrateGraph {
    /// The nodes in the order in which they were added, each with its edges
    /// in the order in which they were added.
    pub closed spec fn view(&self) -> Seq<CrateView> {
        self.arena@.map_values(|c: CrateData| c@)
    }

    /// The invariant of the type: edges end inside the graph, the graph fits
    /// its index type, and the ghost numbering falls along every edge.
    pub closed spec fn wf(&self) -> bool {
        &&& self.arena@.len() <= u32::MAX
        &&& edges_in_range(self@)
        &&& self.rank@.len() == self@.len()
        &&& forall|x: int| 0 <= x < self.rank@.len() ==> #[trigger] self.rank@[x] < self.bound@
        &&& forall|u: int, i: int|
            0 <= u < self@.len() && 0 <= i < self@[u].deps.len() ==> self.rank@[u] > self.rank@[(
            #[trigger] self@[u].deps[i]).to]
    }

    /// A well-formed graph has no directed cycle.
    pub proof fn lemma_acyclic(&self)
        requires
            self.wf(),
        ensures
            acyclic(self@),
            edges_in_range(self@),
            self@.len() <= u32::MAX,
    {
        let g = self@;
        assert forall|u: int| !#[trigger] reachable(g, u, u) by {
            if reachable(g, u, u) {
                let p = choose|p: Seq<int>| #[trigger]
                    is_path(g, p) && p.len() >= 2 && p[0] == u && p[p.len() - 1] == u;
                lemma_rank_falls(g, self.rank@, p, p.len() - 1);
            }
        }
    }

    /// The empty graph.
    pub fn new() -> (g: CrateGraph)
        ensures
            g.wf(),
            g@ == Seq::<CrateView>::empty(),
    {
        let g = CrateGraph { arena: Vec::new(), rank: Ghost(Seq::empty()), bound: Ghost(1nat) };
        assert(g@ =~= Seq::<CrateView>::empty());
        g
    }

    /// Number of crates.
    pub fn len(&self) -> (n: usize)
        ensures
            n == self@.len(),
    {
        self.arena.len()
    }

    /// Whether the graph has no crate.
    pub fn is_empty(&self) -> (b: bool)
        ensures
            b == (self@.len() == 0),
    {
        self.arena.len() == 0
    }

    /// Adds a crate without edges and returns its index, which is the number
    /// of crates added before it.
    pub fn add_crate_root(&mut self, file_id: FileId, edition: Edition) -> (id: CrateId)
        requires
            old(self).wf(),
            old(self)@.len() < u32::MAX,
        ensures
            final(self).wf(),
            final(self)@ == with_root(old(self)@, file_id, edition),
            id.0 == old(self)@.len(),
    {
        let id = CrateId(self.arena.len() as u32);
        let ghost g0 = self@;
        self.arena.push(CrateData { file_id, edition, dependencies: Vec::new() });
        proof {
            self.rank@ = self.rank@.push(0nat);
            self.bound@ = self.bound@ + 1;
            let g1 = with_root(g0, file_id, edition);
            assert(self.arena@[self.arena@.len() - 1]@.deps =~= Seq::<DepView>::empty());
            assert(self@ =~= g1);
            assert forall|u: int, i: int|
                0 <= u < g1.len() && 0 <= i < g1[u].deps.len() implies 0 <= (#[trigger] g1[u].deps[i]).to
                < g1.len() && self.rank@[u] > self.rank@[g1[u].deps[i].to] by {
                assert(g1[u].deps[i] == g0[u].deps[i]);
            }
        }
        id
    }

    /// Root file of a crate.
    pub fn crate_root(&self, crate_id: CrateId) -> (file: FileId)
        requires
            (crate_id.0 as int) < self@.len(),
        ensures
            file == self@[crate_id.0 as int].file,
    {
        self.arena[crate_id.0 as usize].file_id
    }

    /// Edition of a crate.
    pub fn edition(&self, crate_id: CrateId) -> (edition: Edition)
        requires
            (crate_id.0 as int) < self@.len(),
        ensures
            edition == self@[crate_id.0 as int].edition,
    {
        self.arena[crate_id.0 as usize].edition
    }

    /// The edges out of a crate, in the order in which they were added.
    pub fn dependencies(&self, crate_id: CrateId) -> (deps: &Vec<Dependency>)
        requires
            (crate_id.0 as int) < self@.len(),
        ensures
            deps@.map_values(|d: Dependency| d@) == self@[crate_id.0 as int].deps,
    {
        &self.arena[crate_id.0 as usize].dependencies
    }

    /// Searches the crates that can be reached from `from` for `target`,
    /// marking in `visited` every crate it enters.
    fn dfs_find(&self, target: CrateId, from: CrateId, visited: &mut Vec<bool>) -> (found: bool)
        requires
            self.wf(),
            (target.0 as int) < self@.len(),
            (from.0 as int) < self@.len(),
            old(visited)@.len() == self@.len(),
            from != target,
            !old(visited)@[target.0 as int],
        ensures
            final(visited)@.len() == self@.len(),
            forall|x: int| 0 <= x < self@.len() && old(visited)@[x] ==> final(visited)@[x],
            !final(visited)@[target.0 as int],
            final(visited)@[from.0 as int],
            found ==> reachable(self@, from.0 as int, target.0 as int),
            !found ==> forall|x: int|
                0 <= x < self@.len() && final(visited)@[x] && !old(visited)@[x] ==> closed_at(
                    self@,
                    final(visited)@,
                    x,
                ),
        decreases count_false(old(visited)@),
    {
        let ghost g = self@;
        let ghost vis0 = visited@;
        if visited[from.0 as usize] {
            return false;
        }
        visited.set(from.0 as usize, true);
        proof {
            lemma_count_false_update(vis0, from.0 as int);
        }
        let deps = &self.arena[from.0 as usize].dependencies;
        assert(deps@.map_values(|d: Dependency| d@) == g[from.0 as int].deps);
        let mut i: usize = 0;
        while i < deps.len()
            invariant
                self.wf(),
                g == self@,
                vis0 == old(visited)@,
                (target.0 as int) < g.len(),
                (from.0 as int) < g.len(),
                from != target,
                deps@.map_values(|d: Dependency| d@) == g[from.0 as int].deps,
                0 <= i <= deps.len(),
                vis0.len() == g.len(),
                visited@.len() == g.len(),
                forall|x: int| 0 <= x < g.len() && vis0[x] ==> visited@[x],
                visited@[from.0 as int],
                !vis0[from.0 as int],
                !visited@[target.0 as int],
                count_false(visited@) < count_false(vis0),
                forall|x: int|
                    0 <= x < g.len() && visited@[x] && !vis0[x] && x != from.0 ==> closed_at(
                        g,
                        visited@,
                        x,
                    ),
                forall|j: int| 0 <= j < i ==> visited@[(#[trigger] g[from.0 as int].deps[j]).to],
            decreases deps.len() - i,
        {
            let d = deps[i].crate_id;
            assert(g[from.0 as int].deps[i as int] == deps@[i as int]@);
            assert(has_edge(g, from.0 as int, d.0 as int));
            if d == target {
                proof {
                    let p = seq![from.0 as int, target.0 as int];
                    assert(is_path(g, p));
                }
                return true;
            }
            let ghost before = visited@;
            if self.dfs_find(target, d, visited) {
                proof {
                    let p = choose|p: Seq<int>| #[trigger]
                        is_path(g, p) && p.len() >= 2 && p[0] == d.0 && p[p.len() - 1] == target.0;
                    lemma_path_extend(g, from.0 as int, p);
                    let q = seq![from.0 as int] + p;
                    assert(is_path(g, q) && q.len() >= 2 && q[0] == from.0 && q[q.len() - 1]
                        == target.0);
                }
                return true;
            }
            proof {
                lemma_count_false_mono(before, visited@);
                assert forall|x: int|
                    0 <= x < g.len() && visited@[x] && !vis0[x] && x != from.0 implies closed_at(
                    g,
                    visited@,
                    x,
                ) by {
                    if before[x] {
                        assert(closed_at(g, before, x));
                    }
                }
            }
            i += 1;
        }
        proof {
            assert(closed_at(g, visited@, from.0 as int));
        }
        false
    }

    /// Adds the edge `from -> to` under the alias `name`, unless it would
    /// close a cycle: then the graph stays as it is and the error is returned.
    pub fn add_dep(&mut self, from: CrateId, name: String, to: CrateId) -> (res: Result<
        (),
        CyclicDependencies,
    >)
        requires
            old(self).wf(),
            (from.0 as int) < old(self)@.len(),
            (to.0 as int) < old(self)@.len(),
        ensures
            final(self).wf(),
            final(self)@ == add_dep_spec(old(self)@, from.0 as int, name@, to.0 as int),
            res is Err <==> (from == to || reachable(old(self)@, to.0 as int, from.0 as int)),
    {
        let ghost g = self@;
        if from == to {
            return Err(CyclicDependencies);
        }
        let n = self.arena.len();
        let mut visited: Vec<bool> = Vec::new();
        while visited.len() < n
            invariant
                visited@.len() <= n,
                forall|x: int| 0 <= x < visited@.len() ==> !visited@[x],
            decreases n - visited@.len(),
        {
            visited.push(false);
        }
        if self.dfs_find(from, to, &mut visited) {
            return Err(CyclicDependencies);
        }
        proof {
            if reachable(g, to.0 as int, from.0 as int) {
                let p = choose|p: Seq<int>| #[trigger]
                    is_path(g, p) && p.len() >= 2 && p[0] == to.0 && p[p.len() - 1] == from.0;
                lemma_path_stays_closed(g, visited@, p, p.len() - 1);
            }
        }
        let ghost name_view = name@;
        self.arena[from.0 as usize].dependencies.push(Dependency { crate_id: to, name });
        proof {
            let vis = visited@;
            let r0 = self.rank@;
            let b0 = self.bound@;
            self.rank@ = Seq::new(r0.len(), |x: int| if vis[x] { r0[x] } else { r0[x] + b0 });
            self.bound@ = b0 + b0;
            let g1 = with_dep(g, from.0 as int, name_view, to.0 as int);
            assert(self.arena@[from.0 as int]@.deps =~= g[from.0 as int].deps.push(
                DepView { name: name_view, to: to.0 as int },
            ));
            assert(self@ =~= g1);
            assert forall|u: int, i: int|
                0 <= u < g1.len() && 0 <= i < g1[u].deps.len() implies 0 <= (#[trigger] g1[u].deps[i]).to
                < g1.len() && self.rank@[u] > self.rank@[g1[u].deps[i].to] by {
                if u == from.0 && i == g[u].deps.len() {
                } else {
                    assert(g1[u].deps[i] == g[u].deps[i]);
                    if vis[u] {
                        assert(closed_at(g, vis, u));
                    }
                }
            }
        }
        Ok(())
    }

    /// Adds the edge `from -> to` as [`CrateGraph::add_dep`] does, and
    /// notes it in `refused` if it is refused.
    pub fn add_dep_or_note(&mut self, from: CrateId, name: String, to: CrateId, refused: &mut Vec<RefusedDep>)
        requires
            old(self).wf(),
            (from.0 as int) < old(self)@.len(),
            (to.0 as int) < old(self)@.len(),
        ensures
            final(self).wf(),
            final(self)@ == add_dep_spec(old(self)@, from.0 as int, name@, to.0 as int),
            refused_view(final(refused)@) == refused_view(old(refused)@) + refusal_of(
                old(self)@,
                DepRequest { from: from.0 as int, name: name@, to: to.0 as int },
            ),
    {
        let ghost before = refused_view(refused@);
        let copy = name.clone();
        match self.add_dep(from, name, to) {
            Ok(_) => {
                assert(refused_view(refused@) =~= before + Seq::<DepRequest>::empty());
            },
            Err(_) => {
                let note = RefusedDep { from, name: copy, to };
                refused.push(note);
                assert(refused_view(refused@) =~= before + seq![note@]);
            },
        }
    }
}

} // verus!
