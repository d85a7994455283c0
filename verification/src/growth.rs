//! What the builder makes of a source root, step by step, as a
//! mathematical function of the declarations and of the order of the files.
//!
//! The functions of this file are the builder written down without
//! machinery: the same visits in the same order, on plain values. The
//! builder is proved to arrive at exactly what they give, so they fix the
//! tree down to the numbers of its modules and links.
use vstd::prelude::*;
use crate::base::FileId;
use crate::database::DescriptorDatabase;
use crate::module_tree::problem_view;
use crate::module_tree::LinkData;
use crate::module_tree::ModuleData;
use crate::module_tree::ModuleId;
use crate::module_tree::ModuleSource;
use crate::module_tree::ModuleTree;
use crate::module_tree::ProblemView;
use crate::resolve::candidates;
use crate::resolve::problem_of;
use crate::resolve::FileResolver;

verus! {

/// The declarations of all files: for each file the names it declares, and
/// for each of its declarations the files that the declaration is resolved
/// to and its problem.
pub struct Decls {
    pub names: spec_fn(FileId) -> Seq<Seq<char>>,
    pub targets: spec_fn(FileId, int) -> Seq<FileId>,
    pub problems: spec_fn(FileId, int) -> Option<ProblemView>,
}

/// The declarations as a host and a resolver give them.
pub open spec fn decls_of<D: DescriptorDatabase, R: FileResolver>(db: &D, resolver: &R) -> Decls {
    Decls {
        names: |file: FileId| db.spec_submodules(file),
        targets: |file: FileId, i: int| candidates(resolver, file, db.spec_submodules(file)[i]),
        problems: |file: FileId, i: int| problem_of(resolver, file, db.spec_submodules(file)[i]),
    }
}

/// Mathematical model of a module: links by their numbers.
pub struct ModuleView {
    pub source: ModuleSource,
    pub parent: Option<int>,
    pub children: Seq<int>,
}

/// Mathematical model of a link: modules by their numbers.
pub struct LinkView {
    pub owner: int,
    pub name: Seq<char>,
    pub points_to: Seq<int>,
    pub problem: Option<ProblemView>,
}

/// Mathematical model of a tree: its two arrays.
pub struct TreeView {
    pub mods: Seq<ModuleView>,
    pub links: Seq<LinkView>,
}

/// The builder's state as plain values: the two arrays, the orphans by the
/// key of their file, and the keys of the files that have a module.
pub struct Growth {
    pub mods: Seq<ModuleView>,
    pub links: Seq<LinkView>,
    pub roots: Map<usize, ModuleId>,
    pub visited: Set<usize>,
}

/// The key under which a file is kept in the sets and maps of the builder.
pub open spec fn key_of(file: FileId) -> usize {
    file.0 as usize
}

/// The number of an optional link.
pub open spec fn parent_view(parent: Option<crate::module_tree::LinkId>) -> Option<int> {
    match parent {
        Some(l) => Some(l.0 as int),
        None => None,
    }
}

/// The numbers of some links.
pub open spec fn link_ids(links: Seq<crate::module_tree::LinkId>) -> Seq<int> {
    links.map_values(|l: crate::module_tree::LinkId| l.0 as int)
}

/// The numbers of some modules.
pub open spec fn module_ids(mods: Seq<ModuleId>) -> Seq<int> {
    mods.map_values(|m: ModuleId| m.0 as int)
}

/// The model of a module.
pub open spec fn module_view(m: ModuleData) -> ModuleView {
    ModuleView { source: m.source, parent: parent_view(m.parent), children: link_ids(m.children@) }
}

/// The model of a link.
pub open spec fn link_view(l: LinkData) -> LinkView {
    LinkView {
        owner: l.owner.0 as int,
        name: l.name@,
        points_to: module_ids(l.points_to@),
        problem: problem_view(l.problem),
    }
}

/// The models of the modules of a tree.
pub open spec fn modules_view(mods: Seq<ModuleData>) -> Seq<ModuleView> {
    mods.map_values(|m: ModuleData| module_view(m))
}

/// The models of the links of a tree.
pub open spec fn links_view(links: Seq<LinkData>) -> Seq<LinkView> {
    links.map_values(|l: LinkData| link_view(l))
}

impl ModuleTree {
    /// The two arrays as mathematical values.
    pub open spec fn view(&self) -> TreeView {
        TreeView { mods: modules_view(self.mods@), links: links_view(self.links@) }
    }
}

/// The state before anything is built.
pub open spec fn nothing() -> Growth {
    Growth { mods: Seq::empty(), links: Seq::empty(), roots: Map::empty(), visited: Set::empty() }
}

/// `s` with a new module for `file` under `parent`, without children.
pub open spec fn begun(s: Growth, parent: Option<int>, file: FileId) -> Growth {
    Growth {
        mods: s.mods.push(ModuleView { source: ModuleSource::File(file), parent, children: Seq::empty() }),
        links: s.links,
        roots: s.roots,
        visited: s.visited.insert(key_of(file)),
    }
}

/// `s` with a new link called `name`, owned by module `id` and entered
/// last among its children; the link points nowhere yet.
pub open spec fn linked(s: Growth, id: int, name: Seq<char>) -> Growth {
    Growth {
        mods: s.mods.update(
            id,
            ModuleView {
                source: s.mods[id].source,
                parent: s.mods[id].parent,
                children: s.mods[id].children.push(s.links.len() as int),
            },
        ),
        links: s.links.push(LinkView { owner: id, name, points_to: Seq::empty(), problem: None }),
        roots: s.roots,
        visited: s.visited,
    }
}

/// `s` with the orphan kept under `key` adopted by link `l`: the orphan
/// gets `l` as parent and leaves the orphans.
pub open spec fn adopted(s: Growth, key: usize, l: int) -> Growth {
    let r = s.roots[key].0 as int;
    Growth {
        mods: s.mods.update(
            r,
            ModuleView { source: s.mods[r].source, parent: Some(l), children: s.mods[r].children },
        ),
        links: s.links,
        roots: s.roots.remove(key),
        visited: s.visited,
    }
}

/// `s` with link `l` pointing to `points_to` and carrying `problem`.
pub open spec fn pointed(s: Growth, l: int, points_to: Seq<int>, problem: Option<ProblemView>) -> Growth {
    Growth {
        mods: s.mods,
        links: s.links.update(
            l,
            LinkView { owner: s.links[l].owner, name: s.links[l].name, points_to, problem },
        ),
        roots: s.roots,
        visited: s.visited,
    }
}

/// `s` with module `id` kept as the orphan of `file`.
pub open spec fn orphaned(s: Growth, file: FileId, id: ModuleId) -> Growth {
    Growth { mods: s.mods, links: s.links, roots: s.roots.insert(key_of(file), id), visited: s.visited }
}

/// `rank` falls along every declaration: a file of rank above zero leads
/// only to files of smaller rank above zero.
pub open spec fn falls(d: Decls, rank: spec_fn(FileId) -> nat) -> bool {
    forall|file: FileId, i: int, j: int|
        rank(file) > 0 && 0 <= i < (d.names)(file).len() && 0 <= j < (d.targets)(file, i).len() ==> 0 < rank(
            #[trigger] (d.targets)(file, i)[j],
        ) < rank(file)
}

/// `rank` falls along every declaration that is reached from `files`.
pub open spec fn ranks(d: Decls, files: Seq<FileId>, rank: spec_fn(FileId) -> nat) -> bool {
    falls(d, rank) && forall|k: int| 0 <= k < files.len() ==> rank(#[trigger] files[k]) > 0
}

/// What building the subtree of `file` under `parent` makes of `s`: a new
/// module, then its declarations one by one.
pub open spec fn subtree(d: Decls, rank: spec_fn(FileId) -> nat, s: Growth, parent: Option<int>, file: FileId) -> Growth
    decreases rank(file), 2nat, 0nat,
{
    declarations(d, rank, begun(s, parent, file), s.mods.len() as int, file, 0)
}

/// What the declarations of `file` from the one at `i` on make of `s`,
/// where `id` is the module of `file`: for each a new link, then its
/// targets one by one, then the link pointing to what the targets gave.
pub open spec fn declarations(
    d: Decls,
    rank: spec_fn(FileId) -> nat,
    s: Growth,
    id: int,
    file: FileId,
    i: int,
) -> Growth
    decreases rank(file), 1nat, (d.names)(file).len() - i,
{
    if i < 0 || i >= (d.names)(file).len() {
        s
    } else {
        let l = s.links.len() as int;
        let done = targets(d, rank, linked(s, id, (d.names)(file)[i]), file, i, l, 0, Seq::empty());
        declarations(d, rank, pointed(done.0, l, done.1, (d.problems)(file, i)), id, file, i + 1)
    }
}

/// What the targets of declaration `i` of `file` from the one at `j` on
/// make of `s`, where `l` is the link of the declaration and `found` holds
/// the modules of the targets before `j`: an orphan is adopted, any other
/// file gets a new subtree.
pub open spec fn targets(
    d: Decls,
    rank: spec_fn(FileId) -> nat,
    s: Growth,
    file: FileId,
    i: int,
    l: int,
    j: int,
    found: Seq<int>,
) -> (Growth, Seq<int>)
    decreases rank(file), 0nat, (d.targets)(file, i).len() - j,
{
    if j < 0 || j >= (d.targets)(file, i).len() {
        (s, found)
    } else {
        let target = (d.targets)(file, i)[j];
        if s.roots.contains_key(key_of(target)) {
            targets(
                d,
                rank,
                adopted(s, key_of(target), l),
                file,
                i,
                l,
                j + 1,
                found.push(s.roots[key_of(target)].0 as int),
            )
        } else if rank(target) < rank(file) {
            targets(
                d,
                rank,
                subtree(d, rank, s, Some(l), target),
                file,
                i,
                l,
                j + 1,
                found.push(s.mods.len() as int),
            )
        } else {
            (s, found)
        }
    }
}

/// What visiting `files` from the one at `k` on makes of `s`: a file that
/// has no module yet gets a subtree, whose root is kept as an orphan.
pub open spec fn visits(d: Decls, rank: spec_fn(FileId) -> nat, s: Growth, files: Seq<FileId>, k: int) -> Growth
    decreases files.len() - k,
{
    if k < 0 || k >= files.len() {
        s
    } else if s.visited.contains(key_of(files[k])) {
        visits(d, rank, s, files, k + 1)
    } else {
        visits(
            d,
            rank,
            orphaned(subtree(d, rank, s, None, files[k]), files[k], ModuleId(s.mods.len() as usize)),
            files,
            k + 1,
        )
    }
}

/// Some ranking of the declarations that are reached from `files`.
pub open spec fn some_ranking(d: Decls, files: Seq<FileId>) -> spec_fn(FileId) -> nat {
    choose|rank: spec_fn(FileId) -> nat| ranks(d, files, rank)
}

/// The module tree of a source root with the files `files`, fixed down to
/// the numbers of its modules and links.
pub open spec fn module_tree_of(d: Decls, files: Seq<FileId>) -> TreeView {
    let end = visits(d, some_ranking(d, files), nothing(), files, 0);
    TreeView { mods: end.mods, links: end.links }
}

/// The subtree of a file does not depend on the ranking.
pub(crate) proof fn lemma_subtree_any_rank(
    d: Decls,
    r1: spec_fn(FileId) -> nat,
    r2: spec_fn(FileId) -> nat,
    s: Growth,
    parent: Option<int>,
    file: FileId,
)
    requires
        falls(d, r1),
        falls(d, r2),
        r1(file) > 0,
        r2(file) > 0,
    ensures
        subtree(d, r1, s, parent, file) == subtree(d, r2, s, parent, file),
    decreases r1(file), 2nat, 0nat,
{
    lemma_declarations_any_rank(d, r1, r2, begun(s, parent, file), s.mods.len() as int, file, 0);
}

proof fn lemma_declarations_any_rank(
    d: Decls,
    r1: spec_fn(FileId) -> nat,
    r2: spec_fn(FileId) -> nat,
    s: Growth,
    id: int,
    file: FileId,
    i: int,
)
    requires
        falls(d, r1),
        falls(d, r2),
        r1(file) > 0,
        r2(file) > 0,
    ensures
        declarations(d, r1, s, id, file, i) == declarations(d, r2, s, id, file, i),
    decreases r1(file), 1nat, (d.names)(file).len() - i,
{
    if !(i < 0 || i >= (d.names)(file).len()) {
        let l = s.links.len() as int;
        let start = linked(s, id, (d.names)(file)[i]);
        lemma_targets_any_rank(d, r1, r2, start, file, i, l, 0, Seq::empty());
        let done = targets(d, r1, start, file, i, l, 0, Seq::empty());
        lemma_declarations_any_rank(
            d,
            r1,
            r2,
            pointed(done.0, l, done.1, (d.problems)(file, i)),
            id,
            file,
            i + 1,
        );
    }
}

proof fn lemma_targets_any_rank(
    d: Decls,
    r1: spec_fn(FileId) -> nat,
    r2: spec_fn(FileId) -> nat,
    s: Growth,
    file: FileId,
    i: int,
    l: int,
    j: int,
    found: Seq<int>,
)
    requires
        falls(d, r1),
        falls(d, r2),
        r1(file) > 0,
        r2(file) > 0,
        0 <= i < (d.names)(file).len(),
    ensures
        targets(d, r1, s, file, i, l, j, found) == targets(d, r2, s, file, i, l, j, found),
    decreases r1(file), 0nat, (d.targets)(file, i).len() - j,
{
    if !(j < 0 || j >= (d.targets)(file, i).len()) {
        let target = (d.targets)(file, i)[j];
        assert(0 < r1(target) < r1(file));
        assert(0 < r2(target) < r2(file));
        if s.roots.contains_key(key_of(target)) {
            lemma_targets_any_rank(
                d,
                r1,
                r2,
                adopted(s, key_of(target), l),
                file,
                i,
                l,
                j + 1,
                found.push(s.roots[key_of(target)].0 as int),
            );
        } else {
            lemma_subtree_any_rank(d, r1, r2, s, Some(l), target);
            lemma_targets_any_rank(
                d,
                r1,
                r2,
                subtree(d, r1, s, Some(l), target),
                file,
                i,
                l,
                j + 1,
                found.push(s.mods.len() as int),
            );
        }
    }
}

/// The visits of the files do not depend on the ranking.
pub(crate) proof fn lemma_visits_any_rank(
    d: Decls,
    r1: spec_fn(FileId) -> nat,
    r2: spec_fn(FileId) -> nat,
    s: Growth,
    files: Seq<FileId>,
    k: int,
)
    requires
        ranks(d, files, r1),
        ranks(d, files, r2),
    ensures
        visits(d, r1, s, files, k) == visits(d, r2, s, files, k),
    decreases files.len() - k,
{
    if !(k < 0 || k >= files.len()) {
        if s.visited.contains(key_of(files[k])) {
            lemma_visits_any_rank(d, r1, r2, s, files, k + 1);
        } else {
            lemma_subtree_any_rank(d, r1, r2, s, None, files[k]);
            lemma_visits_any_rank(
                d,
                r1,
                r2,
                orphaned(subtree(d, r1, s, None, files[k]), files[k], ModuleId(s.mods.len() as usize)),
                files,
                k + 1,
            );
        }
    }
}

/// Two source roots with the same files in the same order, whose hosts
/// and resolvers give the same declarations, have the same module tree,
/// number by number.
pub proof fn lemma_same_answers_same_tree<D1: DescriptorDatabase, R1: FileResolver, D2: DescriptorDatabase, R2: FileResolver>(
    db1: &D1,
    resolver1: &R1,
    db2: &D2,
    resolver2: &R2,
    files: Seq<FileId>,
)
    requires
        forall|file: FileId| db1.spec_submodules(file) == db2.spec_submodules(file),
        forall|file: FileId, name: Seq<char>|
            candidates(resolver1, file, name) == candidates(resolver2, file, name) && problem_of(
                resolver1,
                file,
                name,
            ) == problem_of(resolver2, file, name),
    ensures
        module_tree_of(decls_of(db1, resolver1), files) == module_tree_of(decls_of(db2, resolver2), files),
{
    let d1 = decls_of(db1, resolver1);
    let d2 = decls_of(db2, resolver2);
    assert(d1.names =~= d2.names);
    assert(d1.targets =~= d2.targets);
    assert(d1.problems =~= d2.problems);
}

} // verus!
