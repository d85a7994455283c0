//! Building the module tree of a source root.
//!
//! The files of the root are visited in order. A file that has no module
//! yet becomes the root of a subtree: its declarations are resolved, and
//! each file they lead to is built in turn as a child. A file that was
//! visited before its parent is first the root of a subtree of its own, an
//! orphan; when the parent's declaration is met later, the orphan is adopted
//! under it and keeps its module.
use vstd::prelude::*;
use rustc_hash::FxHashMap;
use rustc_hash::FxHashSet;
use std::sync::Arc;
use crate::base::FileId;
use crate::base::SourceRootId;
use crate::collections::fx_map_insert;
use crate::collections::fx_map_new;
use crate::collections::fx_map_remove;
use crate::collections::fx_set_contains;
use crate::collections::fx_set_insert;
use crate::collections::fx_set_new;
use crate::database::Canceled;
use crate::growth::adopted;
use crate::growth::begun;
use crate::growth::declarations;
use crate::growth::decls_of;
use crate::growth::falls;
use crate::growth::lemma_visits_any_rank;
use crate::growth::link_ids;
use crate::growth::linked;
use crate::growth::links_view;
use crate::growth::module_ids;
use crate::growth::module_tree_of;
use crate::growth::modules_view;
use crate::growth::nothing;
use crate::growth::orphaned;
use crate::growth::parent_view;
use crate::growth::pointed;
use crate::growth::ranks;
use crate::growth::some_ranking;
use crate::growth::subtree;
use crate::growth::targets;
use crate::growth::visits;
use crate::growth::Growth;
use crate::database::DescriptorDatabase;
use crate::module_tree::children_ok;
use crate::module_tree::link_ok;
use crate::module_tree::links_to_ok;
use crate::module_tree::parent_ok;
use crate::module_tree::points_at;
use crate::module_tree::problem_view;
use crate::module_tree::LinkData;
use crate::module_tree::LinkId;
use crate::module_tree::ModuleData;
use crate::module_tree::ModuleId;
use crate::module_tree::ModuleSource;
use crate::module_tree::ModuleTree;
use crate::paths::strings_view;
use crate::resolve::candidates;
use crate::resolve::problem_of;
use crate::resolve::resolve_submodule;
use crate::resolve::FileResolver;
use crate::resolve::SourceRoot;

verus! {

/// The key under which a file is kept in the sets and maps of the builder.
pub open spec fn file_key(file: FileId) -> usize {
    file.0 as usize
}

/// Link `l` is what the declaration `mod name;` in `file` asks for: it has
/// that name, the problem of that declaration, and it points to modules of
/// the files that the declaration is resolved to, in order.
pub open spec fn child_described<R: FileResolver>(
    mods: Seq<ModuleData>,
    links: Seq<LinkData>,
    resolver: &R,
    file: FileId,
    l: int,
    name: Seq<char>,
) -> bool {
    &&& links[l].name@ == name
    &&& problem_view(links[l].problem) == problem_of(resolver, file, name)
    &&& links[l].points_to@.len() == candidates(resolver, file, name).len()
    &&& forall|j: int|
        0 <= j < links[l].points_to@.len() ==> (#[trigger] links[l].points_to@[j]).0 < mods.len()
            && mods[links[l].points_to@[j].0 as int].source == ModuleSource::File(
            candidates(resolver, file, name)[j],
        )
}

/// The first `n` children of module `m` are what the first `n`
/// declarations of `file` ask for.
pub open spec fn children_described<R: FileResolver>(
    mods: Seq<ModuleData>,
    links: Seq<LinkData>,
    resolver: &R,
    m: int,
    file: FileId,
    names: Seq<Seq<char>>,
    n: int,
) -> bool {
    forall|i: int|
        0 <= i < n ==> child_described(
            mods,
            links,
            resolver,
            file,
            (#[trigger] mods[m].children@[i]).0 as int,
            names[i],
        )
}

/// Module `m` stands for a file and has one child for each declaration of
/// that file, in source order, each as the declaration asks.
pub open spec fn module_described<D: DescriptorDatabase, R: FileResolver>(
    mods: Seq<ModuleData>,
    links: Seq<LinkData>,
    db: &D,
    resolver: &R,
    m: int,
) -> bool {
    match mods[m].source {
        ModuleSource::File(file) => {
            let names = db.spec_submodules(file);
            &&& mods[m].children@.len() == names.len()
            &&& children_described(mods, links, resolver, m, file, names, names.len() as int)
        },
        ModuleSource::Inline(_) => false,
    }
}

/// Every module of the tree is as its file's declarations ask.
pub open spec fn describes<D: DescriptorDatabase, R: FileResolver>(tree: &ModuleTree, db: &D, resolver: &R) -> bool {
    forall|m: int|
        0 <= m < tree.mods@.len() ==> #[trigger] module_described(tree.mods@, tree.links@, db, resolver, m)
}

/// Every module without parent stands for one of `files`.
pub open spec fn rooted(tree: &ModuleTree, files: Seq<FileId>) -> bool {
    forall|m: int|
        0 <= m < tree.mods@.len() && (#[trigger] tree.mods@[m]).parent is None ==> exists|k: int|
            0 <= k < files.len() && tree.mods@[m].source == ModuleSource::File(#[trigger] files[k])
}

/// `rank` falls along every declaration: a file that is reached at all has
/// a rank above zero, and every file that one of its declarations leads to
/// has a smaller rank above zero.
pub open spec fn ranked<D: DescriptorDatabase, R: FileResolver>(
    db: &D,
    resolver: &R,
    rank: spec_fn(FileId) -> nat,
) -> bool {
    forall|file: FileId, i: int, j: int|
        rank(file) > 0 && 0 <= i < db.spec_submodules(file).len() && 0 <= j < candidates(
            resolver,
            file,
            db.spec_submodules(file)[i],
        ).len() ==> 0 < rank(#[trigger] candidates(resolver, file, db.spec_submodules(file)[i])[j]) < rank(
            file,
        )
}

/// No file of `files` is, through the declarations that are reached from
/// it, a submodule of itself.
pub open spec fn no_declaration_cycle<D: DescriptorDatabase, R: FileResolver>(
    db: &D,
    resolver: &R,
    files: Seq<FileId>,
) -> bool {
    exists|rank: spec_fn(FileId) -> nat|
        #[trigger] ranked(db, resolver, rank) && forall|k: int| 0 <= k < files.len() ==> rank(#[trigger] files[k]) > 0
}

/// Declaration `i` of `file` exists and is resolved to at least `j + 1`
/// files.
pub open spec fn is_target<D: DescriptorDatabase, R: FileResolver>(
    db: &D,
    resolver: &R,
    file: FileId,
    i: int,
    j: int,
) -> bool {
    0 <= i < db.spec_submodules(file).len() && 0 <= j < candidates(resolver, file, db.spec_submodules(file)[i]).len()
}

/// The file at position `j` among those that declaration `i` of `file` is
/// resolved to.
pub open spec fn target<D: DescriptorDatabase, R: FileResolver>(
    db: &D,
    resolver: &R,
    file: FileId,
    i: int,
    j: int,
) -> FileId {
    candidates(resolver, file, db.spec_submodules(file)[i])[j]
}

/// No file is declared twice: among the files with a rank above zero, two
/// declarations that are resolved to the same file are one declaration,
/// resolved to it once.
pub open spec fn unique_targets<D: DescriptorDatabase, R: FileResolver>(
    db: &D,
    resolver: &R,
    rank: spec_fn(FileId) -> nat,
) -> bool {
    forall|f1: FileId, i1: int, j1: int, f2: FileId, i2: int, j2: int|
        rank(f1) > 0 && rank(f2) > 0 && is_target(db, resolver, f1, i1, j1) && is_target(db, resolver, f2, i2, j2)
            && #[trigger] target(db, resolver, f1, i1, j1) == #[trigger] target(db, resolver, f2, i2, j2) ==> f1
            == f2 && i1 == i2 && j1 == j2
}

/// The declarations that are reached from `files` form a forest: none
/// leads back to its own file, and no file is declared twice.
pub open spec fn unique_declarations<D: DescriptorDatabase, R: FileResolver>(
    db: &D,
    resolver: &R,
    files: Seq<FileId>,
) -> bool {
    exists|rank: spec_fn(FileId) -> nat|
        #[trigger] ranked(db, resolver, rank) && unique_targets(db, resolver, rank) && forall|k: int|
            0 <= k < files.len() ==> rank(#[trigger] files[k]) > 0
}

/// What the builder holds at a moment: the two arrays, the numbering of the
/// completed modules, the orphans, and the files that have a module.
pub struct Building {
    pub mods: Seq<ModuleData>,
    pub links: Seq<LinkData>,
    pub fin: Map<int, nat>,
    pub clock: nat,
    pub roots: Map<usize, ModuleId>,
    pub visited: Set<usize>,
}

spec fn state_of(tree: ModuleTree, visited: FxHashSet<usize>, roots: FxHashMap<usize, ModuleId>) -> Building {
    Building {
        mods: tree.mods@,
        links: tree.links@,
        fin: tree.finish@,
        clock: tree.clock@,
        roots: roots@,
        visited: visited@,
    }
}

/// The key of the file of module `m`.
spec fn module_key(mods: Seq<ModuleData>, m: int) -> Option<usize> {
    match mods[m].source {
        ModuleSource::File(file) => Some(file_key(file)),
        ModuleSource::Inline(_) => None,
    }
}

/// A completed module: its children are sound links and as its file asks.
spec fn module_closed<D: DescriptorDatabase, R: FileResolver>(s: Building, db: &D, resolver: &R, m: int) -> bool {
    &&& children_ok(s.mods, s.links, m)
    &&& forall|i: int|
        0 <= i < s.mods[m].children@.len() ==> links_to_ok(
            s.mods,
            s.links,
            (#[trigger] s.mods[m].children@[i]).0 as int,
        )
    &&& module_described(s.mods, s.links, db, resolver, m)
}

/// The owner of link `l` exists and lists it.
spec fn link_listed(s: Building, l: int) -> bool {
    &&& s.links[l].owner.0 < s.mods.len()
    &&& exists|i: int|
        0 <= i < s.mods[s.links[l].owner.0 as int].children@.len() && (
        #[trigger] s.mods[s.links[l].owner.0 as int].children@[i]).0 == l
}

/// The parent of module `m` is a link; once the owner of that link is
/// completed, the link lists `m`, and the owner is numbered after `m`.
spec fn parent_known(s: Building, m: int) -> bool {
    s.mods[m].parent matches Some(l) ==> {
        &&& l.0 < s.links.len()
        &&& (s.fin.contains_key(s.links[l.0 as int].owner.0 as int) ==> points_at(s.links, l.0 as int, m)
            && s.fin.contains_key(m) && s.fin[s.links[l.0 as int].owner.0 as int] > s.fin[m])
    }
}

/// The orphan kept under key `k` is a completed module without parent that
/// stands for the file with that key.
spec fn orphan_ok(s: Building, k: usize) -> bool {
    &&& s.fin.contains_key(s.roots[k].0 as int)
    &&& s.mods[s.roots[k].0 as int].parent is None
    &&& module_key(s.mods, s.roots[k].0 as int) == Some(k)
}

/// Some module stands for the file with key `k`.
spec fn visited_ok(s: Building, k: usize) -> bool {
    exists|m: int| 0 <= m < s.mods.len() && #[trigger] module_key(s.mods, m) == Some(k)
}

/// What holds of the builder's state whenever a subtree is begun or done.
spec fn building_ok<D: DescriptorDatabase, R: FileResolver>(s: Building, db: &D, resolver: &R) -> bool {
    &&& forall|m: int| #[trigger]
        s.fin.contains_key(m) ==> 0 <= m < s.mods.len() && s.fin[m] < s.clock && module_closed(
            s,
            db,
            resolver,
            m,
        )
    &&& forall|l: int| 0 <= l < s.links.len() ==> #[trigger] link_listed(s, l)
    &&& forall|m: int| 0 <= m < s.mods.len() ==> #[trigger] parent_known(s, m)
    &&& forall|k: usize| #[trigger] s.roots.contains_key(k) ==> orphan_ok(s, k)
    &&& forall|k: usize| #[trigger] s.visited.contains(k) ==> visited_ok(s, k)
    &&& s.fin.dom().finite()
    &&& s.fin.dom().len() == s.clock
}

/// Module `m` of `s` is in `t` what it was, but for a parent that it may
/// have got, as a completed module, from a link at or after `bound`.
spec fn module_kept(s: Building, t: Building, m: int, bound: int) -> bool {
    &&& t.mods[m].source == s.mods[m].source
    &&& (t.mods[m].parent == s.mods[m].parent || (s.mods[m].parent is None && t.fin.contains_key(m) && (
    t.mods[m].parent matches Some(l) && l.0 >= bound)))
    &&& t.fin.contains_key(m) == s.fin.contains_key(m)
    &&& (s.fin.contains_key(m) ==> t.fin[m] == s.fin[m])
}

/// Module `m` is new in `t`: completed, with a parent at or after `bound`.
spec fn module_fresh(t: Building, m: int, bound: int) -> bool {
    &&& t.fin.contains_key(m)
    &&& t.mods[m].parent matches Some(l) && l.0 >= bound
}

/// `t` is `s` after some steps of the builder, none of which touched a link
/// before `bound` or the children of a module other than `open`.
spec fn step(s: Building, t: Building, open: int, bound: int) -> bool {
    &&& s.mods.len() <= t.mods.len()
    &&& s.links.len() <= t.links.len()
    &&& bound <= s.links.len()
    &&& forall|m: int| 0 <= m < s.mods.len() ==> #[trigger] module_kept(s, t, m, bound)
    &&& forall|m: int|
        0 <= m < s.mods.len() && m != open ==> (#[trigger] t.mods[m]).children == s.mods[m].children
    &&& forall|l: int| 0 <= l < bound ==> #[trigger] t.links[l] == s.links[l]
    &&& s.clock <= t.clock
    &&& forall|k: usize| #[trigger] t.roots.contains_key(k) ==> s.roots.contains_key(k) && t.roots[k] == s.roots[k]
    &&& forall|k: usize| s.visited.contains(k) ==> #[trigger] t.visited.contains(k)
    &&& forall|m: int| s.mods.len() <= m < t.mods.len() ==> #[trigger] module_fresh(t, m, bound)
}

/// `t` is `s` after a subtree was built: the first new module is the root of
/// the subtree, every later one has a parent among the new links.
spec fn extends(s: Building, t: Building) -> bool {
    &&& s.mods.len() < t.mods.len()
    &&& s.links.len() <= t.links.len()
    &&& forall|m: int| 0 <= m < s.mods.len() ==> #[trigger] module_kept(s, t, m, s.links.len() as int)
    &&& forall|m: int| 0 <= m < s.mods.len() ==> (#[trigger] t.mods[m]).children == s.mods[m].children
    &&& forall|l: int| 0 <= l < s.links.len() ==> #[trigger] t.links[l] == s.links[l]
    &&& s.clock <= t.clock
    &&& forall|k: usize| #[trigger] t.roots.contains_key(k) ==> s.roots.contains_key(k) && t.roots[k] == s.roots[k]
    &&& forall|k: usize| s.visited.contains(k) ==> #[trigger] t.visited.contains(k)
    &&& forall|m: int| s.mods.len() < m < t.mods.len() ==> #[trigger] module_fresh(t, m, s.links.len() as int)
    &&& t.fin.contains_key(s.mods.len() as int)
}

/// The first `n` children of the module `id` that is being built are
/// closed: sound, as the declarations ask, before `bound`, and every module
/// that names one of them as parent is listed by it.
spec fn partial<R: FileResolver>(
    s: Building,
    resolver: &R,
    id: int,
    file: FileId,
    names: Seq<Seq<char>>,
    n: int,
    bound: int,
) -> bool {
    &&& 0 <= id < s.mods.len()
    &&& n <= s.mods[id].children@.len()
    &&& bound <= s.links.len()
    &&& children_described(s.mods, s.links, resolver, id, file, names, n)
    &&& forall|i: int|
        0 <= i < n ==> (#[trigger] s.mods[id].children@[i]).0 < bound && s.links[s.mods[id].children@[i].0 as int].owner.0
            == id && links_to_ok(s.mods, s.links, s.mods[id].children@[i].0 as int)
    &&& forall|m: int, i: int|
        0 <= m < s.mods.len() && 0 <= i < n && (#[trigger] s.mods[m]).parent == Some(
            #[trigger] s.mods[id].children@[i],
        ) ==> points_at(s.links, s.mods[id].children@[i].0 as int, m)
    &&& forall|i1: int, i2: int|
        0 <= i1 < i2 < n ==> (#[trigger] s.mods[id].children@[i1]) != (#[trigger] s.mods[id].children@[i2])
}

/// One change of the builder's state while module `open` is being built
/// and `link` is its newest link: no other link before the end of `s` is
/// touched, no children but those of `open` change, and a module of `s`
/// keeps its source and, unless it had none, its parent.
spec fn mutated(s: Building, t: Building, open: int, link: int) -> bool {
    &&& s.mods.len() <= t.mods.len()
    &&& s.links.len() <= t.links.len()
    &&& 0 <= open
    &&& !s.fin.contains_key(open)
    &&& forall|m: int|
        0 <= m < s.mods.len() ==> (#[trigger] t.mods[m]).source == s.mods[m].source && (t.mods[m].parent
            == s.mods[m].parent || s.mods[m].parent is None)
    &&& forall|m: int| 0 <= m < s.mods.len() && m != open ==> (#[trigger] t.mods[m]).children == s.mods[m].children
    &&& forall|l: int| 0 <= l < s.links.len() && l != link ==> #[trigger] t.links[l] == s.links[l]
    &&& 0 <= link < s.links.len() ==> s.links[link].owner.0 == open && t.links[link].owner.0 == open
}

/// A completed module stays completed through one change.
proof fn lemma_closed_mutated<D: DescriptorDatabase, R: FileResolver>(
    s: Building,
    t: Building,
    db: &D,
    resolver: &R,
    open: int,
    link: int,
    m: int,
)
    requires
        mutated(s, t, open, link),
        0 <= m < s.mods.len(),
        m != open,
        module_closed(s, db, resolver, m),
    ensures
        module_closed(t, db, resolver, m),
{
    let kids = s.mods[m].children@;
    assert(t.mods[m].children == s.mods[m].children);
    assert forall|i: int| 0 <= i < kids.len() implies {
        let c = (#[trigger] t.mods[m].children@[i]).0 as int;
        &&& c < t.links.len()
        &&& t.links[c] == s.links[c]
        &&& t.links[c].owner.0 == m
        &&& links_to_ok(t.mods, t.links, c)
    } by {
        let c = kids[i].0 as int;
        assert(links_to_ok(s.mods, s.links, c));
        assert(s.links[c].owner.0 == m);
        assert(c != link);
        assert(t.links[c] == s.links[c]);
        assert forall|j: int| 0 <= j < t.links[c].points_to@.len() implies (#[trigger] t.links[c].points_to@[j]).0
            < t.mods.len() && t.mods[t.links[c].points_to@[j].0 as int].parent == Some(LinkId(c as usize)) by {
            let p = s.links[c].points_to@[j].0 as int;
            assert(s.mods[p].parent == Some(LinkId(c as usize)));
            assert(t.mods[p].source == s.mods[p].source);
        }
    }
    match s.mods[m].source {
        ModuleSource::File(file) => {
            let names = db.spec_submodules(file);
            assert forall|i: int| 0 <= i < names.len() implies child_described(
                t.mods,
                t.links,
                resolver,
                file,
                (#[trigger] t.mods[m].children@[i]).0 as int,
                names[i],
            ) by {
                let c = kids[i].0 as int;
                assert(child_described(s.mods, s.links, resolver, file, c, names[i]));
                assert(t.links[c] == s.links[c]);
                assert forall|j: int| 0 <= j < t.links[c].points_to@.len() implies (
                #[trigger] t.links[c].points_to@[j]).0 < t.mods.len() && t.mods[t.links[c].points_to@[j].0 as int].source
                    == ModuleSource::File(candidates(resolver, file, names[i])[j]) by {
                    let p = s.links[c].points_to@[j].0 as int;
                    assert(t.mods[p].source == s.mods[p].source);
                }
            }
        },
        ModuleSource::Inline(_) => {},
    }
}

/// The state stays sound through one change, if what the change itself
/// brings is sound: links are listed by their owners, parents are links,
/// orphans are still orphans, and every visited file still has a module.
proof fn lemma_ok_mutated<D: DescriptorDatabase, R: FileResolver>(
    s: Building,
    t: Building,
    db: &D,
    resolver: &R,
    open: int,
    link: int,
)
    requires
        building_ok(s, db, resolver),
        mutated(s, t, open, link),
        t.fin == s.fin,
        t.clock == s.clock,
        forall|l: int| 0 <= l < t.links.len() ==> #[trigger] link_listed(t, l),
        forall|m: int|
            0 <= m < t.mods.len() && (m >= s.mods.len() || t.mods[m].parent != s.mods[m].parent) ==> #[trigger] parent_known(
                t,
                m,
            ),
        forall|k: usize| #[trigger] t.roots.contains_key(k) ==> s.roots.contains_key(k) && t.roots[k] == s.roots[k] && t.mods[t.roots[k].0 as int].parent is None,
        forall|k: usize| #[trigger] t.visited.contains(k) ==> s.visited.contains(k) || visited_ok(t, k),
    ensures
        building_ok(t, db, resolver),
{
    assert forall|m: int| #[trigger] t.fin.contains_key(m) implies 0 <= m < t.mods.len() && t.fin[m] < t.clock
        && module_closed(t, db, resolver, m) by {
        lemma_closed_mutated(s, t, db, resolver, open, link, m);
    }
    assert forall|m: int| 0 <= m < t.mods.len() implies #[trigger] parent_known(t, m) by {
        if m < s.mods.len() && t.mods[m].parent == s.mods[m].parent {
            assert(parent_known(s, m));
            match s.mods[m].parent {
                Some(l) => {
                    let li = l.0 as int;
                    if li != link {
                        assert(t.links[li] == s.links[li]);
                        if s.fin.contains_key(s.links[li].owner.0 as int) {
                            let j = choose|j: int|
                                0 <= j < s.links[li].points_to@.len() && (#[trigger] s.links[li].points_to@[j]).0
                                    == m;
                            assert(t.links[li].points_to@[j].0 == m);
                        }
                    }
                },
                None => {},
            }
        }
    }
    assert forall|k: usize| #[trigger] t.roots.contains_key(k) implies orphan_ok(t, k) by {
        assert(orphan_ok(s, k));
    }
    assert forall|k: usize| #[trigger] t.visited.contains(k) implies visited_ok(t, k) by {
        if s.visited.contains(k) {
            assert(visited_ok(s, k));
            let m = choose|m: int| 0 <= m < s.mods.len() && #[trigger] module_key(s.mods, m) == Some(k);
            assert(t.mods[m].source == s.mods[m].source);
            assert(module_key(t.mods, m) == Some(k));
        }
    }
}

/// The closed children of the module being built stay closed through
/// steps that touch no link before `bound`.
proof fn lemma_partial_step<R: FileResolver>(
    s: Building,
    t: Building,
    resolver: &R,
    id: int,
    file: FileId,
    names: Seq<Seq<char>>,
    n: int,
    bound: int,
)
    requires
        partial(s, resolver, id, file, names, n, bound),
        step(s, t, id, bound),
        n <= t.mods[id].children@.len(),
        forall|i: int| 0 <= i < n ==> #[trigger] t.mods[id].children@[i] == s.mods[id].children@[i],
    ensures
        partial(t, resolver, id, file, names, n, bound),
{
    assert forall|i: int| 0 <= i < n implies {
        let c = (#[trigger] t.mods[id].children@[i]).0 as int;
        &&& c < bound
        &&& t.links[c].owner.0 == id
        &&& links_to_ok(t.mods, t.links, c)
        &&& child_described(t.mods, t.links, resolver, file, c, names[i])
    } by {
        let c = s.mods[id].children@[i].0 as int;
        assert(t.links[c] == s.links[c]);
        assert(links_to_ok(s.mods, s.links, c));
        assert(child_described(s.mods, s.links, resolver, file, c, names[i]));
        assert forall|j: int| 0 <= j < t.links[c].points_to@.len() implies (#[trigger] t.links[c].points_to@[j]).0
            < t.mods.len() && t.mods[t.links[c].points_to@[j].0 as int].parent == Some(LinkId(c as usize))
            && t.mods[t.links[c].points_to@[j].0 as int].source == ModuleSource::File(
            candidates(resolver, file, names[i])[j],
        ) by {
            let p = s.links[c].points_to@[j].0 as int;
            assert(module_kept(s, t, p, bound));
        }
    }
    assert forall|m: int, i: int|
        0 <= m < t.mods.len() && 0 <= i < n && (#[trigger] t.mods[m]).parent == Some(
            #[trigger] t.mods[id].children@[i],
        ) implies points_at(t.links, t.mods[id].children@[i].0 as int, m) by {
        let c = s.mods[id].children@[i].0 as int;
        assert(t.links[c] == s.links[c]);
        if m < s.mods.len() {
            assert(module_kept(s, t, m, bound));
            assert(s.mods[m].parent == Some(s.mods[id].children@[i]));
            assert(points_at(s.links, c, m));
            let j = choose|j: int| 0 <= j < s.links[c].points_to@.len() && (#[trigger] s.links[c].points_to@[j]).0 == m;
            assert(t.links[c].points_to@[j].0 == m);
        } else {
            assert(module_fresh(t, m, bound));
        }
    }
}

/// Steps follow one another.
proof fn lemma_step_trans(s: Building, t: Building, u: Building, open: int, bound: int)
    requires
        step(s, t, open, bound),
        step(t, u, open, bound),
    ensures
        step(s, u, open, bound),
{
    assert forall|m: int| 0 <= m < s.mods.len() implies #[trigger] module_kept(s, u, m, bound) by {
        assert(module_kept(s, t, m, bound));
        assert(module_kept(t, u, m, bound));
    }
    assert forall|m: int| 0 <= m < s.mods.len() && m != open implies (#[trigger] u.mods[m]).children
        == s.mods[m].children by {
        assert(t.mods[m].children == s.mods[m].children);
    }
    assert forall|l: int| 0 <= l < bound implies #[trigger] u.links[l] == s.links[l] by {
        assert(t.links[l] == s.links[l]);
    }
    assert forall|m: int| s.mods.len() <= m < u.mods.len() implies #[trigger] module_fresh(u, m, bound) by {
        if m < t.mods.len() {
            assert(module_fresh(t, m, bound));
            assert(module_kept(t, u, m, bound));
        }
    }
    assert forall|k: usize| #[trigger] u.roots.contains_key(k) implies s.roots.contains_key(k) && u.roots[k]
        == s.roots[k] by {
        assert(t.roots.contains_key(k));
    }
    assert forall|k: usize| s.visited.contains(k) implies #[trigger] u.visited.contains(k) by {
        assert(t.visited.contains(k));
    }
}

/// A step that leaves the links before `big` alone leaves those before a
/// smaller bound alone.
proof fn lemma_step_weaken(s: Building, t: Building, open: int, big: int, small: int)
    requires
        step(s, t, open, big),
        small <= big,
    ensures
        step(s, t, open, small),
{
    assert forall|m: int| 0 <= m < s.mods.len() implies #[trigger] module_kept(s, t, m, small) by {
        assert(module_kept(s, t, m, big));
    }
    assert forall|m: int| s.mods.len() <= m < t.mods.len() implies #[trigger] module_fresh(t, m, small) by {
        assert(module_fresh(t, m, big));
    }
}

/// A subtree built under `link` is a step of the module that owns `link`.
proof fn lemma_extends_step(s: Building, t: Building, open: int, link: int)
    requires
        extends(s, t),
        0 <= link < s.links.len(),
        t.mods[s.mods.len() as int].parent matches Some(l) && l.0 == link,
    ensures
        step(s, t, open, link),
{
    assert forall|m: int| 0 <= m < s.mods.len() implies #[trigger] module_kept(s, t, m, link) by {
        assert(module_kept(s, t, m, s.links.len() as int));
    }
    assert forall|m: int| s.mods.len() <= m < t.mods.len() implies #[trigger] module_fresh(t, m, link) by {
        if m > s.mods.len() {
            assert(module_fresh(t, m, s.links.len() as int));
        }
    }
}

/// Link `l` stands for a declaration that is resolved to `file`.
spec fn link_targets<D: DescriptorDatabase, R: FileResolver>(
    s: Building,
    db: &D,
    resolver: &R,
    l: int,
    file: FileId,
) -> bool {
    &&& 0 <= l < s.links.len()
    &&& s.links[l].owner.0 < s.mods.len()
    &&& exists|i: int, j: int| #[trigger] declares(s, db, resolver, s.links[l].owner.0 as int, l, file, i, j)
}

/// Link `l` is child `i` of module `o`, and declaration `i` of the file of
/// `o` is resolved, at position `j`, to `file`.
spec fn declares<D: DescriptorDatabase, R: FileResolver>(
    s: Building,
    db: &D,
    resolver: &R,
    o: int,
    l: int,
    file: FileId,
    i: int,
    j: int,
) -> bool {
    match s.mods[o].source {
        ModuleSource::File(owner_file) => 0 <= i < s.mods[o].children@.len() && s.mods[o].children@[i].0 == l
            && is_target(db, resolver, owner_file, i, j) && target(db, resolver, owner_file, i, j) == file,
        ModuleSource::Inline(_) => false,
    }
}

/// Module `m` stands for a visited file with a rank above zero, and its
/// parent, if it has one, stands for a declaration that is resolved to that
/// file.
spec fn known_file<D: DescriptorDatabase, R: FileResolver>(
    s: Building,
    db: &D,
    resolver: &R,
    rank: spec_fn(FileId) -> nat,
    m: int,
) -> bool {
    match s.mods[m].source {
        ModuleSource::File(file) => {
            &&& s.visited.contains(file_key(file))
            &&& rank(file) > 0
            &&& (s.mods[m].parent matches Some(l) ==> link_targets(s, db, resolver, l.0 as int, file))
        },
        ModuleSource::Inline(_) => false,
    }
}

/// The completed module `m` is kept as an orphan.
spec fn is_orphan(s: Building, m: int) -> bool {
    match module_key(s.mods, m) {
        Some(k) => s.roots.contains_key(k) && s.roots[k].0 == m,
        None => false,
    }
}

/// No module stands for `file`.
spec fn fresh(s: Building, file: FileId) -> bool {
    forall|m: int| 0 <= m < s.mods.len() ==> (#[trigger] s.mods[m]).source != ModuleSource::File(file)
}

/// What holds in addition where no file is declared twice: no file has two
/// modules, and every completed module without parent, `exempt` set aside,
/// is kept as an orphan.
spec fn single<D: DescriptorDatabase, R: FileResolver>(
    s: Building,
    db: &D,
    resolver: &R,
    rank: spec_fn(FileId) -> nat,
    exempt: int,
) -> bool {
    &&& forall|m1: int, m2: int|
        0 <= m1 < s.mods.len() && 0 <= m2 < s.mods.len() && (#[trigger] s.mods[m1]).source == (
        #[trigger] s.mods[m2]).source ==> m1 == m2
    &&& forall|m: int| 0 <= m < s.mods.len() ==> #[trigger] known_file(s, db, resolver, rank, m)
    &&& forall|m: int| #[trigger]
        s.fin.contains_key(m) && m != exempt && 0 <= m < s.mods.len() && s.mods[m].parent is None ==> is_orphan(
            s,
            m,
        )
}

/// The file of module `m`.
spec fn file_of(s: Building, m: int) -> FileId {
    match s.mods[m].source {
        ModuleSource::File(file) => file,
        ModuleSource::Inline(ptr) => ptr.file_id,
    }
}

/// Every module that is still being built, `id` set aside, stands for a
/// file of higher rank than `file`.
spec fn open_above(s: Building, rank: spec_fn(FileId) -> nat, id: int, file: FileId) -> bool {
    forall|m: int|
        0 <= m < s.mods.len() && m != id && !(#[trigger] s.fin.contains_key(m)) ==> rank(file_of(s, m)) > rank(
            file,
        )
}

/// What a subtree may be begun with, where no file is declared twice.
spec fn ready<D: DescriptorDatabase, R: FileResolver>(
    s: Building,
    db: &D,
    resolver: &R,
    rank: spec_fn(FileId) -> nat,
    parent: Option<LinkId>,
    file: FileId,
) -> bool {
    &&& single(s, db, resolver, rank, -1)
    &&& fresh(s, file)
    &&& open_above(s, rank, -1, file)
    &&& (parent matches Some(pl) ==> link_targets(s, db, resolver, pl.0 as int, file))
}

/// The modules and links of `s` are in `t` what they were as far as the
/// files, the parents and the order of the children go.
spec fn same_frame(s: Building, t: Building) -> bool {
    &&& t.mods.len() == s.mods.len()
    &&& s.links.len() <= t.links.len()
    &&& forall|m: int|
        0 <= m < s.mods.len() ==> (#[trigger] t.mods[m]).source == s.mods[m].source && s.mods[m].children@.len()
            <= t.mods[m].children@.len()
    &&& forall|m: int, i: int|
        0 <= m < s.mods.len() && 0 <= i < s.mods[m].children@.len() ==> (#[trigger] t.mods[m].children@[i])
            == s.mods[m].children@[i]
    &&& forall|l: int| 0 <= l < s.links.len() ==> (#[trigger] t.links[l]).owner == s.links[l].owner
    &&& t.fin == s.fin
    &&& forall|k: usize| s.visited.contains(k) ==> #[trigger] t.visited.contains(k)
}

/// A link that stood for a declaration still does after a change that
/// keeps the frame.
proof fn lemma_link_targets_kept<D: DescriptorDatabase, R: FileResolver>(
    s: Building,
    t: Building,
    db: &D,
    resolver: &R,
    l: int,
    file: FileId,
)
    requires
        link_targets(s, db, resolver, l, file),
        s.mods.len() <= t.mods.len(),
        s.links.len() <= t.links.len(),
        t.links[l].owner == s.links[l].owner,
        t.mods[s.links[l].owner.0 as int].source == s.mods[s.links[l].owner.0 as int].source,
        s.mods[s.links[l].owner.0 as int].children@.len() <= t.mods[s.links[l].owner.0 as int].children@.len(),
        forall|i: int|
            0 <= i < s.mods[s.links[l].owner.0 as int].children@.len() ==> (
            #[trigger] t.mods[s.links[l].owner.0 as int].children@[i]) == s.mods[s.links[l].owner.0 as int].children@[i],
    ensures
        link_targets(t, db, resolver, l, file),
{
    let o = s.links[l].owner.0 as int;
    let (i, j) = choose|i: int, j: int| #[trigger] declares(s, db, resolver, o, l, file, i, j);
    assert(t.mods[o].children@[i] == s.mods[o].children@[i]);
    assert(declares(t, db, resolver, o, l, file, i, j));
}

/// A change that keeps the frame, the parents and the orphans keeps what
/// holds where no file is declared twice.
proof fn lemma_single_kept<D: DescriptorDatabase, R: FileResolver>(
    s: Building,
    t: Building,
    db: &D,
    resolver: &R,
    rank: spec_fn(FileId) -> nat,
    exempt: int,
)
    requires
        single(s, db, resolver, rank, exempt),
        same_frame(s, t),
        forall|m: int| 0 <= m < s.mods.len() ==> (#[trigger] t.mods[m]).parent == s.mods[m].parent,
        t.roots == s.roots,
    ensures
        single(t, db, resolver, rank, exempt),
{
    assert forall|m: int| 0 <= m < t.mods.len() implies #[trigger] known_file(t, db, resolver, rank, m) by {
        assert(known_file(s, db, resolver, rank, m));
        assert(t.mods[m].source == s.mods[m].source);
        match (s.mods[m].source, s.mods[m].parent) {
            (ModuleSource::File(file), Some(l)) => {
                let o = s.links[l.0 as int].owner.0 as int;
                assert(t.mods[o].source == s.mods[o].source);
                lemma_link_targets_kept(s, t, db, resolver, l.0 as int, file);
            },
            _ => {},
        }
    }
    assert forall|m: int| #[trigger]
        t.fin.contains_key(m) && m != exempt && 0 <= m < t.mods.len() && t.mods[m].parent is None implies is_orphan(
        t,
        m,
    ) by {
        assert(is_orphan(s, m));
        assert(t.mods[m].source == s.mods[m].source);
    }
    assert forall|m1: int, m2: int|
        0 <= m1 < t.mods.len() && 0 <= m2 < t.mods.len() && (#[trigger] t.mods[m1]).source == (
        #[trigger] t.mods[m2]).source implies m1 == m2 by {
        assert(s.mods[m1].source == s.mods[m2].source);
    }
}

/// Adopting an orphan under a link that stands for a declaration of its
/// file keeps what holds where no file is declared twice.
proof fn lemma_single_adopt<D: DescriptorDatabase, R: FileResolver>(
    s: Building,
    t: Building,
    db: &D,
    resolver: &R,
    rank: spec_fn(FileId) -> nat,
    r: int,
    key: usize,
    link: int,
)
    requires
        single(s, db, resolver, rank, -1),
        same_frame(s, t),
        0 <= r < s.mods.len(),
        s.roots.contains_key(key),
        s.roots[key].0 == r,
        module_key(s.mods, r) == Some(key),
        t.roots == s.roots.remove(key),
        forall|m: int| 0 <= m < s.mods.len() && m != r ==> (#[trigger] t.mods[m]).parent == s.mods[m].parent,
        t.mods[r].parent matches Some(l) && l.0 == link,
        link_targets(t, db, resolver, link, file_of(s, r)),
    ensures
        single(t, db, resolver, rank, -1),
{
    assert forall|m: int| 0 <= m < t.mods.len() implies #[trigger] known_file(t, db, resolver, rank, m) by {
        assert(known_file(s, db, resolver, rank, m));
        assert(t.mods[m].source == s.mods[m].source);
        if m != r {
            match (s.mods[m].source, s.mods[m].parent) {
                (ModuleSource::File(file), Some(l)) => {
                    let o = s.links[l.0 as int].owner.0 as int;
                    assert(t.mods[o].source == s.mods[o].source);
                    lemma_link_targets_kept(s, t, db, resolver, l.0 as int, file);
                },
                _ => {},
            }
        }
    }
    assert forall|m: int| #[trigger]
        t.fin.contains_key(m) && m != -1 && 0 <= m < t.mods.len() && t.mods[m].parent is None implies is_orphan(
        t,
        m,
    ) by {
        assert(m != r);
        assert(is_orphan(s, m));
        assert(t.mods[m].source == s.mods[m].source);
    }
    assert forall|m1: int, m2: int|
        0 <= m1 < t.mods.len() && 0 <= m2 < t.mods.len() && (#[trigger] t.mods[m1]).source == (
        #[trigger] t.mods[m2]).source implies m1 == m2 by {
        assert(s.mods[m1].source == s.mods[m2].source);
    }
}

/// Beginning the module of a file that has none keeps what holds where no
/// file is declared twice.
proof fn lemma_single_push_mod<D: DescriptorDatabase, R: FileResolver>(
    s: Building,
    t: Building,
    db: &D,
    resolver: &R,
    rank: spec_fn(FileId) -> nat,
    data: ModuleData,
    file: FileId,
)
    requires
        ready(s, db, resolver, rank, data.parent, file),
        rank(file) > 0,
        data.source == ModuleSource::File(file),
        t.mods == s.mods.push(data),
        t.links == s.links,
        t.fin == s.fin,
        t.roots == s.roots,
        t.visited == s.visited.insert(file_key(file)),
        !s.fin.contains_key(s.mods.len() as int),
        forall|l: int| 0 <= l < s.links.len() ==> (#[trigger] s.links[l]).owner.0 < s.mods.len(),
    ensures
        single(t, db, resolver, rank, -1),
        open_above(t, rank, s.mods.len() as int, file),
{
    let id = s.mods.len() as int;
    assert forall|m: int| 0 <= m < t.mods.len() implies #[trigger] known_file(t, db, resolver, rank, m) by {
        if m < id {
            assert(known_file(s, db, resolver, rank, m));
            assert(t.mods[m] == s.mods[m]);
        }
        match (t.mods[m].source, t.mods[m].parent) {
            (ModuleSource::File(f), Some(l)) => {
                let li = l.0 as int;
                assert(link_targets(s, db, resolver, li, f));
                let o = s.links[li].owner.0 as int;
                assert(t.mods[o] == s.mods[o]);
                let (i, j) = choose|i: int, j: int| #[trigger] declares(s, db, resolver, o, li, f, i, j);
                assert(declares(t, db, resolver, o, li, f, i, j));
            },
            _ => {},
        }
    }
    assert forall|m: int| #[trigger]
        t.fin.contains_key(m) && m != -1 && 0 <= m < t.mods.len() && t.mods[m].parent is None implies is_orphan(
        t,
        m,
    ) by {
        assert(m < id);
        assert(is_orphan(s, m));
        assert(t.mods[m] == s.mods[m]);
    }
    assert forall|m1: int, m2: int|
        0 <= m1 < t.mods.len() && 0 <= m2 < t.mods.len() && (#[trigger] t.mods[m1]).source == (
        #[trigger] t.mods[m2]).source implies m1 == m2 by {
        if m1 < id && m2 < id {
            assert(t.mods[m1] == s.mods[m1]);
            assert(t.mods[m2] == s.mods[m2]);
            assert(s.mods[m1].source == s.mods[m2].source);
        } else if m1 < id {
            assert(t.mods[m1] == s.mods[m1]);
        } else if m2 < id {
            assert(t.mods[m2] == s.mods[m2]);
        }
    }
    assert forall|m: int| 0 <= m < t.mods.len() && m != id && !(#[trigger] t.fin.contains_key(m)) implies rank(
        file_of(t, m),
    ) > rank(file) by {
        assert(t.mods[m] == s.mods[m]);
        assert(!s.fin.contains_key(m));
    }
}

/// Where no file is declared twice, a file that a declaration is resolved
/// to and that is no orphan has no module yet.
proof fn lemma_fresh_candidate<D: DescriptorDatabase, R: FileResolver>(
    s: Building,
    db: &D,
    resolver: &R,
    rank: spec_fn(FileId) -> nat,
    id: int,
    file: FileId,
    i: int,
    j: int,
    link: int,
    pts: Seq<ModuleId>,
)
    requires
        unique_targets(db, resolver, rank),
        ranked(db, resolver, rank),
        single(s, db, resolver, rank, -1),
        open_above(s, rank, id, file),
        0 <= id < s.mods.len(),
        s.mods[id].source == ModuleSource::File(file),
        rank(file) > 0,
        is_target(db, resolver, file, i, j),
        !s.roots.contains_key(file_key(target(db, resolver, file, i, j))),
        i < s.mods[id].children@.len(),
        s.mods[id].children@[i].0 == link,
        pts.len() == j,
        forall|k: int|
            0 <= k < j ==> (#[trigger] pts[k]).0 < s.mods.len() && s.mods[pts[k].0 as int].source
                == ModuleSource::File(target(db, resolver, file, i, k)),
        forall|m: int|
            0 <= m < s.mods.len() && (#[trigger] s.mods[m]).parent == Some(s.mods[id].children@[i]) ==> exists|k: int|
                0 <= k < j && (#[trigger] pts[k]).0 == m,
    ensures
        fresh(s, target(db, resolver, file, i, j)),
        open_above(s, rank, -1, target(db, resolver, file, i, j)),
        rank(target(db, resolver, file, i, j)) > 0,
{
    let cand = target(db, resolver, file, i, j);
    assert(0 < rank(candidates(resolver, file, db.spec_submodules(file)[i])[j]) < rank(file));
    assert forall|m: int| 0 <= m < s.mods.len() implies (#[trigger] s.mods[m]).source != ModuleSource::File(cand) by {
        if s.mods[m].source == ModuleSource::File(cand) {
            assert(known_file(s, db, resolver, rank, m));
            if !s.fin.contains_key(m) {
                if m != id {
                    assert(rank(file_of(s, m)) > rank(file));
                }
            } else {
                match s.mods[m].parent {
                    None => {
                        assert(is_orphan(s, m));
                    },
                    Some(l) => {
                        let li = l.0 as int;
                        assert(link_targets(s, db, resolver, li, cand));
                        let o = s.links[li].owner.0 as int;
                        let (i2, j2) = choose|i2: int, j2: int| #[trigger] declares(s, db, resolver, o, li, cand, i2, j2);
                        assert(known_file(s, db, resolver, rank, o));
                        let fo = file_of(s, o);
                        assert(target(db, resolver, fo, i2, j2) == target(db, resolver, file, i, j));
                        assert(fo == file && i2 == i && j2 == j);
                        assert(s.mods[o].source == s.mods[id].source);
                        assert(o == id);
                        assert(s.mods[m].parent == Some(s.mods[id].children@[i]));
                        let k = choose|k: int| 0 <= k < j && (#[trigger] pts[k]).0 == m;
                        assert(target(db, resolver, file, i, k) == target(db, resolver, file, i, j));
                        assert(is_target(db, resolver, file, i, k));
                        assert(false);
                    },
                }
            }
        }
    }
    assert forall|m: int| 0 <= m < s.mods.len() && m != -1 && !(#[trigger] s.fin.contains_key(m)) implies rank(
        file_of(s, m),
    ) > rank(cand) by {
        if m != id {
            assert(rank(file_of(s, m)) > rank(file));
        }
    }
}

/// Completing a module keeps what holds where no file is declared twice,
/// the completed module set aside.
proof fn lemma_single_finish<D: DescriptorDatabase, R: FileResolver>(
    s: Building,
    t: Building,
    db: &D,
    resolver: &R,
    rank: spec_fn(FileId) -> nat,
    id: int,
)
    requires
        single(s, db, resolver, rank, -1),
        t.mods == s.mods,
        t.links == s.links,
        t.roots == s.roots,
        t.visited == s.visited,
        t.fin == s.fin.insert(id, s.clock),
    ensures
        single(t, db, resolver, rank, id),
{
    assert forall|m: int| 0 <= m < t.mods.len() implies #[trigger] known_file(t, db, resolver, rank, m) by {
        assert(known_file(s, db, resolver, rank, m));
        match (s.mods[m].source, s.mods[m].parent) {
            (ModuleSource::File(file), Some(l)) => {
                let o = s.links[l.0 as int].owner.0 as int;
                let (i, j) = choose|i: int, j: int| #[trigger] declares(s, db, resolver, o, l.0 as int, file, i, j);
                assert(declares(t, db, resolver, o, l.0 as int, file, i, j));
            },
            _ => {},
        }
    }
    assert forall|m: int| #[trigger]
        t.fin.contains_key(m) && m != id && 0 <= m < t.mods.len() && t.mods[m].parent is None implies is_orphan(
        t,
        m,
    ) by {
        assert(s.fin.contains_key(m));
        assert(is_orphan(s, m));
    }
}

/// The modules that are still being built stay the same through steps.
proof fn lemma_open_above_step(s: Building, t: Building, rank: spec_fn(FileId) -> nat, id: int, bound: int, file: FileId)
    requires
        open_above(s, rank, id, file),
        step(s, t, id, bound),
    ensures
        open_above(t, rank, id, file),
{
    assert forall|m: int| 0 <= m < t.mods.len() && m != id && !(#[trigger] t.fin.contains_key(m)) implies rank(
        file_of(t, m),
    ) > rank(file) by {
        if m < s.mods.len() {
            assert(module_kept(s, t, m, bound));
            assert(!s.fin.contains_key(m));
        } else {
            assert(module_fresh(t, m, bound));
        }
    }
}

/// A module with a parent need not be set aside.
proof fn lemma_single_unexempt<D: DescriptorDatabase, R: FileResolver>(
    t: Building,
    db: &D,
    resolver: &R,
    rank: spec_fn(FileId) -> nat,
    id: int,
)
    requires
        single(t, db, resolver, rank, id),
        0 <= id < t.mods.len(),
        t.mods[id].parent is Some,
    ensures
        single(t, db, resolver, rank, -1),
{
}

/// Once the root of a subtree is kept as an orphan, it need not be set
/// aside.
proof fn lemma_single_rooted<D: DescriptorDatabase, R: FileResolver>(
    s: Building,
    t: Building,
    db: &D,
    resolver: &R,
    rank: spec_fn(FileId) -> nat,
    id: int,
    file: FileId,
)
    requires
        single(s, db, resolver, rank, id),
        0 <= id < s.mods.len(),
        s.mods[id].source == ModuleSource::File(file),
        t.mods == s.mods,
        t.links == s.links,
        t.fin == s.fin,
        t.visited == s.visited,
        t.roots == s.roots.insert(file_key(file), ModuleId(id as usize)),
        id <= usize::MAX,
    ensures
        single(t, db, resolver, rank, -1),
{
    assert forall|m: int| 0 <= m < t.mods.len() implies #[trigger] known_file(t, db, resolver, rank, m) by {
        assert(known_file(s, db, resolver, rank, m));
        match (s.mods[m].source, s.mods[m].parent) {
            (ModuleSource::File(f), Some(l)) => {
                let o = s.links[l.0 as int].owner.0 as int;
                let (i, j) = choose|i: int, j: int| #[trigger] declares(s, db, resolver, o, l.0 as int, f, i, j);
                assert(declares(t, db, resolver, o, l.0 as int, f, i, j));
            },
            _ => {},
        }
    }
    assert forall|m: int| #[trigger]
        t.fin.contains_key(m) && m != -1 && 0 <= m < t.mods.len() && t.mods[m].parent is None implies is_orphan(
        t,
        m,
    ) by {
        if m != id {
            assert(is_orphan(s, m));
            assert(known_file(s, db, resolver, rank, m));
            assert(s.mods[m].source != s.mods[id].source);
        }
    }
}

/// The state as plain values.
spec fn growth(s: Building) -> Growth {
    Growth { mods: modules_view(s.mods), links: links_view(s.links), roots: s.roots, visited: s.visited }
}

/// Beginning a module is what the plain function says.
proof fn lemma_growth_begun(s: Building, t: Building, data: ModuleData, file: FileId)
    requires
        t.mods == s.mods.push(data),
        data.source == ModuleSource::File(file),
        data.children@.len() == 0,
        t.links == s.links,
        t.roots == s.roots,
        t.visited == s.visited.insert(file_key(file)),
    ensures
        growth(t) == begun(growth(s), parent_view(data.parent), file),
{
    assert(link_ids(data.children@) =~= Seq::<int>::empty());
    assert(growth(t).mods =~= begun(growth(s), parent_view(data.parent), file).mods);
}

/// Entering a link is what the plain function says.
proof fn lemma_growth_linked(s: Building, t: Building, id: int, data: LinkData)
    requires
        0 <= id < s.mods.len(),
        data.owner.0 == id,
        data.points_to@.len() == 0,
        data.problem is None,
        t.links == s.links.push(data),
        t.mods.len() == s.mods.len(),
        forall|m: int| 0 <= m < s.mods.len() && m != id ==> t.mods[m] == s.mods[m],
        t.mods[id].source == s.mods[id].source,
        t.mods[id].parent == s.mods[id].parent,
        t.mods[id].children@.len() == s.mods[id].children@.len() + 1,
        forall|i: int| 0 <= i < s.mods[id].children@.len() ==> t.mods[id].children@[i] == s.mods[id].children@[i],
        t.mods[id].children@[s.mods[id].children@.len() as int].0 == s.links.len(),
        t.roots == s.roots,
        t.visited == s.visited,
    ensures
        growth(t) == linked(growth(s), id, data.name@),
{
    let want = linked(growth(s), id, data.name@);
    assert(module_ids(data.points_to@) =~= Seq::<int>::empty());
    assert(growth(t).links =~= want.links);
    assert(link_ids(t.mods[id].children@) =~= link_ids(s.mods[id].children@).push(s.links.len() as int));
    assert(growth(t).mods =~= want.mods);
}

/// Adopting an orphan is what the plain function says.
proof fn lemma_growth_adopted(s: Building, t: Building, key: usize, link: int)
    requires
        s.roots.contains_key(key),
        s.roots[key].0 < s.mods.len(),
        t.mods.len() == s.mods.len(),
        forall|m: int| 0 <= m < s.mods.len() && m != s.roots[key].0 ==> t.mods[m] == s.mods[m],
        t.mods[s.roots[key].0 as int].source == s.mods[s.roots[key].0 as int].source,
        t.mods[s.roots[key].0 as int].children == s.mods[s.roots[key].0 as int].children,
        t.mods[s.roots[key].0 as int].parent matches Some(l) && l.0 == link,
        t.links == s.links,
        t.roots == s.roots.remove(key),
        t.visited == s.visited,
    ensures
        growth(t) == adopted(growth(s), key, link),
{
    assert(growth(t).mods =~= adopted(growth(s), key, link).mods);
}

/// Writing the targets into a link is what the plain function says.
proof fn lemma_growth_pointed(s: Building, t: Building, l: int, found: Seq<ModuleId>)
    requires
        0 <= l < s.links.len(),
        t.mods == s.mods,
        t.links.len() == s.links.len(),
        forall|k: int| 0 <= k < s.links.len() && k != l ==> t.links[k] == s.links[k],
        t.links[l].owner == s.links[l].owner,
        t.links[l].name == s.links[l].name,
        t.links[l].points_to@ == found,
        t.roots == s.roots,
        t.visited == s.visited,
    ensures
        growth(t) == pointed(growth(s), l, module_ids(found), problem_view(t.links[l].problem)),
{
    assert(growth(t).links =~= pointed(growth(s), l, module_ids(found), problem_view(t.links[l].problem)).links);
}

/// A ranking of the declarations of a host and a resolver is a ranking of
/// the declarations as plain values.
pub(crate) proof fn lemma_ranked_falls<D: DescriptorDatabase, R: FileResolver>(
    db: &D,
    resolver: &R,
    rank: spec_fn(FileId) -> nat,
)
    requires
        ranked(db, resolver, rank),
    ensures
        falls(decls_of(db, resolver), rank),
{
    let d = decls_of(db, resolver);
    assert forall|file: FileId, i: int, j: int|
        rank(file) > 0 && 0 <= i < (d.names)(file).len() && 0 <= j < (d.targets)(file, i).len() implies 0 < rank(
        #[trigger] (d.targets)(file, i)[j],
    ) < rank(file) by {
        assert(0 < rank(candidates(resolver, file, db.spec_submodules(file)[i])[j]) < rank(file));
    }
}

/// Builds the subtree of `file_id` under the link `parent`, or as a root
/// where `parent` is `None`, and returns the module of `file_id`.
fn build_subtree<D: DescriptorDatabase, R: FileResolver>(
    db: &D,
    source_root: &SourceRoot<R>,
    tree: &mut ModuleTree,
    visited: &mut FxHashSet<usize>,
    roots: &mut FxHashMap<usize, ModuleId>,
    parent: Option<LinkId>,
    file_id: FileId,
    rank: Ghost<spec_fn(FileId) -> nat>,
) -> (res: Result<ModuleId, Canceled>)
    requires
        building_ok(state_of(*old(tree), *old(visited), *old(roots)), db, &source_root.file_resolver),
        parent matches Some(pl) ==> pl.0 < old(tree).links@.len() && !old(tree).finish@.contains_key(
            old(tree).links@[pl.0 as int].owner.0 as int,
        ),
        ranked(db, &source_root.file_resolver, rank@),
        (rank@)(file_id) > 0,
        unique_targets(db, &source_root.file_resolver, rank@) ==> ready(
            state_of(*old(tree), *old(visited), *old(roots)),
            db,
            &source_root.file_resolver,
            rank@,
            parent,
            file_id,
        ),
    ensures
        !db.spec_may_cancel() ==> res is Ok,
        res matches Ok(id) ==> {
            let s = state_of(*old(tree), *old(visited), *old(roots));
            let t = state_of(*final(tree), *final(visited), *final(roots));
            &&& growth(t) == subtree(
                decls_of(db, &source_root.file_resolver),
                rank@,
                growth(s),
                parent_view(parent),
                file_id,
            )
            &&& building_ok(t, db, &source_root.file_resolver)
            &&& unique_targets(db, &source_root.file_resolver, rank@) ==> single(
                t,
                db,
                &source_root.file_resolver,
                rank@,
                id.0 as int,
            )
            &&& extends(s, t)
            &&& id.0 == s.mods.len()
            &&& t.mods[id.0 as int].parent == parent
            &&& t.mods[id.0 as int].source == ModuleSource::File(file_id)
            &&& t.visited.contains(file_key(file_id))
        },
    decreases (rank@)(file_id),
{
    let resolver = &source_root.file_resolver;
    let ghost s0 = state_of(*tree, *visited, *roots);
    let ghost bound0 = s0.links.len() as int;
    let ghost uniq = unique_targets(db, resolver, rank@);
    fx_set_insert(visited, file_id.0 as usize);
    let data = ModuleData { source: ModuleSource::File(file_id), parent, children: Vec::new() };
    let ghost data0 = data;
    let id = tree.push_mod(data);
    let ghost idx = id.0 as int;
    let ghost s1 = state_of(*tree, *visited, *roots);
    proof {
        assert(s0.fin.contains_key(idx) ==> idx < s0.mods.len());
        assert(mutated(s0, s1, idx, -1));
        assert(module_key(s1.mods, idx) == Some(file_key(file_id)));
        assert forall|l: int| 0 <= l < s1.links.len() implies #[trigger] link_listed(s1, l) by {
            assert(link_listed(s0, l));
            let o = s0.links[l].owner.0 as int;
            let i = choose|i: int| 0 <= i < s0.mods[o].children@.len() && (#[trigger] s0.mods[o].children@[i]).0 == l;
            assert(s1.mods[o].children@[i].0 == l);
        }
        assert forall|k: usize| #[trigger] s1.roots.contains_key(k) implies s0.roots.contains_key(k)
            && s1.roots[k] == s0.roots[k] && s1.mods[s1.roots[k].0 as int].parent is None by {
            assert(orphan_ok(s0, k));
        }
        assert forall|m: int|
            0 <= m < s1.mods.len() && (m >= s0.mods.len() || s1.mods[m].parent
                != s0.mods[m].parent) implies #[trigger] parent_known(s1, m) by {
            assert(m == idx);
        }
        lemma_ok_mutated(s0, s1, db, resolver, idx, -1);
        if uniq {
            assert forall|l: int| 0 <= l < s0.links.len() implies (#[trigger] s0.links[l]).owner.0 < s0.mods.len() by {
                assert(link_listed(s0, l));
            }
            lemma_single_push_mod(s0, s1, db, resolver, rank@, data0, file_id);
        }
        lemma_growth_begun(s0, s1, data0, file_id);
    }
    let ghost d = decls_of(db, resolver);
    let ghost goal = subtree(d, rank@, growth(s0), parent_view(parent), file_id);
    assert(goal == declarations(d, rank@, growth(s1), idx, file_id, 0));
    let names_arc = match db.submodules(file_id) {
        Ok(names) => names,
        Err(e) => {
            return Err(e);
        },
    };
    let names: &Vec<String> = &*names_arc;
    let ghost decls = db.spec_submodules(file_id);
    let mut i: usize = 0;
    assert(step(s1, s1, idx, bound0)) by {
        assert forall|m: int| 0 <= m < s1.mods.len() implies #[trigger] module_kept(s1, s1, m, bound0) by {}
    }
    while i < names.len()
        invariant
            0 <= i <= names.len(),
            resolver == &source_root.file_resolver,
            strings_view(names@) == decls,
            decls == db.spec_submodules(file_id),
            ranked(db, resolver, rank@),
            (rank@)(file_id) > 0,
            idx == id.0,
            idx == s0.mods.len(),
            s1.mods.len() == idx + 1,
            s1.links.len() == bound0,
            building_ok(state_of(*tree, *visited, *roots), db, resolver),
            step(s1, state_of(*tree, *visited, *roots), idx, bound0),
            tree.mods@[idx].children@.len() == i,
            tree.mods@[idx].parent == parent,
            tree.mods@[idx].source == ModuleSource::File(file_id),
            !tree.finish@.contains_key(idx),
            partial(state_of(*tree, *visited, *roots), resolver, idx, file_id, decls, i as int, tree.links@.len() as int),
            uniq == unique_targets(db, resolver, rank@),
            uniq ==> single(state_of(*tree, *visited, *roots), db, resolver, rank@, -1),
            uniq ==> open_above(state_of(*tree, *visited, *roots), rank@, idx, file_id),
            d == decls_of(db, resolver),
            declarations(d, rank@, growth(state_of(*tree, *visited, *roots)), idx, file_id, i as int) == goal,
        decreases names.len() - i,
    {
        let name = &names[i];
        assert(name@ == decls[i as int]);
        let (cands, problem) = resolve_submodule(file_id, name, resolver);
        let ghost c0 = state_of(*tree, *visited, *roots);
        let link_data = LinkData { owner: id, name: name.clone(), points_to: Vec::new(), problem: None };
        let ghost link_data0 = link_data;
        let link = tree.push_link(link_data);
        let ghost lx = link.0 as int;
        let ghost c1 = state_of(*tree, *visited, *roots);
        proof {
            assert(c1.mods[idx].children@[i as int] == link);
            assert(mutated(c0, c1, idx, -1));
            assert forall|l: int| 0 <= l < c1.links.len() implies #[trigger] link_listed(c1, l) by {
                if l < c0.links.len() {
                    assert(link_listed(c0, l));
                    let o = c0.links[l].owner.0 as int;
                    let k = choose|k: int|
                        0 <= k < c0.mods[o].children@.len() && (#[trigger] c0.mods[o].children@[k]).0 == l;
                    assert(c1.mods[o].children@[k].0 == l);
                } else {
                    assert(c1.mods[idx].children@[i as int].0 == l);
                }
            }
            lemma_ok_mutated(c0, c1, db, resolver, idx, -1);
            assert(step(c0, c1, idx, lx)) by {
                assert forall|m: int| 0 <= m < c0.mods.len() implies #[trigger] module_kept(c0, c1, m, lx) by {}
            }
            lemma_partial_step(c0, c1, resolver, idx, file_id, decls, i as int, lx);
            lemma_step_weaken(c0, c1, idx, lx, bound0);
            lemma_step_trans(s1, c0, c1, idx, bound0);
            assert forall|m: int| 0 <= m < c1.mods.len() implies (#[trigger] c1.mods[m]).parent != Some(link) by {
                assert(parent_known(c0, m));
            }
            if uniq {
                assert(same_frame(c0, c1));
                lemma_single_kept(c0, c1, db, resolver, rank@, -1);
                lemma_open_above_step(c0, c1, rank@, idx, lx, file_id);
            }
            lemma_growth_linked(c0, c1, idx, link_data0);
        }
        let mut pts: Vec<ModuleId> = Vec::new();
        let ghost inner_goal = targets(d, rank@, growth(c1), file_id, i as int, lx, 0, Seq::empty());
        proof {
            assert(module_ids(pts@) =~= Seq::<int>::empty());
            assert((d.names)(file_id) == decls);
            assert(goal == declarations(
                d,
                rank@,
                pointed(inner_goal.0, lx, inner_goal.1, (d.problems)(file_id, i as int)),
                idx,
                file_id,
                i as int + 1,
            ));
        }
        let mut j: usize = 0;
        while j < cands.len()
            invariant
                0 <= j <= cands.len(),
                0 <= i < names.len(),
                resolver == &source_root.file_resolver,
                strings_view(names@) == decls,
                decls == db.spec_submodules(file_id),
                cands@ == candidates(resolver, file_id, decls[i as int]),
                ranked(db, resolver, rank@),
                (rank@)(file_id) > 0,
                idx == id.0,
                idx == s0.mods.len(),
                s1.mods.len() == idx + 1,
                s1.links.len() == bound0,
                lx == link.0,
                bound0 <= lx < tree.links@.len(),
                tree.links@[lx].owner == id,
                tree.links@[lx].name@ == decls[i as int],
                tree.links@[lx].points_to@.len() == 0,
                tree.links@[lx].problem is None,
                building_ok(state_of(*tree, *visited, *roots), db, resolver),
                step(s1, state_of(*tree, *visited, *roots), idx, bound0),
                tree.mods@[idx].children@.len() == i + 1,
                tree.mods@[idx].children@[i as int] == link,
                tree.mods@[idx].parent == parent,
                tree.mods@[idx].source == ModuleSource::File(file_id),
                !tree.finish@.contains_key(idx),
                partial(state_of(*tree, *visited, *roots), resolver, idx, file_id, decls, i as int, lx),
                pts@.len() == j,
                forall|k: int|
                    0 <= k < j ==> (#[trigger] pts@[k]).0 < tree.mods@.len() && tree.mods@[pts@[k].0 as int].parent
                        == Some(link) && tree.mods@[pts@[k].0 as int].source == ModuleSource::File(cands@[k]),
                forall|m: int|
                    0 <= m < tree.mods@.len() && (#[trigger] tree.mods@[m]).parent == Some(link) ==> exists|k: int|
                        0 <= k < j && (#[trigger] pts@[k]).0 == m,
                forall|k1: int, k2: int| 0 <= k1 < k2 < j ==> (#[trigger] pts@[k1]) != (#[trigger] pts@[k2]),
                uniq == unique_targets(db, resolver, rank@),
                uniq ==> single(state_of(*tree, *visited, *roots), db, resolver, rank@, -1),
                uniq ==> open_above(state_of(*tree, *visited, *roots), rank@, idx, file_id),
                d == decls_of(db, resolver),
                problem_view(problem) == (d.problems)(file_id, i as int),
                targets(
                    d,
                    rank@,
                    growth(state_of(*tree, *visited, *roots)),
                    file_id,
                    i as int,
                    lx,
                    j as int,
                    module_ids(pts@),
                ) == inner_goal,
                goal == declarations(
                    d,
                    rank@,
                    pointed(inner_goal.0, lx, inner_goal.1, (d.problems)(file_id, i as int)),
                    idx,
                    file_id,
                    i as int + 1,
                ),
            decreases cands.len() - j,
        {
            let cand = cands[j];
            let ghost b = state_of(*tree, *visited, *roots);
            let ghost pts0 = pts@;
            match fx_map_remove(roots, cand.0 as usize) {
                Some(module_id) => {
                    let ghost r = module_id.0 as int;
                    assert(orphan_ok(b, cand.0 as usize));
                    assert(b.fin.contains_key(r));
                    tree.mods[module_id.0].parent = Some(link);
                    pts.push(module_id);
                    let ghost a = state_of(*tree, *visited, *roots);
                    proof {
                        assert(r != idx);
                        assert(mutated(b, a, idx, -1));
                        assert forall|l: int| 0 <= l < a.links.len() implies #[trigger] link_listed(a, l) by {
                            assert(link_listed(b, l));
                            let o = b.links[l].owner.0 as int;
                            let k = choose|k: int|
                                0 <= k < b.mods[o].children@.len() && (#[trigger] b.mods[o].children@[k]).0 == l;
                            assert(a.mods[o].children@[k].0 == l);
                        }
                        assert forall|k: usize| #[trigger] a.roots.contains_key(k) implies b.roots.contains_key(k)
                            && a.roots[k] == b.roots[k] && a.mods[a.roots[k].0 as int].parent is None by {
                            assert(orphan_ok(b, k));
                        }
                        lemma_ok_mutated(b, a, db, resolver, idx, -1);
                        assert(step(b, a, idx, lx)) by {
                            assert forall|m: int| 0 <= m < b.mods.len() implies #[trigger] module_kept(b, a, m, lx) by {}
                        }
                        lemma_partial_step(b, a, resolver, idx, file_id, decls, i as int, lx);
                        lemma_step_weaken(b, a, idx, lx, bound0);
                        lemma_step_trans(s1, b, a, idx, bound0);
                        lemma_growth_adopted(b, a, cand.0 as usize, lx);
                        assert(module_ids(pts@) =~= module_ids(pts0).push(r));
                        assert((d.targets)(file_id, i as int) == cands@);
                        assert(targets(d, rank@, growth(b), file_id, i as int, lx, j as int, module_ids(pts0))
                            == targets(
                            d,
                            rank@,
                            adopted(growth(b), cand.0 as usize, lx),
                            file_id,
                            i as int,
                            lx,
                            j as int + 1,
                            module_ids(pts0).push(r),
                        ));
                        if uniq {
                            assert(same_frame(b, a));
                            assert(file_of(b, r) == cand);
                            assert(declares(a, db, resolver, idx, lx, cand, i as int, j as int));
                            lemma_single_adopt(b, a, db, resolver, rank@, r, cand.0 as usize, lx);
                            lemma_open_above_step(b, a, rank@, idx, lx, file_id);
                        }
                        assert forall|m: int|
                            0 <= m < a.mods.len() && (#[trigger] a.mods[m]).parent == Some(link) implies exists|k: int|
                                0 <= k < j + 1 && (#[trigger] pts@[k]).0 == m by {
                            if m == r {
                                assert(pts@[j as int].0 == m);
                            } else {
                                assert(b.mods[m].parent == Some(link));
                                let k = choose|k: int| 0 <= k < j && (#[trigger] pts0[k]).0 == m;
                                assert(pts@[k].0 == m);
                            }
                        }
                    }
                },
                None => {
                    assert(roots@ =~= b.roots);
                    assert(cand == candidates(resolver, file_id, db.spec_submodules(file_id)[i as int])[j as int]);
                    proof {
                        if uniq {
                            assert(state_of(*tree, *visited, *roots) == b);
                            assert(cand == target(db, resolver, file_id, i as int, j as int));
                            lemma_fresh_candidate(b, db, resolver, rank@, idx, file_id, i as int, j as int, lx, pts@);
                            assert(declares(b, db, resolver, idx, lx, cand, i as int, j as int));
                            assert(link_targets(b, db, resolver, lx, cand));
                        }
                    }
                    match build_subtree(db, source_root, tree, visited, roots, Some(link), cand, rank) {
                        Ok(child) => {
                            pts.push(child);
                            let ghost a = state_of(*tree, *visited, *roots);
                            proof {
                                lemma_extends_step(b, a, idx, lx);
                                assert(module_kept(b, a, idx, b.links.len() as int));
                                if uniq {
                                    lemma_single_unexempt(a, db, resolver, rank@, child.0 as int);
                                    lemma_open_above_step(b, a, rank@, idx, lx, file_id);
                                }
                                assert(module_ids(pts@) =~= module_ids(pts0).push(b.mods.len() as int));
                                assert((d.targets)(file_id, i as int) == cands@);
                                assert(growth(a) == subtree(d, rank@, growth(b), Some(lx), cand));
                                assert(targets(
                                    d,
                                    rank@,
                                    growth(b),
                                    file_id,
                                    i as int,
                                    lx,
                                    j as int,
                                    module_ids(pts0),
                                ) == targets(
                                    d,
                                    rank@,
                                    subtree(d, rank@, growth(b), Some(lx), cand),
                                    file_id,
                                    i as int,
                                    lx,
                                    j as int + 1,
                                    module_ids(pts0).push(b.mods.len() as int),
                                ));
                                lemma_partial_step(b, a, resolver, idx, file_id, decls, i as int, lx);
                                lemma_step_weaken(b, a, idx, lx, bound0);
                                lemma_step_trans(s1, b, a, idx, bound0);
                                assert forall|k: int| 0 <= k < j + 1 implies (#[trigger] pts@[k]).0 < a.mods.len()
                                    && a.mods[pts@[k].0 as int].parent == Some(link) && a.mods[pts@[k].0 as int].source
                                    == ModuleSource::File(cands@[k]) by {
                                    if k < j {
                                        assert(pts@[k] == pts0[k]);
                                        assert(module_kept(b, a, pts0[k].0 as int, b.links.len() as int));
                                    }
                                }
                                assert forall|m: int|
                                    0 <= m < a.mods.len() && (#[trigger] a.mods[m]).parent == Some(
                                        link,
                                    ) implies exists|k: int| 0 <= k < j + 1 && (#[trigger] pts@[k]).0 == m by {
                                    if m < b.mods.len() {
                                        assert(module_kept(b, a, m, b.links.len() as int));
                                        assert(b.mods[m].parent == Some(link));
                                        let k = choose|k: int| 0 <= k < j && (#[trigger] pts0[k]).0 == m;
                                        assert(pts@[k].0 == m);
                                    } else if m == b.mods.len() {
                                        assert(pts@[j as int].0 == m);
                                    } else {
                                        assert(module_fresh(a, m, b.links.len() as int));
                                    }
                                }
                            }
                        },
                        Err(e) => {
                            return Err(e);
                        },
                    }
                },
            }
            j += 1;
        }
        let ghost b = state_of(*tree, *visited, *roots);
        let ghost found = pts@;
        tree.links[link.0].points_to = pts;
        tree.links[link.0].problem = problem;
        let ghost a = state_of(*tree, *visited, *roots);
        proof {
            assert((d.targets)(file_id, i as int) == cands@);
            assert(inner_goal == (growth(b), module_ids(found)));
            lemma_growth_pointed(b, a, lx, found);
            assert(mutated(b, a, idx, lx));
            assert forall|l: int| 0 <= l < a.links.len() implies #[trigger] link_listed(a, l) by {
                assert(link_listed(b, l));
                let o = b.links[l].owner.0 as int;
                let k = choose|k: int|
                    0 <= k < b.mods[o].children@.len() && (#[trigger] b.mods[o].children@[k]).0 == l;
                assert(a.mods[o].children@[k].0 == l);
            }
            assert forall|k: usize| #[trigger] a.roots.contains_key(k) implies b.roots.contains_key(k)
                && a.roots[k] == b.roots[k] && a.mods[a.roots[k].0 as int].parent is None by {
                assert(orphan_ok(b, k));
            }
            lemma_ok_mutated(b, a, db, resolver, idx, lx);
            assert(step(b, a, idx, lx)) by {
                assert forall|m: int| 0 <= m < b.mods.len() implies #[trigger] module_kept(b, a, m, lx) by {}
            }
            lemma_partial_step(b, a, resolver, idx, file_id, decls, i as int, lx);
            lemma_step_weaken(b, a, idx, lx, bound0);
            lemma_step_trans(s1, b, a, idx, bound0);
            if uniq {
                assert(same_frame(b, a));
                lemma_single_kept(b, a, db, resolver, rank@, -1);
                lemma_open_above_step(b, a, rank@, idx, lx, file_id);
            }
            assert(links_to_ok(a.mods, a.links, lx));
            assert(child_described(a.mods, a.links, resolver, file_id, lx, decls[i as int]));
            assert(partial(a, resolver, idx, file_id, decls, i as int + 1, a.links.len() as int)) by {
                assert forall|m: int, k: int|
                    0 <= m < a.mods.len() && 0 <= k < i + 1 && (#[trigger] a.mods[m]).parent == Some(
                        #[trigger] a.mods[idx].children@[k],
                    ) implies points_at(a.links, a.mods[idx].children@[k].0 as int, m) by {
                    if k == i {
                        let w = choose|w: int| 0 <= w < j && (#[trigger] a.links[lx].points_to@[w]).0 == m;
                        assert(a.links[lx].points_to@[w].0 == m);
                    }
                }
            }
        }
        i += 1;
    }
    let ghost b = state_of(*tree, *visited, *roots);
    proof {
        tree.finish@ = tree.finish@.insert(idx, tree.clock@);
        tree.clock@ = tree.clock@ + 1;
    }
    let ghost t = state_of(*tree, *visited, *roots);
    proof {
        assert forall|l: int| 0 <= l < s1.links.len() implies (#[trigger] s1.links[l]).owner.0 != idx by {
            assert(link_listed(s0, l));
        }
        match parent {
            Some(pl) => {
                let o = s0.links[pl.0 as int].owner.0 as int;
                assert(link_listed(s0, pl.0 as int));
                assert(module_kept(s1, b, o, bound0));
                assert(b.links[pl.0 as int] == s1.links[pl.0 as int]);
            },
            None => {},
        }
        lemma_ok_finish(s1, b, t, db, resolver, idx, file_id, decls);
        lemma_finish_extends(s0, s1, b, t, idx);
        if uniq {
            lemma_single_finish(b, t, db, resolver, rank@, idx);
        }
        assert(s1.visited.contains(file_key(file_id)));
        assert(b.visited.contains(file_key(file_id)));
        assert(t.mods[idx].parent == parent);
        assert(t.mods[idx].source == ModuleSource::File(file_id));
    }
    Ok(id)
}

/// Completing the module that was being built keeps the state sound.
proof fn lemma_ok_finish<D: DescriptorDatabase, R: FileResolver>(
    s1: Building,
    s: Building,
    t: Building,
    db: &D,
    resolver: &R,
    id: int,
    file: FileId,
    names: Seq<Seq<char>>,
)
    requires
        building_ok(s, db, resolver),
        step(s1, s, id, s1.links.len() as int),
        s1.mods.len() == id + 1,
        forall|m: int| 0 <= m < s1.mods.len() ==> #[trigger] parent_known(s1, m),
        forall|l: int| 0 <= l < s1.links.len() ==> (#[trigger] s1.links[l]).owner.0 != id,
        t.mods == s.mods,
        t.links == s.links,
        t.roots == s.roots,
        t.visited == s.visited,
        t.fin == s.fin.insert(id, s.clock),
        t.clock == s.clock + 1,
        !s.fin.contains_key(id),
        names == db.spec_submodules(file),
        s.mods[id].source == ModuleSource::File(file),
        s.mods[id].children@.len() == names.len(),
        partial(s, resolver, id, file, names, names.len() as int, s.links.len() as int),
        s.mods[id].parent matches Some(pl) ==> pl.0 < s1.links.len() && !s.fin.contains_key(
            s.links[pl.0 as int].owner.0 as int,
        ),
    ensures
        building_ok(t, db, resolver),
{
    let bound0 = s1.links.len() as int;
    assert forall|m: int| #[trigger] t.fin.contains_key(m) implies 0 <= m < t.mods.len() && t.fin[m] < t.clock
        && module_closed(t, db, resolver, m) by {
        if m != id {
            assert(s.fin.contains_key(m));
            assert(module_closed(s, db, resolver, m));
        } else {
            assert(children_ok(t.mods, t.links, id));
        }
    }
    assert forall|l: int| 0 <= l < t.links.len() implies #[trigger] link_listed(t, l) by {
        assert(link_listed(s, l));
    }
    assert forall|m: int| 0 <= m < t.mods.len() implies #[trigger] parent_known(t, m) by {
        assert(parent_known(s, m));
        match s.mods[m].parent {
            Some(l) => {
                let li = l.0 as int;
                let o = s.links[li].owner.0 as int;
                if o == id {
                    if li < bound0 {
                        assert(s.links[li] == s1.links[li]);
                    }
                    assert(link_listed(s, li));
                    let i = choose|i: int|
                        0 <= i < s.mods[o].children@.len() && (#[trigger] s.mods[o].children@[i]).0 == li;
                    assert(s.mods[m].parent == Some(s.mods[id].children@[i]));
                    assert(points_at(s.links, li, m));
                    if m < s1.mods.len() {
                        assert(module_kept(s1, s, m, bound0));
                        assert(parent_known(s1, m));
                    } else {
                        assert(module_fresh(s, m, bound0));
                    }
                }
            },
            None => {},
        }
    }
    assert forall|k: usize| #[trigger] t.roots.contains_key(k) implies orphan_ok(t, k) by {
        assert(orphan_ok(s, k));
    }
    assert forall|k: usize| #[trigger] t.visited.contains(k) implies visited_ok(t, k) by {
        assert(visited_ok(s, k));
        let m = choose|m: int| 0 <= m < s.mods.len() && #[trigger] module_key(s.mods, m) == Some(k);
        assert(module_key(t.mods, m) == Some(k));
    }
}

/// What was done between the beginning of a subtree and its completion
/// extends the state.
proof fn lemma_finish_extends(s0: Building, s1: Building, b: Building, t: Building, id: int)
    requires
        id == s0.mods.len(),
        s1.mods.len() == id + 1,
        forall|m: int| 0 <= m < id ==> #[trigger] s1.mods[m] == s0.mods[m],
        s1.links == s0.links,
        s1.fin == s0.fin,
        s1.clock == s0.clock,
        s1.roots == s0.roots,
        forall|k: usize| s0.visited.contains(k) ==> #[trigger] s1.visited.contains(k),
        step(s1, b, id, s0.links.len() as int),
        t.mods == b.mods,
        t.links == b.links,
        t.roots == b.roots,
        t.visited == b.visited,
        t.fin == b.fin.insert(id, b.clock),
        t.clock == b.clock + 1,
    ensures
        extends(s0, t),
{
    let bound0 = s0.links.len() as int;
    assert forall|m: int| 0 <= m < s0.mods.len() implies #[trigger] module_kept(s0, t, m, bound0) && t.mods[m].children
        == s0.mods[m].children by {
        assert(module_kept(s1, b, m, bound0));
        assert(b.mods[m].children == s1.mods[m].children);
    }
    assert forall|l: int| 0 <= l < s0.links.len() implies #[trigger] t.links[l] == s0.links[l] by {
        assert(b.links[l] == s1.links[l]);
    }
    assert forall|m: int| s0.mods.len() < m < t.mods.len() implies #[trigger] module_fresh(t, m, bound0) by {
        assert(module_fresh(b, m, bound0));
    }
    assert forall|k: usize| s0.visited.contains(k) implies #[trigger] t.visited.contains(k) by {
        assert(s1.visited.contains(k));
    }
}

/// When no module is left open, the state is a finished tree.
proof fn lemma_finished<D: DescriptorDatabase, R: FileResolver>(
    tree: ModuleTree,
    visited: FxHashSet<usize>,
    roots: FxHashMap<usize, ModuleId>,
    db: &D,
    resolver: &R,
    files: Seq<FileId>,
)
    requires
        building_ok(state_of(tree, visited, roots), db, resolver),
        forall|m: int| 0 <= m < tree.mods@.len() ==> #[trigger] tree.finish@.contains_key(m),
        forall|k: int| 0 <= k < files.len() ==> visited@.contains(file_key(#[trigger] files[k])),
    ensures
        tree.wf(),
        describes(&tree, db, resolver),
        tree.covers(files),
{
    let s = state_of(tree, visited, roots);
    assert forall|m: int| 0 <= m < tree.mods@.len() implies #[trigger] children_ok(tree.mods@, tree.links@, m) by {
        assert(s.fin.contains_key(m));
        assert(module_closed(s, db, resolver, m));
    }
    assert forall|m: int| 0 <= m < tree.mods@.len() implies #[trigger] module_described(
        tree.mods@,
        tree.links@,
        db,
        resolver,
        m,
    ) by {
        assert(s.fin.contains_key(m));
        assert(module_closed(s, db, resolver, m));
    }
    assert forall|l: int| 0 <= l < tree.links@.len() implies #[trigger] link_ok(tree.mods@, tree.links@, l) by {
        assert(link_listed(s, l));
        let o = s.links[l].owner.0 as int;
        assert(s.fin.contains_key(o));
        assert(module_closed(s, db, resolver, o));
        let i = choose|i: int| 0 <= i < s.mods[o].children@.len() && (#[trigger] s.mods[o].children@[i]).0 == l;
        assert(links_to_ok(s.mods, s.links, s.mods[o].children@[i].0 as int));
    }
    assert forall|m: int| 0 <= m < tree.mods@.len() implies #[trigger] parent_ok(
        tree.mods@,
        tree.links@,
        tree.finish@,
        m,
    ) by {
        assert(parent_known(s, m));
        match s.mods[m].parent {
            Some(l) => {
                assert(link_listed(s, l.0 as int));
                assert(s.fin.contains_key(s.links[l.0 as int].owner.0 as int));
            },
            None => {},
        }
    }
    assert forall|m: int| 0 <= m < tree.mods@.len() implies #[trigger] tree.finish@[m] < tree.clock@ by {
        assert(s.fin.contains_key(m));
    }
    assert(tree.clock@ <= tree.mods@.len()) by {
        let all = vstd::set_lib::set_int_range(0, s.mods.len() as int);
        vstd::set_lib::lemma_int_range(0, s.mods.len() as int);
        assert(s.fin.dom().subset_of(all)) by {
            assert forall|m: int| s.fin.dom().contains(m) implies all.contains(m) by {
                assert(s.fin.contains_key(m));
            }
        }
        vstd::set_lib::lemma_len_subset(s.fin.dom(), all);
    }
    assert forall|k: int| 0 <= k < files.len() implies tree.has_module(#[trigger] files[k]) by {
        let key = file_key(files[k]);
        assert(s.visited.contains(key));
        assert(visited_ok(s, key));
        let m = choose|m: int| 0 <= m < s.mods.len() && #[trigger] module_key(s.mods, m) == Some(key);
        assert(tree.is_module_of(m, files[k]));
    }
}

/// Builds the module tree of a source root.
///
/// Every file of the root gets a module. Every module has one link for each
/// submodule that its file declares, in source order, and each link points
/// to the modules of the files that the declaration is resolved to. The
/// tree is exactly the one that the visits of the files in their order
/// give, down to the numbers of its modules and links. It is returned
/// unless the host calls the query off.
pub fn create_module_tree<D: DescriptorDatabase>(db: &D, source_root: SourceRootId) -> (res: Result<
    ModuleTree,
    Canceled,
>)
    requires
        no_declaration_cycle(
            db,
            &db.spec_source_root(source_root).file_resolver,
            db.spec_source_root(source_root).files@,
        ),
    ensures
        !db.spec_may_cancel() ==> res is Ok,
        res matches Ok(tree) ==> {
            &&& tree@ == module_tree_of(
                decls_of(db, &db.spec_source_root(source_root).file_resolver),
                db.spec_source_root(source_root).files@,
            )
            &&& tree.wf()
            &&& tree.parents_end()
            &&& tree.links_sound()
            &&& describes(&tree, db, &db.spec_source_root(source_root).file_resolver)
            &&& tree.covers(db.spec_source_root(source_root).files@)
            &&& unique_declarations(
                db,
                &db.spec_source_root(source_root).file_resolver,
                db.spec_source_root(source_root).files@,
            ) ==> tree.one_module_per_file() && rooted(&tree, db.spec_source_root(source_root).files@)
        },
{
    let mut tree = ModuleTree::new();
    let mut roots: FxHashMap<usize, ModuleId> = fx_map_new();
    let mut visited: FxHashSet<usize> = fx_set_new();
    let root_arc = db.source_root(source_root);
    let root: &SourceRoot<D::Resolver> = &*root_arc;
    let ghost resolver = &root.file_resolver;
    let ghost files = root.files@;
    let ghost forest = unique_declarations(db, resolver, files);
    let ghost rank = if forest {
        choose|rank: spec_fn(FileId) -> nat|
            #[trigger] ranked(db, resolver, rank) && unique_targets(db, resolver, rank) && forall|k: int|
                0 <= k < files.len() ==> rank(#[trigger] files[k]) > 0
    } else {
        choose|rank: spec_fn(FileId) -> nat|
            #[trigger] ranked(db, resolver, rank) && forall|k: int| 0 <= k < files.len() ==> rank(#[trigger] files[k]) > 0
    };
    let ghost uniq = unique_targets(db, resolver, rank);
    let ghost d = decls_of(db, resolver);
    let ghost goal = visits(d, rank, nothing(), files, 0);
    proof {
        let start = state_of(tree, visited, roots);
        assert(growth(start).mods =~= nothing().mods);
        assert(growth(start).links =~= nothing().links);
        assert(growth(start).roots =~= nothing().roots);
        assert(growth(start).visited =~= nothing().visited);
    }
    let mut k: usize = 0;
    while k < root.files.len()
        invariant
            0 <= k <= root.files.len(),
            d == decls_of(db, resolver),
            visits(d, rank, growth(state_of(tree, visited, roots)), files, k as int) == goal,
            *root == db.spec_source_root(source_root),
            resolver == &root.file_resolver,
            files == root.files@,
            ranked(db, resolver, rank),
            forall|k: int| 0 <= k < files.len() ==> rank(#[trigger] files[k]) > 0,
            building_ok(state_of(tree, visited, roots), db, resolver),
            forall|m: int| 0 <= m < tree.mods@.len() ==> #[trigger] tree.finish@.contains_key(m),
            forall|i: int| 0 <= i < k ==> visited@.contains(file_key(#[trigger] files[i])),
            uniq == unique_targets(db, resolver, rank),
            forest ==> uniq,
            uniq ==> single(state_of(tree, visited, roots), db, resolver, rank, -1),
            forall|x: usize| #[trigger]
                roots@.contains_key(x) ==> exists|i: int| 0 <= i < files.len() && file_key(#[trigger] files[i]) == x,
        decreases root.files.len() - k,
    {
        let file_id = root.files[k];
        if !fx_set_contains(&visited, file_id.0 as usize) {
            let ghost b = state_of(tree, visited, roots);
            proof {
                if uniq {
                    assert forall|m: int| 0 <= m < b.mods.len() implies (#[trigger] b.mods[m]).source
                        != ModuleSource::File(file_id) by {
                        assert(known_file(b, db, resolver, rank, m));
                    }
                    assert(ready(b, db, resolver, rank, None, file_id));
                }
            }
            let module_id = match build_subtree(
                db,
                root,
                &mut tree,
                &mut visited,
                &mut roots,
                None,
                file_id,
                Ghost(rank),
            ) {
                Ok(module_id) => module_id,
                Err(e) => {
                    return Err(e);
                },
            };
            let ghost a = state_of(tree, visited, roots);
            fx_map_insert(&mut roots, file_id.0 as usize, module_id);
            proof {
                let t = state_of(tree, visited, roots);
                assert(growth(a) == subtree(d, rank, growth(b), None, file_id));
                assert(module_id == ModuleId(growth(b).mods.len() as usize));
                assert(growth(t) == orphaned(growth(a), file_id, module_id));
                assert(visits(d, rank, growth(b), files, k as int) == visits(
                    d,
                    rank,
                    orphaned(subtree(d, rank, growth(b), None, file_id), file_id, module_id),
                    files,
                    k as int + 1,
                ));
                if uniq {
                    lemma_single_rooted(a, t, db, resolver, rank, module_id.0 as int, file_id);
                }
                assert forall|m: int| 0 <= m < tree.mods@.len() implies #[trigger] tree.finish@.contains_key(m) by {
                    if m < b.mods.len() {
                        assert(module_kept(b, a, m, b.links.len() as int));
                    } else if m > b.mods.len() {
                        assert(module_fresh(a, m, b.links.len() as int));
                    }
                }
                assert forall|x: usize| #[trigger] t.roots.contains_key(x) implies orphan_ok(t, x) by {
                    if x != file_id.0 as usize {
                        assert(orphan_ok(a, x));
                    }
                }
                assert forall|m: int| #[trigger] t.fin.contains_key(m) implies 0 <= m < t.mods.len() && t.fin[m]
                    < t.clock && module_closed(t, db, resolver, m) by {
                    assert(module_closed(a, db, resolver, m));
                }
                assert forall|l: int| 0 <= l < t.links.len() implies #[trigger] link_listed(t, l) by {
                    assert(link_listed(a, l));
                }
                assert forall|m: int| 0 <= m < t.mods.len() implies #[trigger] parent_known(t, m) by {
                    assert(parent_known(a, m));
                }
                assert forall|x: usize| #[trigger] t.visited.contains(x) implies visited_ok(t, x) by {
                    assert(visited_ok(a, x));
                }
                assert forall|i: int| 0 <= i < k + 1 implies visited@.contains(file_key(#[trigger] files[i])) by {
                    if i < k {
                        assert(b.visited.contains(file_key(files[i])));
                    }
                }
            }
        }
        k += 1;
    }
    proof {
        let end = growth(state_of(tree, visited, roots));
        assert(end == goal);
        lemma_ranked_falls(db, resolver, rank);
        assert(ranks(d, files, rank));
        let canon = some_ranking(d, files);
        assert(ranks(d, files, canon));
        lemma_visits_any_rank(d, rank, canon, nothing(), files, 0);
        assert(tree@.mods == end.mods && tree@.links == end.links);
        lemma_finished(tree, visited, roots, db, resolver, files);
        tree.lemma_sound();
        if forest {
            let s = state_of(tree, visited, roots);
            assert(single(s, db, resolver, rank, -1));
            assert(tree.one_module_per_file());
            assert forall|m: int| 0 <= m < tree.mods@.len() && (#[trigger] tree.mods@[m]).parent is None implies exists|
                i: int,
            | 0 <= i < files.len() && tree.mods@[m].source == ModuleSource::File(#[trigger] files[i]) by {
                assert(s.fin.contains_key(m));
                assert(is_orphan(s, m));
                assert(known_file(s, db, resolver, rank, m));
                let x = module_key(s.mods, m)->0;
                assert(s.roots.contains_key(x));
                let i = choose|i: int| 0 <= i < files.len() && file_key(#[trigger] files[i]) == x;
                assert(tree.mods@[m].source == ModuleSource::File(files[i]));
            }
        }
    }
    Ok(tree)
}

/// The module tree of a source root, as the host hands it out: behind a
/// shared handle, or not at all if the query was called off.
pub fn module_tree<D: DescriptorDatabase>(db: &D, source_root: SourceRootId) -> (res: Result<
    Arc<ModuleTree>,
    Canceled,
>)
    requires
        no_declaration_cycle(
            db,
            &db.spec_source_root(source_root).file_resolver,
            db.spec_source_root(source_root).files@,
        ),
    ensures
        !db.spec_may_cancel() ==> res is Ok,
        res matches Ok(tree) ==> {
            &&& tree@ == module_tree_of(
                decls_of(db, &db.spec_source_root(source_root).file_resolver),
                db.spec_source_root(source_root).files@,
            )
            &&& tree.wf()
            &&& tree.parents_end()
            &&& tree.links_sound()
            &&& describes(&*tree, db, &db.spec_source_root(source_root).file_resolver)
            &&& tree.covers(db.spec_source_root(source_root).files@)
            &&& unique_declarations(
                db,
                &db.spec_source_root(source_root).file_resolver,
                db.spec_source_root(source_root).files@,
            ) ==> tree.one_module_per_file() && rooted(&*tree, db.spec_source_root(source_root).files@)
        },
{
    match db.check_canceled() {
        Ok(_) => {},
        Err(e) => {
            return Err(e);
        },
    }
    match create_module_tree(db, source_root) {
        Ok(tree) => Ok(Arc::new(tree)),
        Err(e) => Err(e),
    }
}

} // verus!
