//! What a module tree is, apart from the numbers of its modules and links.
//!
//! Where no file is declared twice, the tree of a source root is fixed by
//! the files, their declarations and the resolver: two trees of the same
//! source root differ at most in how their modules and links are numbered.
use vstd::prelude::*;
use crate::base::FileId;
use crate::builder::child_described;
use crate::builder::describes;
use crate::builder::module_described;
use crate::builder::rooted;
use crate::database::DescriptorDatabase;
use crate::module_tree::children_ok;
use crate::module_tree::link_ok;
use crate::module_tree::links_to_ok;
use crate::module_tree::parent_ok;
use crate::module_tree::problem_view;
use crate::module_tree::ModuleSource;
use crate::module_tree::ModuleTree;
use crate::resolve::FileResolver;

verus! {

/// `tree` is a tree of the source root with the files `files`: sound, as
/// the declarations ask, with exactly one module for each file of the root,
/// no two modules for any file, and no root but for a file of the root.
pub open spec fn is_tree_of<D: DescriptorDatabase, R: FileResolver>(
    tree: &ModuleTree,
    db: &D,
    resolver: &R,
    files: Seq<FileId>,
) -> bool {
    &&& tree.wf()
    &&& describes(tree, db, resolver)
    &&& tree.covers(files)
    &&& tree.one_module_per_file()
    &&& rooted(tree, files)
}

/// Module `m1` of `t1` and module `m2` of `t2` stand for the same text.
pub open spec fn alike(t1: &ModuleTree, t2: &ModuleTree, m1: int, m2: int) -> bool {
    t1.mods@[m1].source == t2.mods@[m2].source
}

/// Module `m1` of `t1` has a counterpart in `t2`.
pub open spec fn has_twin(t1: &ModuleTree, t2: &ModuleTree, m1: int) -> bool {
    exists|m2: int| 0 <= m2 < t2.mods@.len() && #[trigger] alike(t1, t2, m1, m2)
}

/// Two links have the same name and problem and point to counterparts.
pub open spec fn links_alike(t1: &ModuleTree, t2: &ModuleTree, l1: int, l2: int) -> bool {
    &&& t1.links@[l1].name@ == t2.links@[l2].name@
    &&& problem_view(t1.links@[l1].problem) == problem_view(t2.links@[l2].problem)
    &&& t1.links@[l1].points_to@.len() == t2.links@[l2].points_to@.len()
    &&& forall|j: int|
        0 <= j < t1.links@[l1].points_to@.len() ==> alike(
            t1,
            t2,
            (#[trigger] t1.links@[l1].points_to@[j]).0 as int,
            t2.links@[l2].points_to@[j].0 as int,
        )
}

/// Two modules have as many children, alike one by one.
pub open spec fn children_alike(t1: &ModuleTree, t2: &ModuleTree, m1: int, m2: int) -> bool {
    &&& t1.mods@[m1].children@.len() == t2.mods@[m2].children@.len()
    &&& forall|i: int|
        0 <= i < t1.mods@[m1].children@.len() ==> links_alike(
            t1,
            t2,
            (#[trigger] t1.mods@[m1].children@[i]).0 as int,
            t2.mods@[m2].children@[i].0 as int,
        )
}

/// Link `l1` is child `i` of `o1`, and link `l2` is child `i` of `o2`.
pub open spec fn same_child(t1: &ModuleTree, t2: &ModuleTree, o1: int, o2: int, l1: int, l2: int, i: int) -> bool {
    &&& 0 <= i < t1.mods@[o1].children@.len()
    &&& i < t2.mods@[o2].children@.len()
    &&& t1.mods@[o1].children@[i].0 == l1
    &&& t2.mods@[o2].children@[i].0 == l2
}

/// Two modules are both roots, or both declared by the same declaration of
/// counterparts.
pub open spec fn parents_alike(t1: &ModuleTree, t2: &ModuleTree, m1: int, m2: int) -> bool {
    match (t1.mods@[m1].parent, t2.mods@[m2].parent) {
        (None, None) => true,
        (Some(l1), Some(l2)) => {
            let o1 = t1.links@[l1.0 as int].owner.0 as int;
            let o2 = t2.links@[l2.0 as int].owner.0 as int;
            alike(t1, t2, o1, o2) && exists|i: int| #[trigger] same_child(t1, t2, o1, o2, l1.0 as int, l2.0 as int, i)
        },
        _ => false,
    }
}

/// The two trees are the same but for the numbering: every module of one
/// has a counterpart in the other, and counterparts have the same children
/// and the same parent.
pub open spec fn same_shape(t1: &ModuleTree, t2: &ModuleTree) -> bool {
    &&& forall|m1: int| 0 <= m1 < t1.mods@.len() ==> #[trigger] has_twin(t1, t2, m1)
    &&& forall|m2: int| 0 <= m2 < t2.mods@.len() ==> #[trigger] has_twin(t2, t1, m2)
    &&& forall|m1: int, m2: int|
        0 <= m1 < t1.mods@.len() && 0 <= m2 < t2.mods@.len() && #[trigger] alike(t1, t2, m1, m2) ==> children_alike(
            t1,
            t2,
            m1,
            m2,
        ) && parents_alike(t1, t2, m1, m2)
}

/// Every module of one tree of a source root has a counterpart in any other.
proof fn lemma_twin<D: DescriptorDatabase, R: FileResolver>(
    t1: &ModuleTree,
    t2: &ModuleTree,
    db: &D,
    resolver: &R,
    files: Seq<FileId>,
    m1: int,
)
    requires
        is_tree_of(t1, db, resolver, files),
        is_tree_of(t2, db, resolver, files),
        0 <= m1 < t1.mods@.len(),
    ensures
        has_twin(t1, t2, m1),
    decreases t1.clock@ - t1.finish@[m1],
{
    assert(parent_ok(t1.mods@, t1.links@, t1.finish@, m1));
    match t1.mods@[m1].parent {
        None => {
            let k = choose|k: int| 0 <= k < files.len() && t1.mods@[m1].source == ModuleSource::File(#[trigger] files[k]);
            assert(t2.has_module(files[k]));
            let m2 = choose|m2: int| #[trigger] t2.is_module_of(m2, files[k]);
            assert(alike(t1, t2, m1, m2));
        },
        Some(l) => {
            let l1 = l.0 as int;
            let o1 = t1.links@[l1].owner.0 as int;
            assert(t1.finish@[o1] < t1.clock@);
            lemma_twin(t1, t2, db, resolver, files, o1);
            let o2 = choose|o2: int| 0 <= o2 < t2.mods@.len() && #[trigger] alike(t1, t2, o1, o2);
            lemma_declared_twin(t1, t2, db, resolver, m1, o2);
        },
    }
}

/// A module that is declared in one tree is declared, by the same
/// declaration, in any tree that has a counterpart of the declaring module.
proof fn lemma_declared_twin<D: DescriptorDatabase, R: FileResolver>(
    t1: &ModuleTree,
    t2: &ModuleTree,
    db: &D,
    resolver: &R,
    m1: int,
    o2: int,
)
    requires
        t1.wf(),
        t2.wf(),
        describes(t1, db, resolver),
        describes(t2, db, resolver),
        0 <= m1 < t1.mods@.len(),
        0 <= o2 < t2.mods@.len(),
        t1.mods@[m1].parent matches Some(l) && alike(t1, t2, t1.links@[l.0 as int].owner.0 as int, o2),
    ensures
        exists|i: int, j: int| #[trigger] declared_at(t1, t2, m1, o2, i, j),
{
    let l1 = match t1.mods@[m1].parent {
        Some(l) => l.0 as int,
        None => 0,
    };
    let o1 = t1.links@[l1].owner.0 as int;
    assert(parent_ok(t1.mods@, t1.links@, t1.finish@, m1));
    assert(link_ok(t1.mods@, t1.links@, l1));
    let i = choose|i: int| 0 <= i < t1.mods@[o1].children@.len() && (#[trigger] t1.mods@[o1].children@[i]).0 == l1;
    let j = choose|j: int| 0 <= j < t1.links@[l1].points_to@.len() && (#[trigger] t1.links@[l1].points_to@[j]).0 == m1;
    assert(module_described(t1.mods@, t1.links@, db, resolver, o1));
    assert(module_described(t2.mods@, t2.links@, db, resolver, o2));
    match t1.mods@[o1].source {
        ModuleSource::File(file) => {
            let names = db.spec_submodules(file);
            assert(child_described(t1.mods@, t1.links@, resolver, file, t1.mods@[o1].children@[i].0 as int, names[i]));
            let l2 = t2.mods@[o2].children@[i].0 as int;
            assert(child_described(t2.mods@, t2.links@, resolver, file, l2, names[i]));
            let m2 = t2.links@[l2].points_to@[j].0 as int;
            assert(children_ok(t2.mods@, t2.links@, o2));
            assert(link_ok(t2.mods@, t2.links@, l2));
            assert(links_to_ok(t2.mods@, t2.links@, l2));
            assert(t2.mods@[m2].parent == Some(t2.mods@[o2].children@[i]));
            assert(declared_at(t1, t2, m1, o2, i, j));
        },
        ModuleSource::Inline(_) => {},
    }
}

/// Module `m1` of `t1` is entry `j` of child `i` of its declaring module;
/// entry `j` of child `i` of `o2` in `t2` is a counterpart of `m1`, with
/// that child as parent.
pub open spec fn declared_at(t1: &ModuleTree, t2: &ModuleTree, m1: int, o2: int, i: int, j: int) -> bool {
    match t1.mods@[m1].parent {
        Some(l1) => {
            let o1 = t1.links@[l1.0 as int].owner.0 as int;
            &&& 0 <= i < t1.mods@[o1].children@.len()
            &&& t1.mods@[o1].children@[i] == l1
            &&& i < t2.mods@[o2].children@.len()
            &&& t2.mods@[o2].children@[i].0 < t2.links@.len()
            &&& t2.links@[t2.mods@[o2].children@[i].0 as int].owner.0 == o2
            &&& 0 <= j < t2.links@[t2.mods@[o2].children@[i].0 as int].points_to@.len()
            &&& t2.links@[t2.mods@[o2].children@[i].0 as int].points_to@[j].0 < t2.mods@.len()
            &&& alike(t1, t2, m1, t2.links@[t2.mods@[o2].children@[i].0 as int].points_to@[j].0 as int)
            &&& t2.mods@[t2.links@[t2.mods@[o2].children@[i].0 as int].points_to@[j].0 as int].parent == Some(
                t2.mods@[o2].children@[i],
            )
        },
        None => false,
    }
}

/// Counterparts have the same children.
proof fn lemma_children_alike<D: DescriptorDatabase, R: FileResolver>(
    t1: &ModuleTree,
    t2: &ModuleTree,
    db: &D,
    resolver: &R,
    m1: int,
    m2: int,
)
    requires
        describes(t1, db, resolver),
        describes(t2, db, resolver),
        0 <= m1 < t1.mods@.len(),
        0 <= m2 < t2.mods@.len(),
        alike(t1, t2, m1, m2),
    ensures
        children_alike(t1, t2, m1, m2),
{
    assert(module_described(t1.mods@, t1.links@, db, resolver, m1));
    assert(module_described(t2.mods@, t2.links@, db, resolver, m2));
    match t1.mods@[m1].source {
        ModuleSource::File(file) => {
            let names = db.spec_submodules(file);
            assert forall|i: int| 0 <= i < t1.mods@[m1].children@.len() implies links_alike(
                t1,
                t2,
                (#[trigger] t1.mods@[m1].children@[i]).0 as int,
                t2.mods@[m2].children@[i].0 as int,
            ) by {
                let l1 = t1.mods@[m1].children@[i].0 as int;
                let l2 = t2.mods@[m2].children@[i].0 as int;
                assert(child_described(t1.mods@, t1.links@, resolver, file, l1, names[i]));
                assert(child_described(t2.mods@, t2.links@, resolver, file, l2, names[i]));
                assert forall|j: int| 0 <= j < t1.links@[l1].points_to@.len() implies alike(
                    t1,
                    t2,
                    (#[trigger] t1.links@[l1].points_to@[j]).0 as int,
                    t2.links@[l2].points_to@[j].0 as int,
                ) by {
                    assert(t2.links@[l2].points_to@[j].0 < t2.mods@.len());
                }
            }
        },
        ModuleSource::Inline(_) => {},
    }
}

/// A module that is declared in one tree has a counterpart that is
/// declared by the same declaration.
proof fn lemma_parent_some<D: DescriptorDatabase, R: FileResolver>(
    t1: &ModuleTree,
    t2: &ModuleTree,
    db: &D,
    resolver: &R,
    files: Seq<FileId>,
    m1: int,
    m2: int,
)
    requires
        is_tree_of(t1, db, resolver, files),
        is_tree_of(t2, db, resolver, files),
        0 <= m1 < t1.mods@.len(),
        0 <= m2 < t2.mods@.len(),
        alike(t1, t2, m1, m2),
        t1.mods@[m1].parent is Some,
    ensures
        parents_alike(t1, t2, m1, m2),
{
    let l1 = match t1.mods@[m1].parent {
        Some(l) => l.0 as int,
        None => 0,
    };
    let o1 = t1.links@[l1].owner.0 as int;
    assert(parent_ok(t1.mods@, t1.links@, t1.finish@, m1));
    lemma_twin(t1, t2, db, resolver, files, o1);
    let o2 = choose|o2: int| 0 <= o2 < t2.mods@.len() && #[trigger] alike(t1, t2, o1, o2);
    lemma_declared_twin(t1, t2, db, resolver, m1, o2);
    let (i, j) = choose|i: int, j: int| #[trigger] declared_at(t1, t2, m1, o2, i, j);
    let l2 = t2.mods@[o2].children@[i].0 as int;
    let twin = t2.links@[l2].points_to@[j].0 as int;
    assert(t2.mods@[twin].source == t2.mods@[m2].source);
    assert(twin == m2);
    assert(same_child(t1, t2, o1, o2, l1, l2, i));
}

/// Two trees of one source root, where no file of it is declared twice,
/// are the same but for the numbering of their modules and links.
pub proof fn lemma_same_shape<D: DescriptorDatabase, R: FileResolver>(
    t1: &ModuleTree,
    t2: &ModuleTree,
    db: &D,
    resolver: &R,
    files: Seq<FileId>,
)
    requires
        is_tree_of(t1, db, resolver, files),
        is_tree_of(t2, db, resolver, files),
    ensures
        same_shape(t1, t2),
{
    assert forall|m1: int| 0 <= m1 < t1.mods@.len() implies #[trigger] has_twin(t1, t2, m1) by {
        lemma_twin(t1, t2, db, resolver, files, m1);
    }
    assert forall|m2: int| 0 <= m2 < t2.mods@.len() implies #[trigger] has_twin(t2, t1, m2) by {
        lemma_twin(t2, t1, db, resolver, files, m2);
    }
    assert forall|m1: int, m2: int|
        0 <= m1 < t1.mods@.len() && 0 <= m2 < t2.mods@.len() && #[trigger] alike(t1, t2, m1, m2) implies children_alike(
        t1,
        t2,
        m1,
        m2,
    ) && parents_alike(t1, t2, m1, m2) by {
        lemma_children_alike(t1, t2, db, resolver, m1, m2);
        if t1.mods@[m1].parent is Some {
            lemma_parent_some(t1, t2, db, resolver, files, m1, m2);
        } else if t2.mods@[m2].parent is Some {
            assert(alike(t2, t1, m2, m1));
            lemma_parent_some(t2, t1, db, resolver, files, m2, m1);
        }
    }
}

} // verus!
