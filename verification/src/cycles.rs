//! Looking for a file that is, through the declarations reached from a
//! source root, a submodule of itself.
//!
//! The module tree of such a source root cannot be built: the subtree of
//! the file would have to hold itself. The walk of this file finds out
//! beforehand. It enters each file once, follows its declarations, and
//! gives up as soon as a declaration leads back to a file that it has
//! entered and not yet left.
use vstd::prelude::*;
use rustc_hash::FxHashSet;
use std::sync::Arc;
use crate::base::FileId;
use crate::base::SourceRootId;
use crate::builder::create_module_tree;
use crate::builder::describes;
use crate::builder::file_key;
use crate::builder::is_target;
use crate::builder::no_declaration_cycle;
use crate::builder::ranked;
use crate::builder::rooted;
use crate::builder::target;
use crate::builder::unique_declarations;
use crate::collections::fx_set_contains;
use crate::collections::fx_set_insert;
use crate::collections::fx_set_new;
use crate::database::Canceled;
use crate::database::DescriptorDatabase;
use crate::growth::decls_of;
use crate::growth::module_tree_of;
use crate::module_tree::ModuleTree;
use crate::paths::strings_view;
use crate::resolve::candidates;
use crate::resolve::resolve_submodule;
use crate::resolve::FileResolver;
use crate::resolve::SourceRoot;

verus! {

/// `rank` falls along every declaration that is reached from `files`.
pub open spec fn well_ranked<D: DescriptorDatabase, R: FileResolver>(
    db: &D,
    resolver: &R,
    files: Seq<FileId>,
    rank: spec_fn(FileId) -> nat,
) -> bool {
    ranked(db, resolver, rank) && forall|k: int| 0 <= k < files.len() ==> rank(#[trigger] files[k]) > 0
}

/// The files that the walk has entered, those that it has left, and, ghost,
/// the order in which it left them.
struct Walk {
    entered: FxHashSet<usize>,
    done: FxHashSet<usize>,
    keys: Ghost<Set<int>>,
    left: Ghost<Map<FileId, nat>>,
    clock: Ghost<nat>,
}

/// The walk has entered `file` and not left it.
spec fn inside(w: Walk, file: FileId) -> bool {
    w.entered@.contains(file_key(file)) && !w.done@.contains(file_key(file))
}

/// Every file that the walk is inside of has, under any ranking, a higher
/// rank than `file`.
spec fn above<D: DescriptorDatabase, R: FileResolver>(
    w: Walk,
    db: &D,
    resolver: &R,
    files: Seq<FileId>,
    file: FileId,
) -> bool {
    forall|rank: spec_fn(FileId) -> nat, x: FileId|
        #[trigger] well_ranked(db, resolver, files, rank) && #[trigger] inside(w, x) ==> rank(x) > rank(file)
}

/// Every file that the walk has entered has, under any ranking, a rank
/// above zero.
spec fn reached<D: DescriptorDatabase, R: FileResolver>(
    w: Walk,
    db: &D,
    resolver: &R,
    files: Seq<FileId>,
) -> bool {
    forall|rank: spec_fn(FileId) -> nat, x: FileId|
        #[trigger] well_ranked(db, resolver, files, rank) && #[trigger] w.entered@.contains(file_key(x)) ==> rank(x)
            > 0
}

/// What holds of the walk between two visits.
spec fn walk_ok<D: DescriptorDatabase, R: FileResolver>(w: Walk, db: &D, resolver: &R, files: Seq<FileId>) -> bool {
    &&& w.keys@.finite()
    &&& forall|k: int| #[trigger] w.keys@.contains(k) ==> 0 <= k < 0x1_0000_0000
    &&& forall|k: usize| w.entered@.contains(k) <==> #[trigger] w.keys@.contains(k as int)
    &&& forall|k: usize| #[trigger] w.done@.contains(k) ==> w.entered@.contains(k)
    &&& forall|f: FileId| w.done@.contains(file_key(f)) <==> #[trigger] w.left@.contains_key(f)
    &&& forall|f: FileId| #[trigger] w.left@.contains_key(f) ==> w.left@[f] < w.clock@
    &&& forall|f: FileId, i: int, j: int|
        w.left@.contains_key(f) && is_target(db, resolver, f, i, j) ==> w.left@.contains_key(
            #[trigger] target(db, resolver, f, i, j),
        ) && w.left@[target(db, resolver, f, i, j)] < w.left@[f]
    &&& reached(w, db, resolver, files)
}

/// The walk `t` continues the walk `s`: it has entered and left what `s`
/// had, in the same order, and is inside of the same files.
spec fn continues(s: Walk, t: Walk) -> bool {
    &&& forall|k: int| s.keys@.contains(k) ==> #[trigger] t.keys@.contains(k)
    &&& forall|k: usize| s.entered@.contains(k) ==> #[trigger] t.entered@.contains(k)
    &&& forall|k: usize| s.done@.contains(k) ==> #[trigger] t.done@.contains(k)
    &&& forall|f: FileId| inside(s, f) <==> #[trigger] inside(t, f)
}

/// The set of all keys that a file can have.
spec fn all_keys() -> Set<int> {
    vstd::set_lib::set_int_range(0, 0x1_0000_0000)
}

proof fn lemma_keys_bounded(keys: Set<int>)
    requires
        forall|k: int| #[trigger] keys.contains(k) ==> 0 <= k < 0x1_0000_0000,
    ensures
        keys.finite(),
        keys.len() <= 0x1_0000_0000,
{
    vstd::set_lib::lemma_int_range(0, 0x1_0000_0000);
    assert(keys.subset_of(all_keys()));
    vstd::set_lib::lemma_len_subset(keys, all_keys());
}

proof fn lemma_keys_grow(old_keys: Set<int>, new_keys: Set<int>)
    requires
        forall|k: int| #[trigger] new_keys.contains(k) ==> 0 <= k < 0x1_0000_0000,
        forall|k: int| old_keys.contains(k) ==> #[trigger] new_keys.contains(k),
    ensures
        old_keys.len() <= new_keys.len(),
{
    lemma_keys_bounded(new_keys);
    assert(old_keys.subset_of(new_keys));
    vstd::set_lib::lemma_len_subset(old_keys, new_keys);
}

/// Follows the declarations of `file_id`, which the walk has not entered
/// yet. The answer is `false` as soon as a declaration leads to a file that
/// the walk is inside of.
fn visit<D: DescriptorDatabase, R: FileResolver>(
    db: &D,
    source_root: &SourceRoot<R>,
    walk: &mut Walk,
    file_id: FileId,
) -> (res: Result<bool, Canceled>)
    requires
        walk_ok(*old(walk), db, &source_root.file_resolver, source_root.files@),
        !old(walk).entered@.contains(file_key(file_id)),
        above(*old(walk), db, &source_root.file_resolver, source_root.files@, file_id),
        forall|rank: spec_fn(FileId) -> nat|
            #[trigger] well_ranked(db, &source_root.file_resolver, source_root.files@, rank) ==> rank(file_id) > 0,
    ensures
        !db.spec_may_cancel() ==> res is Ok,
        res matches Ok(acyclic) ==> if acyclic {
            &&& walk_ok(*final(walk), db, &source_root.file_resolver, source_root.files@)
            &&& continues(*old(walk), *final(walk))
            &&& final(walk).done@.contains(file_key(file_id))
        } else {
            forall|rank: spec_fn(FileId) -> nat|
                !#[trigger] well_ranked(db, &source_root.file_resolver, source_root.files@, rank)
        },
    decreases 0x1_0000_0000 - old(walk).keys@.len(),
{
    let resolver = &source_root.file_resolver;
    let ghost files = source_root.files@;
    let ghost w0 = *walk;
    let key = file_id.0 as usize;
    fx_set_insert(&mut walk.entered, key);
    proof {
        walk.keys@ = walk.keys@.insert(key as int);
        lemma_keys_bounded(walk.keys@);
        lemma_keys_bounded(w0.keys@);
        assert(!w0.keys@.contains(key as int));
        assert forall|f: FileId| walk.done@.contains(file_key(f)) implies f != file_id by {}
    }
    let ghost w1 = *walk;
    let names_arc = match db.submodules(file_id) {
        Ok(names) => names,
        Err(e) => {
            return Err(e);
        },
    };
    let names: &Vec<String> = &*names_arc;
    let ghost decls = db.spec_submodules(file_id);
    let mut i: usize = 0;
    while i < names.len()
        invariant
            0 <= i <= names.len(),
            resolver == &source_root.file_resolver,
            files == source_root.files@,
            strings_view(names@) == decls,
            decls == db.spec_submodules(file_id),
            key == file_key(file_id),
            walk_ok(*walk, db, resolver, files),
            continues(w1, *walk),
            inside(*walk, file_id),
            w1.keys@.len() == w0.keys@.len() + 1,
            w1.keys@.len() <= 0x1_0000_0000,
            w0 == *old(walk),
            above(w0, db, resolver, files, file_id),
            forall|f: FileId| inside(w1, f) <==> f == file_id || inside(w0, f),
            forall|a: int, b: int|
                0 <= a < i && is_target(db, resolver, file_id, a, b) ==> walk.left@.contains_key(
                    #[trigger] target(db, resolver, file_id, a, b),
                ),
        decreases names.len() - i,
    {
        let name = &names[i];
        assert(name@ == decls[i as int]);
        let (cands, _) = resolve_submodule(file_id, name, resolver);
        let mut j: usize = 0;
        while j < cands.len()
            invariant
                0 <= j <= cands.len(),
                0 <= i < names.len(),
                resolver == &source_root.file_resolver,
                files == source_root.files@,
                strings_view(names@) == decls,
                decls == db.spec_submodules(file_id),
                cands@ == candidates(resolver, file_id, decls[i as int]),
                key == file_key(file_id),
                walk_ok(*walk, db, resolver, files),
                continues(w1, *walk),
                inside(*walk, file_id),
                w1.keys@.len() == w0.keys@.len() + 1,
                w1.keys@.len() <= 0x1_0000_0000,
                w0 == *old(walk),
                above(w0, db, resolver, files, file_id),
                forall|f: FileId| inside(w1, f) <==> f == file_id || inside(w0, f),
                forall|a: int, b: int|
                    0 <= a < i && is_target(db, resolver, file_id, a, b) ==> walk.left@.contains_key(
                        #[trigger] target(db, resolver, file_id, a, b),
                    ),
                forall|b: int|
                    0 <= b < j ==> walk.left@.contains_key(#[trigger] target(db, resolver, file_id, i as int, b)),
            decreases cands.len() - j,
        {
            let cand = cands[j];
            assert(cand == target(db, resolver, file_id, i as int, j as int));
            assert(is_target(db, resolver, file_id, i as int, j as int));
            if !fx_set_contains(&walk.done, cand.0 as usize) {
                if fx_set_contains(&walk.entered, cand.0 as usize) {
                    proof {
                        assert(inside(*walk, cand));
                        assert(inside(w1, cand));
                        assert forall|rank: spec_fn(FileId) -> nat| !#[trigger] well_ranked(
                            db,
                            resolver,
                            files,
                            rank,
                        ) by {
                            if well_ranked(db, resolver, files, rank) {
                                assert(rank(file_id) > 0);
                                assert(0 < rank(candidates(resolver, file_id, db.spec_submodules(file_id)[i as int])[j as int])
                                    < rank(file_id));
                                if cand != file_id {
                                    assert(inside(w0, cand));
                                }
                            }
                        }
                    }
                    return Ok(false);
                }
                let ghost b = *walk;
                proof {
                    lemma_keys_grow(w1.keys@, b.keys@);
                    lemma_keys_bounded(b.keys@);
                    assert(!b.entered@.contains(file_key(cand)));
                    assert forall|rank: spec_fn(FileId) -> nat| #[trigger]
                        well_ranked(db, resolver, files, rank) implies rank(cand) > 0 by {
                        assert(rank(file_id) > 0);
                        assert(0 < rank(candidates(resolver, file_id, db.spec_submodules(file_id)[i as int])[j as int])
                            < rank(file_id));
                    }
                    assert forall|rank: spec_fn(FileId) -> nat, x: FileId|
                        #[trigger] well_ranked(db, resolver, files, rank) && #[trigger] inside(b, x) implies rank(x)
                        > rank(cand) by {
                        assert(rank(file_id) > 0);
                        assert(0 < rank(candidates(resolver, file_id, db.spec_submodules(file_id)[i as int])[j as int])
                            < rank(file_id));
                        assert(inside(w1, x));
                        if x != file_id {
                            assert(inside(w0, x));
                        }
                    }
                }
                match visit(db, source_root, walk, cand) {
                    Ok(true) => {
                        proof {
                            assert(walk.left@.contains_key(cand));
                            assert forall|f: FileId| inside(w1, f) <==> #[trigger] inside(*walk, f) by {
                                assert(inside(w1, f) <==> inside(b, f));
                                assert(inside(b, f) <==> inside(*walk, f));
                            }
                        }
                    },
                    Ok(false) => {
                        return Ok(false);
                    },
                    Err(e) => {
                        return Err(e);
                    },
                }
            }
            j += 1;
        }
        i += 1;
    }
    let ghost b = *walk;
    fx_set_insert(&mut walk.done, key);
    proof {
        walk.left@ = walk.left@.insert(file_id, walk.clock@);
        walk.clock@ = walk.clock@ + 1;
        assert forall|f: FileId| walk.done@.contains(file_key(f)) <==> #[trigger] walk.left@.contains_key(f) by {
            if f != file_id {
                assert(b.done@.contains(file_key(f)) <==> b.left@.contains_key(f));
            }
        }
        assert forall|f: FileId, x: int, y: int|
            walk.left@.contains_key(f) && is_target(db, resolver, f, x, y) implies walk.left@.contains_key(
            #[trigger] target(db, resolver, f, x, y),
        ) && walk.left@[target(db, resolver, f, x, y)] < walk.left@[f] by {
            let t = target(db, resolver, f, x, y);
            if f == file_id {
                assert(b.left@.contains_key(t));
                assert(t != file_id);
            } else {
                assert(b.left@.contains_key(t));
                assert(t != file_id);
            }
        }
        assert forall|rank: spec_fn(FileId) -> nat, x: FileId|
            #[trigger] well_ranked(db, resolver, files, rank) && #[trigger] walk.entered@.contains(
                file_key(x),
            ) implies rank(x) > 0 by {
            assert(b.entered@.contains(file_key(x)));
        }
        assert forall|f: FileId| inside(w0, f) <==> #[trigger] inside(*walk, f) by {
            assert(inside(w1, f) <==> inside(b, f));
        }
    }
    Ok(true)
}

/// Whether the module tree of a source root can be built: whether no file
/// is, through the declarations reached from the root, a submodule of
/// itself.
pub fn declarations_acyclic<D: DescriptorDatabase>(db: &D, source_root: SourceRootId) -> (res: Result<
    bool,
    Canceled,
>)
    ensures
        !db.spec_may_cancel() ==> res is Ok,
        res matches Ok(acyclic) ==> acyclic == no_declaration_cycle(
            db,
            &db.spec_source_root(source_root).file_resolver,
            db.spec_source_root(source_root).files@,
        ),
{
    let root_arc = db.source_root(source_root);
    let root: &SourceRoot<D::Resolver> = &*root_arc;
    let ghost resolver = &root.file_resolver;
    let ghost files = root.files@;
    let mut walk = Walk {
        entered: fx_set_new(),
        done: fx_set_new(),
        keys: Ghost(Set::empty()),
        left: Ghost(Map::empty()),
        clock: Ghost(0nat),
    };
    let mut k: usize = 0;
    while k < root.files.len()
        invariant
            0 <= k <= root.files.len(),
            *root == db.spec_source_root(source_root),
            resolver == &root.file_resolver,
            files == root.files@,
            walk_ok(walk, db, resolver, files),
            forall|f: FileId| !#[trigger] inside(walk, f),
            forall|i: int| 0 <= i < k ==> walk.left@.contains_key(#[trigger] files[i]),
        decreases root.files.len() - k,
    {
        let file_id = root.files[k];
        if !fx_set_contains(&walk.entered, file_id.0 as usize) {
            let ghost b = walk;
            match visit(db, root, &mut walk, file_id) {
                Ok(true) => {
                    proof {
                        assert forall|f: FileId| !#[trigger] inside(walk, f) by {
                            assert(inside(b, f) <==> inside(walk, f));
                        }
                        assert forall|i: int| 0 <= i < k + 1 implies walk.left@.contains_key(#[trigger] files[i]) by {
                            if i < k {
                                assert(b.left@.contains_key(files[i]));
                                assert(b.done@.contains(file_key(files[i])));
                            }
                        }
                    }
                },
                Ok(false) => {
                    proof {
                        if no_declaration_cycle(db, resolver, files) {
                            let rank = choose|rank: spec_fn(FileId) -> nat|
                                #[trigger] ranked(db, resolver, rank) && forall|k: int|
                                    0 <= k < files.len() ==> rank(#[trigger] files[k]) > 0;
                            assert(well_ranked(db, resolver, files, rank));
                        }
                    }
                    return Ok(false);
                },
                Err(e) => {
                    return Err(e);
                },
            }
        } else {
            proof {
                assert(!inside(walk, file_id));
            }
        }
        k += 1;
    }
    proof {
        let left = walk.left@;
        let rank = |f: FileId|
            if left.contains_key(f) {
                left[f] + 1
            } else {
                0nat
            };
        assert(ranked(db, resolver, rank)) by {
            assert forall|file: FileId, i: int, j: int|
                rank(file) > 0 && 0 <= i < db.spec_submodules(file).len() && 0 <= j < candidates(
                    resolver,
                    file,
                    db.spec_submodules(file)[i],
                ).len() implies 0 < rank(#[trigger] candidates(resolver, file, db.spec_submodules(file)[i])[j])
                < rank(file) by {
                assert(is_target(db, resolver, file, i, j));
                assert(left.contains_key(target(db, resolver, file, i, j)));
            }
        }
        assert forall|k: int| 0 <= k < files.len() implies rank(#[trigger] files[k]) > 0 by {
            assert(left.contains_key(files[k]));
        }
        assert(no_declaration_cycle(db, resolver, files));
    }
    Ok(true)
}

/// The module tree of a source root, if it can be built: `None` where a
/// file is, through the declarations reached from the root, a submodule of
/// itself; nothing if the host calls the query off.
pub fn checked_module_tree<D: DescriptorDatabase>(db: &D, source_root: SourceRootId) -> (res: Result<
    Option<Arc<ModuleTree>>,
    Canceled,
>)
    ensures
        !db.spec_may_cancel() ==> res is Ok,
        res matches Ok(found) ==> match found {
            Some(tree) => {
                &&& no_declaration_cycle(
                    db,
                    &db.spec_source_root(source_root).file_resolver,
                    db.spec_source_root(source_root).files@,
                )
                &&& tree@ == module_tree_of(
                    decls_of(db, &db.spec_source_root(source_root).file_resolver),
                    db.spec_source_root(source_root).files@,
                )
                &&& tree.parents_end()
                &&& tree.links_sound()
                &&& tree.wf()
                &&& describes(&*tree, db, &db.spec_source_root(source_root).file_resolver)
                &&& tree.covers(db.spec_source_root(source_root).files@)
                &&& unique_declarations(
                    db,
                    &db.spec_source_root(source_root).file_resolver,
                    db.spec_source_root(source_root).files@,
                ) ==> tree.one_module_per_file() && rooted(&*tree, db.spec_source_root(source_root).files@)
            },
            None => !no_declaration_cycle(
                db,
                &db.spec_source_root(source_root).file_resolver,
                db.spec_source_root(source_root).files@,
            ),
        },
{
    match db.check_canceled() {
        Ok(_) => {},
        Err(e) => {
            return Err(e);
        },
    }
    match declarations_acyclic(db, source_root) {
        Ok(true) => match create_module_tree(db, source_root) {
            Ok(tree) => {
                proof {
                    tree.lemma_sound();
                }
                Ok(Some(Arc::new(tree)))
            },
            Err(e) => Err(e),
        },
        Ok(false) => Ok(None),
        Err(e) => Err(e),
    }
}

} // verus!
