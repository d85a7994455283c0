//! The tree of modules of one source root.
//!
//! The tree is held in two arrays. `mods` has an entry for each module,
//! `links` an entry for each `mod name;` declaration. A link is owned by the
//! module that holds the declaration and points to the modules that the
//! declaration was resolved to: none, one, or two.
use vstd::prelude::*;
use relative_path::RelativePathBuf;
use crate::base::FileId;
use crate::paths::relative_path_buf_text;
use crate::paths::strings_view;

verus! {

/// Index of a module in [`ModuleTree::mods`].
#[derive(Clone, Copy, Debug, PartialEq, Eq, Hash, PartialOrd, Ord, Structural)]
pub struct ModuleId(pub usize);

/// Index of a link in [`ModuleTree::links`].
#[derive(Clone, Copy, Debug, PartialEq, Eq, Hash, PartialOrd, Ord, Structural)]
pub struct LinkId(pub usize);

/// Place of a syntax node in a file: the file and the range of text that
/// the node covers. The node is found again by its range after the file has
/// been parsed anew.
#[derive(Clone, Copy, Debug, PartialEq, Eq, Hash, Structural)]
pub struct SyntaxPtr {
    pub file_id: FileId,
    pub start: u32,
    pub end: u32,
}

/// Where the text of a module stands: a file of its own, or a
/// `mod name { .. }` block inside a file.
#[derive(Clone, Copy, Debug, PartialEq, Eq, Hash, Structural)]
pub enum ModuleSource {
    File(FileId),
    Inline(SyntaxPtr),
}

/// What is wrong with a declaration.
#[derive(Clone, Debug, PartialEq, Eq)]
pub enum Problem {
    /// No file was found for the declaration. `candidate` is where the file
    /// was looked for first.
    UnresolvedModule { candidate: RelativePathBuf },
    /// The declaring file may not have submodules in files of their own
    /// until it is moved to `move_to`.
    NotDirOwner { move_to: RelativePathBuf, candidate: RelativePathBuf },
}

/// Mathematical model of a [`Problem`]: the paths as text.
pub enum ProblemView {
    UnresolvedModule { candidate: Seq<char> },
    NotDirOwner { move_to: Seq<char>, candidate: Seq<char> },
}

impl Problem {
    /// The problem with its paths as text.
    pub open spec fn view(&self) -> ProblemView {
        match *self {
            Problem::UnresolvedModule { candidate } => ProblemView::UnresolvedModule {
                candidate: relative_path_buf_text(candidate),
            },
            Problem::NotDirOwner { move_to, candidate } => ProblemView::NotDirOwner {
                move_to: relative_path_buf_text(move_to),
                candidate: relative_path_buf_text(candidate),
            },
        }
    }
}

/// The model of an optional problem.
pub open spec fn problem_view(problem: Option<Problem>) -> Option<ProblemView> {
    match problem {
        Some(p) => Some(p@),
        None => None,
    }
}

/// One module.
#[derive(Clone, Debug)]
pub struct ModuleData {
    pub source: ModuleSource,
    /// The declaration that this module was resolved from; `None` for a
    /// root.
    pub parent: Option<LinkId>,
    /// The declarations in this module, in source order.
    pub children: Vec<LinkId>,
}

/// One declaration of a submodule.
#[derive(Clone, Debug)]
pub struct LinkData {
    pub owner: ModuleId,
    pub name: String,
    pub points_to: Vec<ModuleId>,
    pub problem: Option<Problem>,
}

/// The tree. `finish` is ghost: it numbers the modules in the order in
/// which they were completed, so that a module is numbered before the module
/// that declares it. That numbering is what shows that the parent links end
/// at a root.
pub struct ModuleTree {
    pub mods: Vec<ModuleData>,
    pub links: Vec<LinkData>,
    pub finish: Ghost<Map<int, nat>>,
    pub clock: Ghost<nat>,
}

/// Link `l` is sound: its owner exists and lists it, it points to at most
/// two modules, to none exactly when it has a problem, to none twice, and
/// each module it points to names it as parent.
pub open spec fn link_ok(mods: Seq<ModuleData>, links: Seq<LinkData>, l: int) -> bool {
    &&& links[l].owner.0 < mods.len()
    &&& exists|i: int|
        0 <= i < mods[links[l].owner.0 as int].children@.len() && (
        #[trigger] mods[links[l].owner.0 as int].children@[i]).0 == l
    &&& links_to_ok(mods, links, l)
}

/// The part of [`link_ok`] that is about what the link points to.
pub open spec fn links_to_ok(mods: Seq<ModuleData>, links: Seq<LinkData>, l: int) -> bool {
    &&& links[l].points_to@.len() <= 2
    &&& (links[l].points_to@.len() == 0 <==> links[l].problem is Some)
    &&& forall|j: int|
        0 <= j < links[l].points_to@.len() ==> (#[trigger] links[l].points_to@[j]).0 < mods.len()
            && mods[links[l].points_to@[j].0 as int].parent == Some(LinkId(l as usize))
    &&& forall|j1: int, j2: int|
        0 <= j1 < j2 < links[l].points_to@.len() ==> (#[trigger] links[l].points_to@[j1]) != (
        #[trigger] links[l].points_to@[j2])
}

/// The children of module `m` are links of the tree, owned by `m`, each
/// listed once.
pub open spec fn children_ok(mods: Seq<ModuleData>, links: Seq<LinkData>, m: int) -> bool {
    &&& forall|i: int|
        0 <= i < mods[m].children@.len() ==> (#[trigger] mods[m].children@[i]).0 < links.len()
            && links[mods[m].children@[i].0 as int].owner.0 == m
    &&& forall|i1: int, i2: int|
        0 <= i1 < i2 < mods[m].children@.len() ==> (#[trigger] mods[m].children@[i1]) != (
        #[trigger] mods[m].children@[i2])
}

/// Link `l` lists module `m`.
pub open spec fn points_at(links: Seq<LinkData>, l: int, m: int) -> bool {
    exists|j: int| 0 <= j < links[l].points_to@.len() && (#[trigger] links[l].points_to@[j]).0 == m
}

/// The parent of module `m`, if it has one, is a link of the tree that
/// lists `m`, and the owner of that link was completed after `m`.
pub open spec fn parent_ok(mods: Seq<ModuleData>, links: Seq<LinkData>, finish: Map<int, nat>, m: int) -> bool {
    mods[m].parent matches Some(l) ==> {
        &&& l.0 < links.len()
        &&& points_at(links, l.0 as int, m)
        &&& links[l.0 as int].owner.0 < mods.len()
        &&& finish[links[l.0 as int].owner.0 as int] > finish[m]
    }
}

/// The module reached from `m` by following `n` parent links, as far as
/// there are that many.
pub open spec fn ancestor(mods: Seq<ModuleData>, links: Seq<LinkData>, m: int, n: nat) -> Option<int>
    decreases n,
{
    if n == 0 {
        Some(m)
    } else {
        match mods[m].parent {
            Some(l) => ancestor(mods, links, links[l.0 as int].owner.0 as int, (n - 1) as nat),
            None => None,
        }
    }
}

/// The names of the first `n` links on the way from `m` to its root.
pub open spec fn names_up(mods: Seq<ModuleData>, links: Seq<LinkData>, m: int, n: nat) -> Seq<Seq<char>>
    decreases n,
{
    if n == 0 {
        Seq::empty()
    } else {
        match mods[m].parent {
            Some(l) => seq![links[l.0 as int].name@] + names_up(
                mods,
                links,
                links[l.0 as int].owner.0 as int,
                (n - 1) as nat,
            ),
            None => Seq::empty(),
        }
    }
}

impl ModuleTree {
    /// The invariant of a finished tree.
    pub open spec fn wf(&self) -> bool {
        &&& forall|m: int| 0 <= m < self.mods@.len() ==> #[trigger] children_ok(self.mods@, self.links@, m)
        &&& forall|l: int| 0 <= l < self.links@.len() ==> #[trigger] link_ok(self.mods@, self.links@, l)
        &&& forall|m: int|
            0 <= m < self.mods@.len() ==> #[trigger] parent_ok(self.mods@, self.links@, self.finish@, m)
        &&& forall|m: int| 0 <= m < self.mods@.len() ==> #[trigger] self.finish@[m] < self.clock@
        &&& self.clock@ <= self.mods@.len()
    }

    /// From every module the parent links lead, in fewer steps than the
    /// tree has modules, to a module without parent.
    pub open spec fn parents_end(&self) -> bool {
        forall|m: int| 0 <= m < self.mods@.len() ==> #[trigger] self.near_root(m)
    }

    /// From module `m` the parent links lead, in fewer steps than the tree
    /// has modules, to a module without parent.
    pub open spec fn near_root(&self, m: int) -> bool {
        exists|n: nat| n < self.mods@.len() && #[trigger] self.root_distance(m, n)
    }

    /// Every link points to none, one or two modules, and to none exactly
    /// when it carries a problem.
    pub open spec fn links_sound(&self) -> bool {
        forall|l: int|
            0 <= l < self.links@.len() ==> (#[trigger] self.links@[l]).points_to@.len() <= 2 && (
            self.links@[l].points_to@.len() == 0 <==> self.links@[l].problem is Some)
    }

    /// What the invariant of a finished tree says of parents and links.
    pub proof fn lemma_sound(&self)
        requires
            self.wf(),
        ensures
            self.parents_end(),
            self.links_sound(),
    {
        assert forall|m: int| 0 <= m < self.mods@.len() implies #[trigger] self.near_root(m) by {
            self.lemma_parents_end_at_root(m);
            let n = choose|n: nat| n < self.clock@ - self.finish@[m] && self.root_distance(m, n);
            assert(n < self.mods@.len() && self.root_distance(m, n));
        }
        assert forall|l: int| 0 <= l < self.links@.len() implies (#[trigger] self.links@[l]).points_to@.len() <= 2
            && (self.links@[l].points_to@.len() == 0 <==> self.links@[l].problem is Some) by {
            self.lemma_link_arity(l);
        }
    }

    /// Module `m` stands for the file `file`.
    pub open spec fn is_module_of(&self, m: int, file: FileId) -> bool {
        0 <= m < self.mods@.len() && self.mods@[m].source == ModuleSource::File(file)
    }

    /// Some module stands for the file `file`.
    pub open spec fn has_module(&self, file: FileId) -> bool {
        exists|m: int| #[trigger] self.is_module_of(m, file)
    }

    /// Every file of `files` has a module.
    pub open spec fn covers(&self, files: Seq<FileId>) -> bool {
        forall|k: int| 0 <= k < files.len() ==> self.has_module(#[trigger] files[k])
    }

    /// No file has two modules.
    pub open spec fn one_module_per_file(&self) -> bool {
        forall|m1: int, m2: int|
            0 <= m1 < self.mods@.len() && 0 <= m2 < self.mods@.len() && (
            #[trigger] self.mods@[m1]).source == (#[trigger] self.mods@[m2]).source ==> m1 == m2
    }

    /// The root above `m` is `n` parent links away.
    pub open spec fn root_distance(&self, m: int, n: nat) -> bool {
        ancestor(self.mods@, self.links@, m, n) matches Some(a) && 0 <= a < self.mods@.len()
            && self.mods@[a].parent is None
    }

    /// Following the parent links from any module ends, after fewer steps
    /// than the tree has modules, at a module without parent.
    pub proof fn lemma_parents_end_at_root(&self, m: int)
        requires
            self.wf(),
            0 <= m < self.mods@.len(),
        ensures
            exists|n: nat| n < self.clock@ - self.finish@[m] && self.root_distance(m, n),
            self.clock@ <= self.mods@.len(),
        decreases self.clock@ - self.finish@[m],
    {
        assert(parent_ok(self.mods@, self.links@, self.finish@, m));
        match self.mods@[m].parent {
            Some(l) => {
                let o = self.links@[l.0 as int].owner.0 as int;
                assert(self.finish@[o] < self.clock@);
                self.lemma_parents_end_at_root(o);
                let n = choose|n: nat| n < self.clock@ - self.finish@[o] && self.root_distance(o, n);
                assert(self.root_distance(m, n + 1));
            },
            None => {
                assert(self.root_distance(m, 0));
            },
        }
    }

    /// Every link points to none, one or two modules, and to none exactly
    /// when it carries a problem.
    pub proof fn lemma_link_arity(&self, l: int)
        requires
            self.wf(),
            0 <= l < self.links@.len(),
        ensures
            self.links@[l].points_to@.len() <= 2,
            self.links@[l].points_to@.len() == 0 <==> self.links@[l].problem is Some,
    {
        assert(link_ok(self.mods@, self.links@, l));
    }

    /// Number of modules.
    pub fn len(&self) -> (n: usize)
        ensures
            n == self.mods@.len(),
    {
        self.mods.len()
    }

    /// The entry of a module.
    pub fn module(&self, id: ModuleId) -> (data: &ModuleData)
        requires
            id.0 < self.mods@.len(),
        ensures
            *data == self.mods@[id.0 as int],
    {
        &self.mods[id.0]
    }

    /// The entry of a link.
    pub fn link(&self, id: LinkId) -> (data: &LinkData)
        requires
            id.0 < self.links@.len(),
        ensures
            *data == self.links@[id.0 as int],
    {
        &self.links[id.0]
    }

    /// Where the text of a module stands.
    pub fn source(&self, id: ModuleId) -> (source: ModuleSource)
        requires
            id.0 < self.mods@.len(),
        ensures
            source == self.mods@[id.0 as int].source,
    {
        self.mods[id.0].source
    }

    /// The declaration that a module was resolved from.
    pub fn parent_link(&self, id: ModuleId) -> (link: Option<LinkId>)
        requires
            id.0 < self.mods@.len(),
        ensures
            link == self.mods@[id.0 as int].parent,
    {
        self.mods[id.0].parent
    }

    /// The declarations inside a module, in source order.
    pub fn children_links(&self, id: ModuleId) -> (links: &Vec<LinkId>)
        requires
            id.0 < self.mods@.len(),
        ensures
            *links == self.mods@[id.0 as int].children,
    {
        &self.mods[id.0].children
    }

    /// The module that declares `id`, if `id` is no root.
    pub fn parent(&self, id: ModuleId) -> (parent: Option<ModuleId>)
        requires
            self.wf(),
            id.0 < self.mods@.len(),
        ensures
            parent == match self.mods@[id.0 as int].parent {
                Some(l) => Some(self.links@[l.0 as int].owner),
                None => None,
            },
            parent matches Some(p) ==> p.0 < self.mods@.len(),
    {
        assert(parent_ok(self.mods@, self.links@, self.finish@, id.0 as int));
        match self.mods[id.0].parent {
            Some(l) => Some(self.links[l.0].owner),
            None => None,
        }
    }

    /// The root of the subtree that holds `id`.
    pub fn root(&self, id: ModuleId) -> (root: ModuleId)
        requires
            self.wf(),
            id.0 < self.mods@.len(),
        ensures
            exists|n: nat| ancestor(self.mods@, self.links@, id.0 as int, n) == Some(root.0 as int),
            root.0 < self.mods@.len(),
            self.mods@[root.0 as int].parent is None,
        decreases self.clock@ - self.finish@[id.0 as int],
    {
        assert(parent_ok(self.mods@, self.links@, self.finish@, id.0 as int));
        match self.mods[id.0].parent {
            Some(l) => {
                let owner = self.links[l.0].owner;
                assert(self.finish@[owner.0 as int] < self.clock@);
                let root = self.root(owner);
                proof {
                    let n = choose|n: nat| ancestor(self.mods@, self.links@, owner.0 as int, n) == Some(root.0 as int);
                    assert(ancestor(self.mods@, self.links@, id.0 as int, n + 1) == Some(root.0 as int));
                }
                root
            },
            None => {
                assert(ancestor(self.mods@, self.links@, id.0 as int, 0) == Some(id.0 as int));
                id
            },
        }
    }

    /// The names of the links from `id` up to its root, nearest first.
    pub fn path_to_root(&self, id: ModuleId) -> (path: Vec<String>)
        requires
            self.wf(),
            id.0 < self.mods@.len(),
        ensures
            exists|n: nat|
                self.root_distance(id.0 as int, n) && strings_view(path@) == names_up(
                    self.mods@,
                    self.links@,
                    id.0 as int,
                    n,
                ),
        decreases self.clock@ - self.finish@[id.0 as int],
    {
        assert(parent_ok(self.mods@, self.links@, self.finish@, id.0 as int));
        match self.mods[id.0].parent {
            Some(l) => {
                let owner = self.links[l.0].owner;
                assert(self.finish@[owner.0 as int] < self.clock@);
                let mut path = self.path_to_root(owner);
                let ghost rest = strings_view(path@);
                let name = self.links[l.0].name.clone();
                path.insert(0, name);
                proof {
                    let n = choose|n: nat|
                        self.root_distance(owner.0 as int, n) && rest == names_up(
                            self.mods@,
                            self.links@,
                            owner.0 as int,
                            n,
                        );
                    assert(self.root_distance(id.0 as int, n + 1));
                    assert(strings_view(path@) =~= seq![name@] + rest);
                }
                path
            },
            None => {
                let path: Vec<String> = Vec::new();
                proof {
                    assert(self.root_distance(id.0 as int, 0));
                    assert(strings_view(path@) =~= names_up(self.mods@, self.links@, id.0 as int, 0));
                }
                path
            },
        }
    }

    /// A tree without modules.
    pub fn new() -> (tree: ModuleTree)
        ensures
            tree.mods@.len() == 0,
            tree.links@.len() == 0,
            tree.wf(),
            tree.finish@ == Map::<int, nat>::empty(),
    {
        ModuleTree { mods: Vec::new(), links: Vec::new(), finish: Ghost(Map::empty()), clock: Ghost(0nat) }
    }

    /// Appends a module and returns its index.
    pub(crate) fn push_mod(&mut self, data: ModuleData) -> (id: ModuleId)
        ensures
            id.0 == old(self).mods@.len(),
            final(self).mods@ == old(self).mods@.push(data),
            final(self).links == old(self).links,
            final(self).finish == old(self).finish,
            final(self).clock == old(self).clock,
    {
        let id = ModuleId(self.mods.len());
        self.mods.push(data);
        id
    }

    /// Appends a link, enters it in the children of its owner, and returns
    /// its index.
    pub(crate) fn push_link(&mut self, data: LinkData) -> (id: LinkId)
        requires
            data.owner.0 < old(self).mods@.len(),
        ensures
            id.0 == old(self).links@.len(),
            final(self).links@ == old(self).links@.push(data),
            final(self).mods@.len() == old(self).mods@.len(),
            forall|m: int|
                0 <= m < old(self).mods@.len() && m != data.owner.0 ==> final(self).mods@[m] == old(
                    self,
                ).mods@[m],
            final(self).mods@[data.owner.0 as int].source == old(self).mods@[data.owner.0 as int].source,
            final(self).mods@[data.owner.0 as int].parent == old(self).mods@[data.owner.0 as int].parent,
            final(self).mods@[data.owner.0 as int].children@ == old(self).mods@[data.owner.0 as int].children@.push(
                id,
            ),
            final(self).finish == old(self).finish,
            final(self).clock == old(self).clock,
    {
        let id = LinkId(self.links.len());
        let owner = data.owner.0;
        self.mods[owner].children.push(id);
        self.links.push(data);
        id
    }
}

} // verus!
