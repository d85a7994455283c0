//! A host that keeps everything in memory: what was parsed of the files,
//! one source root, and the module tree once it has been built.
use vstd::prelude::*;
use std::sync::Arc;
use crate::base::FileId;
use crate::base::SourceRootId;
use crate::database::Canceled;
use crate::database::DescriptorDatabase;
use crate::module_tree::ModuleTree;
use crate::queries::modules;
use crate::queries::submodules_of_syntax;
use crate::resolve::FileResolver;
use crate::resolve::SourceRoot;
use crate::syntax::empty_syntax;
use crate::syntax::FileSyntax;
use crate::syntax::FileSyntaxView;

verus! {

/// `Arc::clone`: another handle to the same value.
#[verifier::external_body]
pub(crate) fn arc_clone<T>(handle: &Arc<T>) -> (copy: Arc<T>)
    ensures
        *copy == **handle,
{
    Arc::clone(handle)
}

/// What was parsed of one file.
pub struct FileEntry {
    pub file_id: FileId,
    pub syntax: Arc<FileSyntax>,
}

/// A module tree that is known to meet the invariant of a finished tree.
pub struct StoredTree {
    tree: Arc<ModuleTree>,
}

impl StoredTree {
    #[verifier::type_invariant]
    spec fn sound(self) -> bool {
        self.tree.wf()
    }

    /// The tree that is stored.
    pub closed spec fn spec_tree(&self) -> ModuleTree {
        *self.tree
    }

    /// Stores a finished tree.
    pub fn new(tree: Arc<ModuleTree>) -> (stored: StoredTree)
        requires
            tree.wf(),
        ensures
            stored.spec_tree() == *tree,
    {
        StoredTree { tree }
    }

    /// A handle to the tree, which meets the invariant of a finished tree.
    pub fn tree(&self) -> (tree: Arc<ModuleTree>)
        ensures
            *tree == self.spec_tree(),
            tree.wf(),
    {
        proof {
            use_type_invariant(self);
        }
        arc_clone(&self.tree)
    }
}

/// The host. Every key of a source root stands for the one root it holds.
pub struct MemoryDatabase<R: FileResolver> {
    pub root: Arc<SourceRoot<R>>,
    pub files: Vec<FileEntry>,
    /// The module tree of the root, once it is known.
    pub tree: Option<StoredTree>,
    /// Whether the host wants running queries to stop.
    pub canceled: bool,
}

/// What was parsed of `file` according to the first of the first `n`
/// entries that is about it; nothing if there is no such entry.
pub open spec fn syntax_of(files: Seq<FileEntry>, file: FileId, n: int) -> FileSyntaxView
    decreases n,
{
    if n <= 0 {
        empty_syntax()
    } else if has_entry(files, file, n - 1) {
        syntax_of(files, file, n - 1)
    } else if files[n - 1].file_id == file {
        (*files[n - 1].syntax)@
    } else {
        empty_syntax()
    }
}

/// One of the first `n` entries is about `file`.
pub open spec fn has_entry(files: Seq<FileEntry>, file: FileId, n: int) -> bool
    decreases n,
{
    if n <= 0 {
        false
    } else {
        has_entry(files, file, n - 1) || files[n - 1].file_id == file
    }
}

proof fn lemma_syntax_of_stable(files: Seq<FileEntry>, file: FileId, n: int, m: int)
    requires
        0 <= n <= m,
        has_entry(files, file, n),
    ensures
        has_entry(files, file, m),
        syntax_of(files, file, m) == syntax_of(files, file, n),
    decreases m - n,
{
    if n < m {
        lemma_syntax_of_stable(files, file, n, m - 1);
    }
}

proof fn lemma_syntax_of_none(files: Seq<FileEntry>, file: FileId, n: int)
    requires
        !has_entry(files, file, n),
    ensures
        syntax_of(files, file, n) == empty_syntax(),
    decreases n,
{
    if n > 0 {
        lemma_syntax_of_none(files, file, n - 1);
    }
}

impl<R: FileResolver> DescriptorDatabase for MemoryDatabase<R> {
    type Resolver = R;

    open spec fn spec_file_syntax(&self, file_id: FileId) -> FileSyntaxView {
        syntax_of(self.files@, file_id, self.files@.len() as int)
    }

    open spec fn spec_source_root(&self, id: SourceRootId) -> SourceRoot<R> {
        *self.root
    }

    open spec fn spec_submodules(&self, file_id: FileId) -> Seq<Seq<char>> {
        submodules_of_syntax(self.spec_file_syntax(file_id))
    }

    open spec fn spec_module_tree(&self, id: SourceRootId) -> ModuleTree {
        match self.tree {
            Some(stored) => stored.spec_tree(),
            None => arbitrary(),
        }
    }

    open spec fn spec_may_cancel(&self) -> bool {
        self.canceled
    }

    open spec fn spec_has_module_tree(&self, id: SourceRootId) -> bool {
        self.tree is Some
    }

    /// `Err` exactly when the host was told to call its queries off.
    fn check_canceled(&self) -> (res: Result<(), Canceled>)
        ensures
            res is Err <==> self.canceled,
    {
        if self.canceled {
            Err(Canceled)
        } else {
            Ok(())
        }
    }

    fn file_syntax(&self, file_id: FileId) -> (syntax: Arc<FileSyntax>) {
        let mut i: usize = 0;
        while i < self.files.len()
            invariant
                0 <= i <= self.files.len(),
                !has_entry(self.files@, file_id, i as int),
            decreases self.files.len() - i,
        {
            if self.files[i].file_id == file_id {
                proof {
                    lemma_syntax_of_stable(self.files@, file_id, i as int + 1, self.files@.len() as int);
                }
                return arc_clone(&self.files[i].syntax);
            }
            i += 1;
        }
        proof {
            lemma_syntax_of_none(self.files@, file_id, self.files@.len() as int);
        }
        Arc::new(FileSyntax::empty())
    }

    fn source_root(&self, id: SourceRootId) -> (root: Arc<SourceRoot<R>>) {
        arc_clone(&self.root)
    }

    fn submodules(&self, file_id: FileId) -> (names: Result<Arc<Vec<String>>, Canceled>) {
        if self.canceled {
            return Err(Canceled);
        }
        let syntax = self.file_syntax(file_id);
        Ok(Arc::new(modules(&syntax.modules)))
    }

    /// The tree that the host holds, whatever the key; `Err` exactly when
    /// it holds none.
    fn module_tree(&self, id: SourceRootId) -> (tree: Result<Arc<ModuleTree>, Canceled>)
        ensures
            match (tree, self.tree) {
                (Ok(handle), Some(held)) => *handle == held.spec_tree(),
                (Err(_), None) => true,
                _ => false,
            },
    {
        match &self.tree {
            Some(stored) => Ok(stored.tree()),
            None => Err(Canceled),
        }
    }
}

} // verus!
