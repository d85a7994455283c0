//! The queries that the module tree asks of its host.
use vstd::prelude::*;
use std::sync::Arc;
use crate::base::FileId;
use crate::base::SourceRootId;
use crate::module_tree::ModuleTree;
use crate::paths::strings_view;
use crate::syntax::FileSyntax;
use crate::syntax::FileSyntaxView;
use crate::resolve::FileResolver;
use crate::resolve::SourceRoot;

verus! {

/// The answer of a query that was called off before it was done.
#[derive(Clone, Copy, Debug, PartialEq, Eq, Structural)]
pub struct Canceled;

/// The host: an engine that computes each query once, remembers the
/// answer, and may call any query off.
///
/// What a query answers is a function of the host's inputs; the spec
/// functions name those answers. Whether a query is called off is not: of
/// that the methods promise nothing, unless the host says that it never
/// calls a query off.
pub trait DescriptorDatabase {
    type Resolver: FileResolver;

    /// What the host has parsed of a file.
    open spec fn spec_file_syntax(&self, file_id: FileId) -> FileSyntaxView {
        arbitrary()
    }

    /// The files and the resolver of a source root.
    open spec fn spec_source_root(&self, id: SourceRootId) -> SourceRoot<Self::Resolver> {
        arbitrary()
    }

    /// The names of the submodules that a file declares without a body, in
    /// source order.
    open spec fn spec_submodules(&self, file_id: FileId) -> Seq<Seq<char>> {
        arbitrary()
    }

    /// The module tree of a source root, as the host remembers it. The
    /// host hands out only trees that meet the invariant of a finished
    /// tree.
    open spec fn spec_module_tree(&self, id: SourceRootId) -> ModuleTree {
        arbitrary()
    }

    /// Whether the host may call a query off. A host that never does says
    /// so here, and its queries are then owed an answer.
    open spec fn spec_may_cancel(&self) -> bool {
        true
    }

    /// Whether the host has the module tree of a source root, or can build
    /// it. A host that says so owes the tree whenever it does not call the
    /// query off.
    open spec fn spec_has_module_tree(&self, id: SourceRootId) -> bool {
        false
    }

    /// `Err` when the host wants the running query to stop.
    fn check_canceled(&self) -> (res: Result<(), Canceled>)
        ensures
            !self.spec_may_cancel() ==> res is Ok,
    ;

    fn file_syntax(&self, file_id: FileId) -> (syntax: Arc<FileSyntax>)
        ensures
            (*syntax)@ == self.spec_file_syntax(file_id),
    ;

    fn source_root(&self, id: SourceRootId) -> (root: Arc<SourceRoot<Self::Resolver>>)
        ensures
            *root == self.spec_source_root(id),
    ;

    fn submodules(&self, file_id: FileId) -> (names: Result<Arc<Vec<String>>, Canceled>)
        ensures
            names matches Ok(list) ==> strings_view(list@) == self.spec_submodules(file_id),
            !self.spec_may_cancel() ==> names is Ok,
    ;

    fn module_tree(&self, id: SourceRootId) -> (tree: Result<Arc<ModuleTree>, Canceled>)
        ensures
            tree matches Ok(t) ==> *t == self.spec_module_tree(id) && t.wf(),
            !self.spec_may_cancel() && self.spec_has_module_tree(id) ==> tree is Ok,
    ;
}

} // verus!
