//! The queries that this library answers for its host: the submodules that
//! a file declares, and the scope of a module.
use vstd::prelude::*;
use std::sync::Arc;
use crate::base::FileId;
use crate::base::SourceRootId;
use crate::database::Canceled;
use crate::database::DescriptorDatabase;
use crate::module_tree::ModuleId;
use crate::module_tree::ModuleSource;
use crate::paths::strings_view;
use crate::scope::scope_entries;
use crate::scope::ModuleScope;
use crate::scope::ScopeEntryView;
use crate::syntax::inline_modules_view;
use crate::syntax::module_decls_view;
use crate::syntax::raw_items_view;
use crate::syntax::FileSyntax;
use crate::syntax::FileSyntaxView;
use crate::syntax::InlineModule;
use crate::syntax::InlineModuleView;
use crate::syntax::ModuleDecl;
use crate::syntax::ModuleDeclView;
use crate::syntax::RawItem;
use crate::syntax::RawItemView;

verus! {

/// A submodule that a file declares without a body.
#[derive(Clone, Hash, PartialEq, Eq, Debug)]
pub struct Submodule {
    pub name: String,
}

/// The names of those of the first `n` declarations that end in a
/// semicolon and have a name, in order.
pub open spec fn declared_names(decls: Seq<ModuleDeclView>, n: int) -> Seq<Seq<char>>
    decreases n,
{
    if n <= 0 {
        Seq::empty()
    } else {
        let before = declared_names(decls, n - 1);
        match decls[n - 1].name {
            Some(name) => if decls[n - 1].has_semi {
                before.push(name)
            } else {
                before
            },
            None => before,
        }
    }
}

/// The names of the submodules that a file declares without a body, in
/// source order.
pub open spec fn submodules_of_syntax(syntax: FileSyntaxView) -> Seq<Seq<char>> {
    declared_names(syntax.modules, syntax.modules.len() as int)
}

/// The position of the first of the first `n` inline modules that covers
/// exactly the range from `start` to `end`, if there is one.
pub open spec fn inline_position(modules: Seq<InlineModuleView>, start: u32, end: u32, n: int) -> Option<int>
    decreases n,
{
    if n <= 0 {
        None
    } else {
        match inline_position(modules, start, end, n - 1) {
            Some(i) => Some(i),
            None => if modules[n - 1].start == start && modules[n - 1].end == end {
                Some(n - 1)
            } else {
                None
            },
        }
    }
}

/// The items of the inline module that covers exactly the range from
/// `start` to `end`: those of the first module with that range; none if
/// there is no such module.
pub open spec fn inline_items(modules: Seq<InlineModuleView>, start: u32, end: u32) -> Seq<RawItemView> {
    match inline_position(modules, start, end, modules.len() as int) {
        Some(i) => modules[i].items,
        None => Seq::empty(),
    }
}

/// The scope of a module whose text stands at `source`, in a file of
/// which `syntax` was read.
pub open spec fn scope_of(source: ModuleSource, syntax: FileSyntaxView) -> Seq<ScopeEntryView> {
    match source {
        ModuleSource::File(_) => scope_entries(syntax.items, syntax.items.len() as int),
        ModuleSource::Inline(ptr) => {
            let items = inline_items(syntax.inline_modules, ptr.start, ptr.end);
            scope_entries(items, items.len() as int)
        },
    }
}

/// The file that holds the text of a module.
pub open spec fn source_file(source: ModuleSource) -> FileId {
    match source {
        ModuleSource::File(file) => file,
        ModuleSource::Inline(ptr) => ptr.file_id,
    }
}

/// The submodules among the `mod` items of a file: those that end in a
/// semicolon. An item without a name is passed over.
pub fn modules(decls: &Vec<ModuleDecl>) -> (names: Vec<String>)
    ensures
        strings_view(names@) == declared_names(module_decls_view(decls@), decls@.len() as int),
{
    let ghost views = module_decls_view(decls@);
    let mut names: Vec<String> = Vec::new();
    let mut i: usize = 0;
    while i < decls.len()
        invariant
            0 <= i <= decls.len(),
            views == module_decls_view(decls@),
            strings_view(names@) == declared_names(views, i as int),
        decreases decls.len() - i,
    {
        let decl = &decls[i];
        assert(views[i as int] == decl@);
        match &decl.name {
            Some(name) => {
                if decl.has_semi {
                    let ghost before = strings_view(names@);
                    names.push(name.clone());
                    assert(strings_view(names@) =~= before.push(name@));
                }
            },
            None => {},
        }
        i += 1;
    }
    names
}

/// The names of the submodules that a file declares without a body, in
/// source order; nothing if the host calls the query off.
pub fn submodules<D: DescriptorDatabase>(db: &D, file_id: FileId) -> (res: Result<Arc<Vec<String>>, Canceled>)
    ensures
        !db.spec_may_cancel() ==> res is Ok,
        res matches Ok(names) ==> strings_view(names@) == submodules_of_syntax(db.spec_file_syntax(file_id)),
{
    match db.check_canceled() {
        Ok(_) => {},
        Err(e) => {
            return Err(e);
        },
    }
    let syntax = db.file_syntax(file_id);
    let names = modules(&syntax.modules);
    Ok(Arc::new(names))
}

/// The position of the first inline module that covers exactly the range
/// from `start` to `end`, if there is one.
pub fn find_inline(modules: &Vec<InlineModule>, start: u32, end: u32) -> (found: Option<usize>)
    ensures
        match found {
            Some(i) => inline_position(inline_modules_view(modules@), start, end, modules@.len() as int) == Some(
                i as int,
            ) && i < modules@.len(),
            None => inline_position(inline_modules_view(modules@), start, end, modules@.len() as int) is None,
        },
{
    let ghost views = inline_modules_view(modules@);
    let mut i: usize = 0;
    while i < modules.len()
        invariant
            0 <= i <= modules.len(),
            views == inline_modules_view(modules@),
            inline_position(views, start, end, i as int) is None,
        decreases modules.len() - i,
    {
        let module = &modules[i];
        assert(views[i as int] == module@);
        if module.start == start && module.end == end {
            proof {
                assert(inline_position(views, start, end, i as int + 1) == Some(i as int));
                lemma_inline_position_stable(views, start, end, i as int + 1, modules@.len() as int);
            }
            return Some(i);
        }
        i += 1;
    }
    None
}

/// Once the range is found, later modules change nothing.
proof fn lemma_inline_position_stable(modules: Seq<InlineModuleView>, start: u32, end: u32, n: int, m: int)
    requires
        0 <= n <= m,
        inline_position(modules, start, end, n) is Some,
    ensures
        inline_position(modules, start, end, m) == inline_position(modules, start, end, n),
    decreases m - n,
{
    if n < m {
        lemma_inline_position_stable(modules, start, end, n, m - 1);
    }
}

/// The scope of a module whose text stands at `source`, in a file of
/// which `syntax` was read.
pub fn scope_from_syntax(source: ModuleSource, syntax: &FileSyntax) -> (scope: ModuleScope)
    ensures
        scope@ == scope_of(source, syntax@),
{
    match source {
        ModuleSource::File(_) => ModuleScope::new(&syntax.items),
        ModuleSource::Inline(ptr) => {
            match find_inline(&syntax.inline_modules, ptr.start, ptr.end) {
                Some(i) => {
                    assert(inline_modules_view(syntax.inline_modules@)[i as int] == syntax.inline_modules@[i as int]@);
                    ModuleScope::new(&syntax.inline_modules[i].items)
                },
                None => {
                    let none: Vec<RawItem> = Vec::new();
                    assert(raw_items_view(none@) =~= Seq::<RawItemView>::empty());
                    ModuleScope::new(&none)
                },
            }
        },
    }
}

/// The scope of a module of the tree of a source root; nothing if the host
/// calls the query off. A host that has the tree and never calls a query
/// off is owed the scope.
pub fn module_scope<D: DescriptorDatabase>(db: &D, source_root_id: SourceRootId, module_id: ModuleId) -> (res:
    Result<Arc<ModuleScope>, Canceled>)
    requires
        module_id.0 < db.spec_module_tree(source_root_id).mods@.len(),
    ensures
        !db.spec_may_cancel() && db.spec_has_module_tree(source_root_id) ==> res is Ok,
        res matches Ok(scope) ==> {
            let source = db.spec_module_tree(source_root_id).mods@[module_id.0 as int].source;
            scope@ == scope_of(source, db.spec_file_syntax(source_file(source)))
        },
{
    let tree = match db.module_tree(source_root_id) {
        Ok(tree) => tree,
        Err(e) => {
            return Err(e);
        },
    };
    let source = tree.source(module_id);
    let file_id = match source {
        ModuleSource::File(file) => file,
        ModuleSource::Inline(ptr) => ptr.file_id,
    };
    let syntax = db.file_syntax(file_id);
    let scope = scope_from_syntax(source, &*syntax);
    Ok(Arc::new(scope))
}

} // verus!
