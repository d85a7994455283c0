//! What the library reads of the syntax tree of a file.
//!
//! The library does not parse. The host parses each file and hands over,
//! as plain values, the part of the tree that the library works on: the
//! `mod` items at the top level, the items at the top level, and the `mod`
//! items anywhere in the file with the items of their bodies.
use vstd::prelude::*;

verus! {

/// A `mod` item at the top level of a file: its name, if it has one, and
/// whether it ends in a semicolon, that is, has no body of its own.
#[derive(Clone, Debug, PartialEq, Eq)]
pub struct ModuleDecl {
    pub name: Option<String>,
    pub has_semi: bool,
}

/// An item of a module: the kind of its syntax node, spelled as the parser
/// spells it, the name it declares, and the names it refers to, in source
/// order.
#[derive(Clone, Debug, PartialEq, Eq)]
pub struct RawItem {
    pub kind: String,
    pub name: Option<String>,
    pub name_refs: Vec<String>,
}

/// A `mod` item anywhere in a file: the range of text it covers and the
/// items of its body, none where it has no body.
#[derive(Clone, Debug, PartialEq, Eq)]
pub struct InlineModule {
    pub start: u32,
    pub end: u32,
    pub items: Vec<RawItem>,
}

/// What the library reads of one file.
#[derive(Clone, Debug, PartialEq, Eq)]
pub struct FileSyntax {
    /// The `mod` items at the top level, in source order.
    pub modules: Vec<ModuleDecl>,
    /// The items at the top level, in source order.
    pub items: Vec<RawItem>,
    /// The `mod` items anywhere in the file, in the order in which a walk
    /// of the tree enters them.
    pub inline_modules: Vec<InlineModule>,
}

/// Mathematical model of a [`ModuleDecl`].
pub struct ModuleDeclView {
    pub name: Option<Seq<char>>,
    pub has_semi: bool,
}

/// Mathematical model of a [`RawItem`].
pub struct RawItemView {
    pub kind: Seq<char>,
    pub name: Option<Seq<char>>,
    pub name_refs: Seq<Seq<char>>,
}

/// Mathematical model of an [`InlineModule`].
pub struct InlineModuleView {
    pub start: u32,
    pub end: u32,
    pub items: Seq<RawItemView>,
}

/// Mathematical model of a [`FileSyntax`].
pub struct FileSyntaxView {
    pub modules: Seq<ModuleDeclView>,
    pub items: Seq<RawItemView>,
    pub inline_modules: Seq<InlineModuleView>,
}

/// The text of an optional string.
pub open spec fn name_view(name: Option<String>) -> Option<Seq<char>> {
    match name {
        Some(n) => Some(n@),
        None => None,
    }
}

/// The texts of a vector of names.
pub open spec fn names_view(names: Seq<String>) -> Seq<Seq<char>> {
    names.map_values(|n: String| n@)
}

impl ModuleDecl {
    /// The declaration with its name as text.
    pub open spec fn view(&self) -> ModuleDeclView {
        ModuleDeclView { name: name_view(self.name), has_semi: self.has_semi }
    }
}

impl RawItem {
    /// The item with its strings as text.
    pub open spec fn view(&self) -> RawItemView {
        RawItemView { kind: self.kind@, name: name_view(self.name), name_refs: names_view(self.name_refs@) }
    }
}

/// The models of a vector of items.
pub open spec fn raw_items_view(items: Seq<RawItem>) -> Seq<RawItemView> {
    items.map_values(|item: RawItem| item@)
}

impl InlineModule {
    /// The module with its items as mathematical values.
    pub open spec fn view(&self) -> InlineModuleView {
        InlineModuleView { start: self.start, end: self.end, items: raw_items_view(self.items@) }
    }
}

/// The models of a vector of `mod` items.
pub open spec fn module_decls_view(decls: Seq<ModuleDecl>) -> Seq<ModuleDeclView> {
    decls.map_values(|decl: ModuleDecl| decl@)
}

/// The models of a vector of inline modules.
pub open spec fn inline_modules_view(modules: Seq<InlineModule>) -> Seq<InlineModuleView> {
    modules.map_values(|module: InlineModule| module@)
}

impl FileSyntax {
    /// The file with its parts as mathematical values.
    pub open spec fn view(&self) -> FileSyntaxView {
        FileSyntaxView {
            modules: module_decls_view(self.modules@),
            items: raw_items_view(self.items@),
            inline_modules: inline_modules_view(self.inline_modules@),
        }
    }

    /// What is read of a file that holds nothing.
    pub fn empty() -> (syntax: FileSyntax)
        ensures
            syntax@ == empty_syntax(),
    {
        let syntax = FileSyntax { modules: Vec::new(), items: Vec::new(), inline_modules: Vec::new() };
        assert(syntax@.modules =~= Seq::<ModuleDeclView>::empty());
        assert(syntax@.items =~= Seq::<RawItemView>::empty());
        assert(syntax@.inline_modules =~= Seq::<InlineModuleView>::empty());
        syntax
    }
}

/// The model of a file that holds nothing.
pub open spec fn empty_syntax() -> FileSyntaxView {
    FileSyntaxView { modules: Seq::empty(), items: Seq::empty(), inline_modules: Seq::empty() }
}

} // verus!
