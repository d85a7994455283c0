//! The items that a module declares directly.
use vstd::prelude::*;
use vstd::string::StringExecFns;
use crate::syntax::raw_items_view;
use crate::syntax::RawItem;
use crate::syntax::RawItemView;

verus! {

/// The kinds of item that a scope lists.
#[derive(Clone, Copy, Debug, PartialEq, Eq, Hash, Structural)]
pub enum ItemKind {
    Function,
    Struct,
    Enum,
    Trait,
    TypeAlias,
    Const,
    Static,
    Module,
    Use,
    ExternCrate,
}

/// One entry of a scope: a name and the kind of item that brings it in.
#[derive(Clone, Debug, PartialEq, Eq)]
pub struct ScopeEntry {
    pub name: String,
    pub kind: ItemKind,
}

/// Mathematical model of a [`ScopeEntry`].
pub struct ScopeEntryView {
    pub name: Seq<char>,
    pub kind: ItemKind,
}

impl ScopeEntry {
    /// The entry with its name as text.
    pub open spec fn view(&self) -> ScopeEntryView {
        ScopeEntryView { name: self.name@, kind: self.kind }
    }
}

/// The entries of a scope, in source order.
#[derive(Clone, Debug, PartialEq, Eq)]
pub struct ModuleScope {
    pub entries: Vec<ScopeEntry>,
}

/// The kind of item that a syntax node of kind `kind` declares. A node of
/// any other kind, an `impl` among them, declares nothing.
pub open spec fn kind_of(kind: Seq<char>) -> Option<ItemKind> {
    if kind == "FN_DEF"@ {
        Some(ItemKind::Function)
    } else if kind == "STRUCT_DEF"@ {
        Some(ItemKind::Struct)
    } else if kind == "ENUM_DEF"@ {
        Some(ItemKind::Enum)
    } else if kind == "TRAIT_DEF"@ {
        Some(ItemKind::Trait)
    } else if kind == "TYPE_DEF"@ {
        Some(ItemKind::TypeAlias)
    } else if kind == "CONST_DEF"@ {
        Some(ItemKind::Const)
    } else if kind == "STATIC_DEF"@ {
        Some(ItemKind::Static)
    } else if kind == "MODULE"@ {
        Some(ItemKind::Module)
    } else if kind == "USE_ITEM"@ {
        Some(ItemKind::Use)
    } else if kind == "EXTERN_CRATE_ITEM"@ {
        Some(ItemKind::ExternCrate)
    } else {
        None
    }
}

/// The name under which an item of kind `kind` is listed: the name it
/// declares; for an import or an `extern crate` without one, the last of
/// the names it refers to.
pub open spec fn listed_name(kind: ItemKind, item: RawItemView) -> Option<Seq<char>> {
    match item.name {
        Some(name) => Some(name),
        None => if (kind == ItemKind::Use || kind == ItemKind::ExternCrate) && item.name_refs.len() > 0 {
            Some(item.name_refs.last())
        } else {
            None
        },
    }
}

/// The entry that an item brings, if it brings one.
pub open spec fn entry_of(item: RawItemView) -> Option<ScopeEntryView> {
    match kind_of(item.kind) {
        Some(kind) => match listed_name(kind, item) {
            Some(name) => Some(ScopeEntryView { name, kind }),
            None => None,
        },
        None => None,
    }
}

/// The entries that the first `n` items bring, in order.
pub open spec fn scope_entries(items: Seq<RawItemView>, n: int) -> Seq<ScopeEntryView>
    decreases n,
{
    if n <= 0 {
        Seq::empty()
    } else {
        let before = scope_entries(items, n - 1);
        match entry_of(items[n - 1]) {
            Some(entry) => before.push(entry),
            None => before,
        }
    }
}

/// The kind of item that a syntax node of kind `kind` declares.
pub fn item_kind(kind: &String) -> (res: Option<ItemKind>)
    ensures
        res == kind_of(kind@),
{
    if *kind == String::from_str("FN_DEF") {
        Some(ItemKind::Function)
    } else if *kind == String::from_str("STRUCT_DEF") {
        Some(ItemKind::Struct)
    } else if *kind == String::from_str("ENUM_DEF") {
        Some(ItemKind::Enum)
    } else if *kind == String::from_str("TRAIT_DEF") {
        Some(ItemKind::Trait)
    } else if *kind == String::from_str("TYPE_DEF") {
        Some(ItemKind::TypeAlias)
    } else if *kind == String::from_str("CONST_DEF") {
        Some(ItemKind::Const)
    } else if *kind == String::from_str("STATIC_DEF") {
        Some(ItemKind::Static)
    } else if *kind == String::from_str("MODULE") {
        Some(ItemKind::Module)
    } else if *kind == String::from_str("USE_ITEM") {
        Some(ItemKind::Use)
    } else if *kind == String::from_str("EXTERN_CRATE_ITEM") {
        Some(ItemKind::ExternCrate)
    } else {
        None
    }
}

impl ModuleScope {
    /// The entries as mathematical values.
    pub open spec fn view(&self) -> Seq<ScopeEntryView> {
        self.entries@.map_values(|e: ScopeEntry| e@)
    }

    /// The scope of a module with these items.
    pub fn new(items: &Vec<RawItem>) -> (scope: ModuleScope)
        ensures
            scope@ == scope_entries(raw_items_view(items@), items@.len() as int),
    {
        let ghost views = raw_items_view(items@);
        let mut entries: Vec<ScopeEntry> = Vec::new();
        let mut i: usize = 0;
        while i < items.len()
            invariant
                0 <= i <= items.len(),
                views == raw_items_view(items@),
                entries@.map_values(|e: ScopeEntry| e@) == scope_entries(views, i as int),
            decreases items.len() - i,
        {
            let item = &items[i];
            assert(views[i as int] == item@);
            let ghost before = entries@.map_values(|e: ScopeEntry| e@);
            match item_kind(&item.kind) {
                Some(kind) => {
                    let name: Option<String> = match &item.name {
                        Some(name) => Some(name.clone()),
                        None => if (kind == ItemKind::Use || kind == ItemKind::ExternCrate)
                            && item.name_refs.len() > 0 {
                            let last = &item.name_refs[item.name_refs.len() - 1];
                            assert(item@.name_refs.last() == last@);
                            Some(last.clone())
                        } else {
                            None
                        },
                    };
                    match name {
                        Some(name) => {
                            let entry = ScopeEntry { name, kind };
                            entries.push(entry);
                            assert(entries@.map_values(|e: ScopeEntry| e@) =~= before.push(entry@));
                        },
                        None => {},
                    }
                },
                None => {},
            }
            i += 1;
        }
        ModuleScope { entries }
    }

    /// The entries, in source order.
    pub fn entries(&self) -> (entries: &Vec<ScopeEntry>)
        ensures
            *entries == self.entries,
    {
        &self.entries
    }
}

} // verus!
