use std::sync::Arc;

use ra_project_model::base::{FileId, SourceRootId};
use ra_project_model::builder::{create_module_tree, module_tree};
use ra_project_model::cycles::{checked_module_tree, declarations_acyclic};
use ra_project_model::database::{Canceled, DescriptorDatabase};
use ra_project_model::memory::{FileEntry, MemoryDatabase, StoredTree};
use ra_project_model::module_tree::{
    LinkData, LinkId, ModuleData, ModuleId, ModuleSource, ModuleTree, Problem, SyntaxPtr,
};
use ra_project_model::queries::{module_scope, modules, submodules, Submodule};
use ra_project_model::resolve::{resolve_submodule, FileResolver, SourceRoot};
use ra_project_model::scope::{item_kind, ItemKind, ModuleScope, ScopeEntry};
use ra_project_model::syntax::{FileSyntax, InlineModule, ModuleDecl, RawItem};
use ra_syntax::ast::{AstNode, Module, ModuleItemOwner, Name, NameOwner, NameRef};
use ra_syntax::{File, SyntaxNodeRef};
use relative_path::{RelativePath, RelativePathBuf};

fn raw_item(node: SyntaxNodeRef) -> RawItem {
    RawItem {
        kind: format!("{:?}", node.kind()),
        name: node.children().find_map(Name::cast).map(|n| n.text().to_string()),
        name_refs: node.descendants().filter_map(NameRef::cast).map(|n| n.text().to_string()).collect(),
    }
}

/// Parses `text` and reads from the tree what the library asks of a host.
fn parse(text: &str) -> FileSyntax {
    let file = File::parse(text);
    FileSyntax {
        modules: file
            .ast()
            .modules()
            .map(|m| ModuleDecl { name: m.name().map(|n| n.text().to_string()), has_semi: m.has_semi() })
            .collect(),
        items: file.ast().items().map(|it| raw_item(it.syntax())).collect(),
        inline_modules: file
            .syntax()
            .descendants()
            .filter_map(Module::cast)
            .map(|m| InlineModule {
                start: m.syntax().range().start().into(),
                end: m.syntax().range().end().into(),
                items: m.item_list().into_iter().flat_map(|l| l.items()).map(|it| raw_item(it.syntax())).collect(),
            })
            .collect(),
    }
}

/// Files by path, as a host would know them.
#[derive(Clone)]
struct Files {
    paths: Vec<(FileId, &'static str)>,
}

fn normalize(path: &str) -> String {
    RelativePath::new(path).normalize().as_str().to_string()
}

impl Files {
    fn id(&self, path: &str) -> FileId {
        self.paths.iter().find(|(_, p)| *p == path).unwrap().0
    }

    fn path(&self, file_id: FileId) -> &'static str {
        self.paths.iter().find(|(id, _)| *id == file_id).unwrap().1
    }
}

impl FileResolver for Files {
    fn file_stem(&self, file_id: FileId) -> String {
        RelativePath::new(self.path(file_id)).file_stem().unwrap().to_string()
    }

    fn resolve(&self, file_id: FileId, path: &RelativePath) -> Option<FileId> {
        let target = normalize(RelativePath::new(self.path(file_id)).join(path).as_str());
        self.paths.iter().find(|(_, p)| normalize(p) == target).map(|(id, _)| *id)
    }
}

/// A host over `files`, given as (path, text) in the order in which the
/// source root lists them.
fn host(files: &[(&'static str, &'static str)]) -> MemoryDatabase<Files> {
    let resolver =
        Files { paths: files.iter().enumerate().map(|(i, (p, _))| (FileId(i as u32 + 1), *p)).collect() };
    let order: Vec<FileId> = resolver.paths.iter().map(|(id, _)| *id).collect();
    let files = files
        .iter()
        .map(|(p, text)| FileEntry { file_id: resolver.id(p), syntax: Arc::new(parse(text)) })
        .collect();
    MemoryDatabase {
        root: Arc::new(SourceRoot { file_resolver: resolver, files: order }),
        files,
        tree: None,
        canceled: false,
    }
}

fn build(host: &MemoryDatabase<Files>) -> ModuleTree {
    create_module_tree(host, SourceRootId(0)).ok().unwrap()
}

fn module_of(tree: &ModuleTree, host: &MemoryDatabase<Files>, path: &str) -> usize {
    let file = host.root.file_resolver.id(path);
    let found: Vec<usize> =
        (0..tree.mods.len()).filter(|m| tree.mods[*m].source == ModuleSource::File(file)).collect();
    assert_eq!(found.len(), 1, "{} has {} modules", path, found.len());
    found[0]
}

fn path_of(tree: &ModuleTree, host: &MemoryDatabase<Files>, module: ModuleId) -> &'static str {
    match tree.mods[module.0].source {
        ModuleSource::File(file) => host.root.file_resolver.path(file),
        ModuleSource::Inline(_) => panic!("the builder makes no inline module"),
    }
}

/// The tree without the numbers of its modules and links: for each file its
/// parent, as (declaring file, position of the declaration), and its links,
/// as (name, files pointed to, problem).
type Shape = Vec<(&'static str, Option<(&'static str, usize)>, Vec<(String, Vec<&'static str>, Option<Problem>)>)>;

fn shape(tree: &ModuleTree, host: &MemoryDatabase<Files>) -> Shape {
    let mut shape: Shape = (0..tree.mods.len())
        .map(|m| {
            let module = &tree.mods[m];
            let parent = module.parent.map(|link| {
                let owner = tree.links[link.0].owner;
                let position = tree.mods[owner.0].children.iter().position(|l| *l == link).unwrap();
                (path_of(tree, host, owner), position)
            });
            let links = module
                .children
                .iter()
                .map(|link| {
                    let link = &tree.links[link.0];
                    let files = link.points_to.iter().map(|m| path_of(tree, host, *m)).collect();
                    (link.name.clone(), files, link.problem.clone())
                })
                .collect();
            (path_of(tree, host, ModuleId(m)), parent, links)
        })
        .collect();
    shape.sort_by_key(|entry| entry.0);
    shape
}

#[test]
fn single_file_crate_has_one_root_and_no_links() {
    let host = host(&[("lib.rs", "fn main() {}")]);
    let tree = build(&host);
    assert_eq!(tree.len(), 1);
    assert_eq!(tree.links.len(), 0);
    assert_eq!(tree.mods[0].source, ModuleSource::File(FileId(1)));
    assert_eq!(tree.mods[0].parent, None);
    assert!(tree.mods[0].children.is_empty());
}

#[test]
fn file_form_submodule_is_resolved() {
    let host = host(&[("lib.rs", "mod foo;"), ("foo.rs", "")]);
    let tree = build(&host);
    assert_eq!(tree.len(), 2);
    assert_eq!(tree.links.len(), 1);
    let root = module_of(&tree, &host, "lib.rs");
    assert_eq!(tree.mods[root].parent, None);
    assert_eq!(tree.mods[root].children, vec![LinkId(0)]);
    let link = &tree.links[0];
    assert_eq!(link.name, "foo");
    assert_eq!(link.owner, ModuleId(root));
    assert_eq!(link.points_to, vec![ModuleId(module_of(&tree, &host, "foo.rs"))]);
    assert_eq!(link.problem, None);
    let child = &tree.mods[link.points_to[0].0];
    assert_eq!(child.parent, Some(LinkId(0)));
    assert!(child.children.is_empty());
}

#[test]
fn directory_form_submodule_is_resolved_and_owns_its_directory() {
    let host = host(&[("lib.rs", "mod foo;"), ("foo/mod.rs", "mod bar;"), ("foo/bar.rs", "")]);
    let tree = build(&host);
    assert_eq!(tree.len(), 3);
    let root = module_of(&tree, &host, "lib.rs");
    let foo = module_of(&tree, &host, "foo/mod.rs");
    let bar = module_of(&tree, &host, "foo/bar.rs");
    let link = &tree.links[tree.mods[root].children[0].0];
    assert_eq!(link.name, "foo");
    assert_eq!(link.points_to, vec![ModuleId(foo)]);
    assert_eq!(link.problem, None);
    let inner = &tree.links[tree.mods[foo].children[0].0];
    assert_eq!(inner.name, "bar");
    assert_eq!(inner.points_to, vec![ModuleId(bar)]);
    assert_eq!(inner.problem, None);
}

#[test]
fn both_forms_are_reported_file_form_first() {
    let host = host(&[("lib.rs", "mod foo;"), ("foo/mod.rs", ""), ("foo.rs", "")]);
    let tree = build(&host);
    let root = module_of(&tree, &host, "lib.rs");
    let link = &tree.links[tree.mods[root].children[0].0];
    assert_eq!(link.points_to.len(), 2);
    assert_eq!(path_of(&tree, &host, link.points_to[0]), "foo.rs");
    assert_eq!(path_of(&tree, &host, link.points_to[1]), "foo/mod.rs");
    assert_eq!(link.problem, None);
    for module in &link.points_to {
        assert_eq!(tree.mods[module.0].parent, Some(tree.mods[root].children[0]));
    }
}

#[test]
fn file_that_owns_no_directory_cannot_declare_submodules() {
    let host = host(&[("lib.rs", "mod foo;"), ("foo.rs", "mod bar;"), ("bar.rs", "")]);
    let tree = build(&host);
    let root = module_of(&tree, &host, "lib.rs");
    let foo = module_of(&tree, &host, "foo.rs");
    assert_eq!(tree.links[tree.mods[root].children[0].0].points_to, vec![ModuleId(foo)]);
    let inner = &tree.links[tree.mods[foo].children[0].0];
    assert_eq!(inner.name, "bar");
    assert!(inner.points_to.is_empty());
    assert_eq!(
        inner.problem,
        Some(Problem::NotDirOwner {
            move_to: RelativePathBuf::from("../foo/mod.rs"),
            candidate: RelativePathBuf::from("../bar.rs"),
        })
    );
    let bar = module_of(&tree, &host, "bar.rs");
    assert_eq!(tree.mods[bar].parent, None);
}

#[test]
fn child_visited_before_its_parent_is_adopted() {
    let in_order = host(&[("lib.rs", "mod foo;"), ("foo.rs", "")]);
    let out_of_order = host(&[("foo.rs", ""), ("lib.rs", "mod foo;")]);
    let first = build(&in_order);
    let second = build(&out_of_order);
    assert_eq!(second.len(), 2);
    assert_eq!(second.mods[0].source, ModuleSource::File(out_of_order.root.file_resolver.id("foo.rs")));
    assert_eq!(second.mods[0].parent, Some(LinkId(0)));
    assert_eq!(second.links[0].points_to, vec![ModuleId(0)]);
    assert_eq!(shape(&first, &in_order), shape(&second, &out_of_order));
}

#[test]
fn unresolved_declaration_carries_the_candidate() {
    let host = host(&[("main.rs", "mod missing;")]);
    let tree = build(&host);
    let link = &tree.links[0];
    assert!(link.points_to.is_empty());
    assert_eq!(
        link.problem,
        Some(Problem::UnresolvedModule { candidate: RelativePathBuf::from("../missing.rs") })
    );
}

#[test]
fn resolve_submodule_follows_the_directory_owner_rule() {
    let host = host(&[("lib.rs", ""), ("foo.rs", ""), ("foo/mod.rs", ""), ("bar.rs", ""), ("sub/mod.rs", ""), ("sub/x.rs", "")]);
    let files = &host.root.file_resolver;
    let (points_to, problem) = resolve_submodule(files.id("lib.rs"), &"foo".to_string(), files);
    assert_eq!(points_to, vec![files.id("foo.rs"), files.id("foo/mod.rs")]);
    assert_eq!(problem, None);
    let (points_to, problem) = resolve_submodule(files.id("sub/mod.rs"), &"x".to_string(), files);
    assert_eq!(points_to, vec![files.id("sub/x.rs")]);
    assert_eq!(problem, None);
    let (points_to, problem) = resolve_submodule(files.id("lib.rs"), &"nope".to_string(), files);
    assert!(points_to.is_empty());
    assert_eq!(problem, Some(Problem::UnresolvedModule { candidate: RelativePathBuf::from("../nope.rs") }));
    let (points_to, problem) = resolve_submodule(files.id("foo.rs"), &"bar".to_string(), files);
    assert!(points_to.is_empty());
    assert_eq!(
        problem,
        Some(Problem::NotDirOwner {
            move_to: RelativePathBuf::from("../foo/mod.rs"),
            candidate: RelativePathBuf::from("../bar.rs"),
        })
    );
}

#[test]
fn every_file_has_exactly_one_module() {
    let host = host(&[
        ("b.rs", ""),
        ("lib.rs", "mod a; mod b;"),
        ("a/mod.rs", "mod c;"),
        ("a/c.rs", ""),
        ("stray.rs", "mod x;"),
    ]);
    let tree = build(&host);
    assert_eq!(tree.len(), 5);
    for (_, path) in &host.root.file_resolver.paths {
        module_of(&tree, &host, path);
    }
}

#[test]
fn file_declared_by_two_files_has_a_module_under_each() {
    let host = host(&[("lib.rs", "mod foo;"), ("main.rs", "mod foo;"), ("foo.rs", "")]);
    let tree = build(&host);
    assert_eq!(tree.len(), 4);
    let foo = host.root.file_resolver.id("foo.rs");
    let modules: Vec<usize> =
        (0..tree.len()).filter(|m| tree.mods[*m].source == ModuleSource::File(foo)).collect();
    assert_eq!(modules.len(), 2);
    let parents: Vec<&str> =
        modules.iter().map(|m| path_of(&tree, &host, tree.parent(ModuleId(*m)).unwrap())).collect();
    assert_eq!(parents, vec!["lib.rs", "main.rs"]);
}

#[test]
fn parent_links_end_at_a_root() {
    let host = host(&[("a/b/mod.rs", "mod c;"), ("a/b/c.rs", ""), ("a/mod.rs", "mod b;"), ("lib.rs", "mod a;")]);
    let tree = build(&host);
    let root = module_of(&tree, &host, "lib.rs");
    for m in 0..tree.len() {
        let mut at = ModuleId(m);
        let mut steps = 0;
        while let Some(parent) = tree.parent(at) {
            at = parent;
            steps += 1;
            assert!(steps <= tree.len());
        }
        assert_eq!(at, ModuleId(root));
        assert_eq!(tree.root(ModuleId(m)), ModuleId(root));
    }
    let c = module_of(&tree, &host, "a/b/c.rs");
    assert_eq!(tree.path_to_root(ModuleId(c)), vec!["c".to_string(), "b".to_string(), "a".to_string()]);
    assert!(tree.path_to_root(ModuleId(root)).is_empty());
    assert_eq!(tree.parent(ModuleId(root)), None);
    assert_eq!(tree.parent_link(ModuleId(root)), None);
    assert_eq!(tree.source(ModuleId(c)), ModuleSource::File(host.root.file_resolver.id("a/b/c.rs")));
    assert_eq!(tree.children_links(ModuleId(root)).len(), 1);
    let link = tree.children_links(ModuleId(root))[0];
    assert_eq!(tree.link(link).name, "a");
    assert_eq!(tree.module(ModuleId(root)).children, vec![link]);
}

#[test]
fn a_link_points_nowhere_exactly_when_it_has_a_problem() {
    let host = host(&[
        ("lib.rs", "mod foo; mod gone; mod both;"),
        ("foo.rs", "mod inner;"),
        ("both.rs", ""),
        ("both/mod.rs", ""),
    ]);
    let tree = build(&host);
    assert_eq!(tree.links.len(), 4);
    for link in &tree.links {
        assert!(link.points_to.len() <= 2);
        assert_eq!(link.points_to.is_empty(), link.problem.is_some());
    }
    let lengths: Vec<usize> = tree.links.iter().map(|l| l.points_to.len()).collect();
    assert_eq!(lengths.iter().filter(|n| **n == 0).count(), 2);
    assert_eq!(lengths.iter().filter(|n| **n == 1).count(), 1);
    assert_eq!(lengths.iter().filter(|n| **n == 2).count(), 1);
}

#[test]
fn the_tree_does_not_depend_on_the_order_of_the_files() {
    let files: [(&'static str, &'static str); 5] = [
        ("lib.rs", "mod a; mod b; mod missing;"),
        ("a/mod.rs", "mod c;"),
        ("a/c.rs", ""),
        ("b.rs", "mod d;"),
        ("d.rs", ""),
    ];
    let forward = host(&files);
    let mut reversed_files = files;
    reversed_files.reverse();
    let reversed = host(&reversed_files);
    let expected = shape(&build(&forward), &forward);
    assert_eq!(shape(&build(&forward), &forward), expected);
    assert_eq!(shape(&build(&reversed), &reversed), expected);
    assert_eq!(
        expected[0],
        ("a/c.rs", Some(("a/mod.rs", 0)), vec![])
    );
    assert_eq!(
        expected[4],
        (
            "lib.rs",
            None,
            vec![
                ("a".to_string(), vec!["a/mod.rs"], None),
                ("b".to_string(), vec!["b.rs"], None),
                (
                    "missing".to_string(),
                    vec![],
                    Some(Problem::UnresolvedModule { candidate: RelativePathBuf::from("../missing.rs") })
                ),
            ]
        )
    );
}

#[test]
fn canceled_query_yields_no_tree() {
    let mut host = host(&[("lib.rs", "mod foo;"), ("foo.rs", "")]);
    assert!(module_tree(&host, SourceRootId(0)).is_ok());
    host.canceled = true;
    assert_eq!(module_tree(&host, SourceRootId(0)).err(), Some(Canceled));
    assert_eq!(create_module_tree(&host, SourceRootId(0)).err(), Some(Canceled));
    assert_eq!(submodules(&host, FileId(1)).err(), Some(Canceled));
    assert_eq!(host.check_canceled(), Err(Canceled));
}

#[test]
fn submodules_are_the_declarations_without_a_body() {
    let text = "mod first;\nfn f() {}\nmod inline { mod nested; }\nmod second;\nmod ;\n";
    assert_eq!(modules(&parse(text).modules), vec!["first".to_string(), "second".to_string()]);
    assert_eq!(modules(&parse("").modules), Vec::<String>::new());
    assert_eq!(modules(&parse("mod only_inline {}").modules), Vec::<String>::new());
    let host = host(&[("lib.rs", "mod a;\nmod b;")]);
    assert_eq!(*submodules(&host, FileId(1)).ok().unwrap(), vec!["a".to_string(), "b".to_string()]);
    assert_eq!(*host.submodules(FileId(1)).ok().unwrap(), vec!["a".to_string(), "b".to_string()]);
    assert_eq!(*submodules(&host, FileId(9)).ok().unwrap(), Vec::<String>::new());
}

#[test]
fn modules_passes_over_bodies_and_missing_names() {
    let decls = vec![
        ModuleDecl { name: Some("a".to_string()), has_semi: true },
        ModuleDecl { name: Some("b".to_string()), has_semi: false },
        ModuleDecl { name: None, has_semi: true },
        ModuleDecl { name: Some("c".to_string()), has_semi: true },
    ];
    assert_eq!(modules(&decls), vec!["a".to_string(), "c".to_string()]);
    let submodule = Submodule { name: "a".to_string() };
    assert_eq!(submodule.clone(), submodule);
}

fn entry(name: &str, kind: ItemKind) -> ScopeEntry {
    ScopeEntry { name: name.to_string(), kind }
}

#[test]
fn module_scope_lists_the_items_of_a_file() {
    let text = "fn f() {}\nstruct S;\nenum E {}\ntrait T {}\ntype A = u32;\nconst C: u32 = 1;\nstatic X: u32 = 1;\nmod m;\nuse a::b;\nextern crate k;\nimpl S {}\n";
    let mut host = host(&[("lib.rs", text), ("m.rs", "")]);
    let tree = build(&host);
    let root = module_of(&tree, &host, "lib.rs");
    let inner = module_of(&tree, &host, "m.rs");
    host.tree = Some(StoredTree::new(Arc::new(tree)));
    let scope = module_scope(&host, SourceRootId(0), ModuleId(root)).ok().unwrap();
    assert_eq!(
        *scope.entries(),
        vec![
            entry("f", ItemKind::Function),
            entry("S", ItemKind::Struct),
            entry("E", ItemKind::Enum),
            entry("T", ItemKind::Trait),
            entry("A", ItemKind::TypeAlias),
            entry("C", ItemKind::Const),
            entry("X", ItemKind::Static),
            entry("m", ItemKind::Module),
            entry("b", ItemKind::Use),
            entry("k", ItemKind::ExternCrate),
        ]
    );
    let scope = module_scope(&host, SourceRootId(0), ModuleId(inner)).ok().unwrap();
    assert!(scope.entries().is_empty());
    host.canceled = true;
    host.tree = None;
    assert_eq!(module_scope(&host, SourceRootId(0), ModuleId(root)).err(), Some(Canceled));
}

#[test]
fn module_scope_lists_the_items_of_an_inline_module() {
    let text = "mod outer { fn f() {} struct S; }\nmod bodyless;\nfn g() {}\n";
    let mut host = host(&[("lib.rs", text)]);
    let file = host.root.file_resolver.id("lib.rs");
    let mut tree = ModuleTree::new();
    let block = "mod outer { fn f() {} struct S; }";
    let declaration = "mod bodyless;";
    let bodyless_start = text.find(declaration).unwrap() as u32;
    for (start, end) in [
        (0, block.len() as u32),
        (bodyless_start, bodyless_start + declaration.len() as u32),
        (1, 5),
    ] {
        tree.mods.push(ModuleData {
            source: ModuleSource::Inline(SyntaxPtr { file_id: file, start, end }),
            parent: None,
            children: Vec::new(),
        });
    }
    host.tree = Some(StoredTree::new(Arc::new(tree)));
    let scope = module_scope(&host, SourceRootId(0), ModuleId(0)).ok().unwrap();
    assert_eq!(*scope.entries(), vec![entry("f", ItemKind::Function), entry("S", ItemKind::Struct)]);
    let scope = module_scope(&host, SourceRootId(0), ModuleId(1)).ok().unwrap();
    assert!(scope.entries().is_empty());
    let scope = module_scope(&host, SourceRootId(0), ModuleId(2)).ok().unwrap();
    assert!(scope.entries().is_empty());
}

#[test]
fn scope_passes_over_items_without_a_name() {
    let item = |kind: &str, name: Option<&str>, name_refs: &[&str]| RawItem {
        kind: kind.to_string(),
        name: name.map(|n| n.to_string()),
        name_refs: name_refs.iter().map(|n| n.to_string()).collect(),
    };
    let items = vec![
        item("FN_DEF", None, &["u32"]),
        item("FN_DEF", Some("f"), &["u32"]),
        item("IMPL_ITEM", Some("x"), &["S"]),
        item("USE_ITEM", None, &[]),
        item("USE_ITEM", None, &["a", "b"]),
        item("EXTERN_CRATE_ITEM", Some("alias"), &["k"]),
        item("LET_STMT", Some("y"), &[]),
    ];
    let scope = ModuleScope::new(&items);
    assert_eq!(
        scope.entries,
        vec![entry("f", ItemKind::Function), entry("b", ItemKind::Use), entry("alias", ItemKind::ExternCrate)]
    );
    assert_eq!(item_kind(&"TYPE_DEF".to_string()), Some(ItemKind::TypeAlias));
    assert_eq!(item_kind(&"type_def".to_string()), None);
}

#[test]
fn hand_made_links_keep_their_data() {
    let link = LinkData { owner: ModuleId(0), name: "x".to_string(), points_to: vec![], problem: None };
    assert_eq!(link.clone().name, "x");
    let host = host(&[("lib.rs", "")]);
    assert_eq!(*host.file_syntax(FileId(1)), FileSyntax::empty());
    assert_eq!(*host.file_syntax(FileId(7)), FileSyntax::empty());
    assert_eq!(host.source_root(SourceRootId(3)).files, vec![FileId(1)]);
    assert!(host.module_tree(SourceRootId(0)).is_err());
}

/// A resolver that knows two files, each of which is the other's submodule.
struct Circle;

impl FileResolver for Circle {
    fn file_stem(&self, _file_id: FileId) -> String {
        "mod".to_string()
    }

    fn resolve(&self, file_id: FileId, path: &RelativePath) -> Option<FileId> {
        match (file_id.0, path.as_str()) {
            (1, "../two.rs") => Some(FileId(2)),
            (2, "../one.rs") => Some(FileId(1)),
            (3, "../one.rs") => Some(FileId(1)),
            _ => None,
        }
    }
}

fn circle(files: Vec<FileId>, canceled: bool) -> MemoryDatabase<Circle> {
    let text = |id: u32, text: &str| FileEntry { file_id: FileId(id), syntax: Arc::new(parse(text)) };
    MemoryDatabase {
        root: Arc::new(SourceRoot { file_resolver: Circle, files }),
        files: vec![text(1, "mod two;"), text(2, "mod one;"), text(3, "mod one; mod nothing;"), text(4, "")],
        tree: None,
        canceled,
    }
}

#[test]
fn a_file_that_declares_itself_has_no_tree() {
    let host = host(&[("main.rs", "fn main() {}"), ("lib.rs", "mod lib;")]);
    assert_eq!(declarations_acyclic(&host, SourceRootId(0)), Ok(false));
    assert!(checked_module_tree(&host, SourceRootId(0)).ok().unwrap().is_none());
}

#[test]
fn declarations_in_a_circle_have_no_tree() {
    assert_eq!(declarations_acyclic(&circle(vec![FileId(1)], false), SourceRootId(0)), Ok(false));
    assert_eq!(declarations_acyclic(&circle(vec![FileId(4), FileId(3)], false), SourceRootId(0)), Ok(false));
    assert_eq!(declarations_acyclic(&circle(vec![FileId(4)], false), SourceRootId(0)), Ok(true));
    assert_eq!(declarations_acyclic(&circle(vec![], false), SourceRootId(0)), Ok(true));
    assert_eq!(declarations_acyclic(&circle(vec![FileId(1)], true), SourceRootId(0)), Err(Canceled));
    assert!(checked_module_tree(&circle(vec![FileId(4), FileId(2)], false), SourceRootId(0)).ok().unwrap().is_none());
    assert!(checked_module_tree(&circle(vec![FileId(4)], true), SourceRootId(0)).is_err());
}

#[test]
fn declarations_without_a_circle_have_a_tree() {
    let host = host(&[
        ("lib.rs", "mod a; mod b;"),
        ("main.rs", "mod a;"),
        ("a/mod.rs", "mod c;"),
        ("a/c.rs", ""),
        ("b.rs", "mod lib;"),
    ]);
    assert_eq!(declarations_acyclic(&host, SourceRootId(0)), Ok(true));
    let tree = checked_module_tree(&host, SourceRootId(0)).ok().unwrap().unwrap();
    assert_eq!(tree.len(), 7);
    assert_eq!(tree.links.len(), 6);
}

#[test]
fn host_reads_items_and_inline_modules_from_the_tree() {
    let syntax = parse("use a::{b, c};\nmod m { struct S; }\nmod n;\n");
    assert_eq!(syntax.modules.len(), 2);
    assert_eq!(syntax.modules[0], ModuleDecl { name: Some("m".to_string()), has_semi: false });
    assert_eq!(syntax.modules[1], ModuleDecl { name: Some("n".to_string()), has_semi: true });
    assert_eq!(syntax.items[0].kind, "USE_ITEM");
    assert_eq!(syntax.items[0].name, None);
    assert_eq!(syntax.items[0].name_refs, vec!["a".to_string(), "b".to_string(), "c".to_string()]);
    assert_eq!(syntax.inline_modules.len(), 2);
    assert_eq!((syntax.inline_modules[0].start, syntax.inline_modules[0].end), (15, 34));
    assert_eq!(syntax.inline_modules[0].items.len(), 1);
    assert!(syntax.inline_modules[1].items.is_empty());
    let scope = ModuleScope::new(&syntax.items);
    assert_eq!(
        scope.entries,
        vec![entry("c", ItemKind::Use), entry("m", ItemKind::Module), entry("n", ItemKind::Module)]
    );
}

#[test]
fn modules_and_links_are_numbered_in_the_order_of_the_visits() {
    let host = host(&[("lib.rs", "mod a; mod b;"), ("b.rs", ""), ("a/mod.rs", "mod c;"), ("a/c.rs", "")]);
    let tree = build(&host);
    let files: Vec<&str> = (0..tree.len()).map(|m| path_of(&tree, &host, ModuleId(m))).collect();
    assert_eq!(files, vec!["lib.rs", "a/mod.rs", "a/c.rs", "b.rs"]);
    let names: Vec<&str> = tree.links.iter().map(|l| l.name.as_str()).collect();
    assert_eq!(names, vec!["a", "c", "b"]);
    assert_eq!(tree.mods[0].children, vec![LinkId(0), LinkId(2)]);
    assert_eq!(tree.mods[1].children, vec![LinkId(1)]);
    assert_eq!(tree.links[0].points_to, vec![ModuleId(1)]);
    assert_eq!(tree.links[1].points_to, vec![ModuleId(2)]);
    assert_eq!(tree.links[2].points_to, vec![ModuleId(3)]);
    let parents: Vec<Option<LinkId>> = tree.mods.iter().map(|m| m.parent).collect();
    assert_eq!(parents, vec![None, Some(LinkId(0)), Some(LinkId(1)), Some(LinkId(2))]);
    let again = build(&host);
    assert_eq!(shape(&again, &host), shape(&tree, &host));
    for m in 0..tree.len() {
        assert_eq!(again.mods[m].source, tree.mods[m].source);
        assert_eq!(again.mods[m].parent, tree.mods[m].parent);
        assert_eq!(again.mods[m].children, tree.mods[m].children);
    }
}

#[test]
fn no_link_is_listed_twice_and_no_module_pointed_to_twice() {
    let host = host(&[
        ("lib.rs", "mod a; mod a; mod b;"),
        ("main.rs", "mod a;"),
        ("a.rs", ""),
        ("a/mod.rs", ""),
        ("b.rs", ""),
    ]);
    let tree = build(&host);
    let mut listed = vec![0; tree.links.len()];
    for module in &tree.mods {
        for link in &module.children {
            listed[link.0] += 1;
        }
    }
    assert!(listed.iter().all(|n| *n == 1));
    let mut pointed = vec![0; tree.len()];
    for link in &tree.links {
        for module in &link.points_to {
            pointed[module.0] += 1;
        }
    }
    assert!(pointed.iter().all(|n| *n <= 1));
    for m in 0..tree.len() {
        assert_eq!(pointed[m] == 1, tree.mods[m].parent.is_some());
    }
}
