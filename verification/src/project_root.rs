//! A root folder of a workspace and the filter that decides which of its
//! directories and files are worth reading.
use vstd::prelude::*;
use vstd::string::StringExecFns;
use vstd::string::StrSliceExecFns;
use relative_path::RelativePath;
use crate::paths::component_names;
use crate::paths::extension_of;
use crate::paths::option_string_view;
use crate::paths::relative_components;
use crate::paths::relative_extension;
use crate::paths::relative_path_text;
use crate::paths::strings_view;

verus! {

/// A workspace root folder: either a member of the current workspace or an
/// external dependency.
#[derive(Clone, Debug)]
pub struct ProjectRoot {
    /// Path to the root folder.
    path: String,
    /// Whether the folder is a member of the current workspace.
    is_member: bool,
}

/// Mathematical model of a [`ProjectRoot`].
pub struct ProjectRootView {
    pub path: Seq<char>,
    pub is_member: bool,
}

/// The directory names skipped under every root.
pub open spec fn is_common_ignored_dir(name: Seq<char>) -> bool {
    ||| name == "node_modules"@
    ||| name == "target"@
    ||| name == ".git"@
    ||| name == "obj"@
    ||| name == "build"@
    ||| name == "ci"@
    ||| name == "jemalloc"@
    ||| name == "llvm-emscripten"@
    ||| name == "llvm"@
    ||| name == "llvm-project"@
    ||| name == "docs"@
    ||| name == "lld"@
    ||| name == "lldb"@
    ||| name == "clang"@
}

/// The directory names skipped in addition under a root that is not a
/// member of the workspace.
pub open spec fn is_external_ignored_dir(name: Seq<char>) -> bool {
    ||| name == "examples"@
    ||| name == "tests"@
    ||| name == "benches"@
}

/// A component that begins with a dot.
pub open spec fn is_hidden(name: Seq<char>) -> bool {
    name.len() > 0 && name[0] == '.'
}

/// A component that keeps a directory out: ignored by name, or hidden.
pub open spec fn component_rejected(is_member: bool, name: Seq<char>) -> bool {
    ||| is_common_ignored_dir(name)
    ||| (!is_member && is_external_ignored_dir(name))
    ||| is_hidden(name)
}

/// A directory is read exactly when none of its components is rejected.
pub open spec fn components_included(is_member: bool, components: Seq<Seq<char>>) -> bool {
    forall|i: int| 0 <= i < components.len() ==> !component_rejected(is_member, #[trigger] components[i])
}

fn common_ignored(name: &String) -> (ignored: bool)
    ensures
        ignored == is_common_ignored_dir(name@),
{
    *name == String::from_str("node_modules") || *name == String::from_str("target") || *name
        == String::from_str(".git") || *name == String::from_str("obj") || *name
        == String::from_str("build") || *name == String::from_str("ci") || *name
        == String::from_str("jemalloc") || *name == String::from_str("llvm-emscripten") || *name
        == String::from_str("llvm") || *name == String::from_str("llvm-project") || *name
        == String::from_str("docs") || *name == String::from_str("lld") || *name
        == String::from_str("lldb") || *name == String::from_str("clang")
}

fn external_ignored(name: &String) -> (ignored: bool)
    ensures
        ignored == is_external_ignored_dir(name@),
{
    *name == String::from_str("examples") || *name == String::from_str("tests") || *name
        == String::from_str("benches")
}

fn hidden(name: &String) -> (hidden: bool)
    ensures
        hidden == is_hidden(name@),
{
    let s = name.as_str();
    s.unicode_len() > 0 && s.get_char(0) == '.'
}

impl ProjectRoot {
    /// The root as a mathematical value.
    pub open spec fn view(&self) -> ProjectRootView {
        ProjectRootView { path: self.spec_path()@, is_member: self.spec_is_member() }
    }

    /// What [`ProjectRoot::path`] returns.
    pub closed spec fn spec_path(&self) -> String {
        self.path
    }

    /// What [`ProjectRoot::is_member`] returns.
    pub closed spec fn spec_is_member(&self) -> bool {
        self.is_member
    }

    /// A root at `path`; `is_member` says whether it belongs to the
    /// current workspace.
    pub fn new(path: String, is_member: bool) -> (root: ProjectRoot)
        ensures
            root.spec_path() == path,
            root.spec_is_member() == is_member,
    {
        ProjectRoot { path, is_member }
    }

    /// Path to the root folder.
    pub fn path(&self) -> (path: &String)
        ensures
            *path == self.spec_path(),
    {
        &self.path
    }

    /// Whether the root belongs to the current workspace.
    pub fn is_member(&self) -> (is_member: bool)
        ensures
            is_member == self.spec_is_member(),
    {
        self.is_member
    }

    /// Decides from the components of a directory's path whether the
    /// directory is read.
    pub fn include_components(&self, components: &Vec<String>) -> (included: bool)
        ensures
            included == components_included(self.spec_is_member(), strings_view(components@)),
    {
        let ghost names = strings_view(components@);
        let mut i: usize = 0;
        while i < components.len()
            invariant
                0 <= i <= components.len(),
                names == strings_view(components@),
                forall|j: int| 0 <= j < i ==> !component_rejected(self.spec_is_member(), #[trigger] names[j]),
            decreases components.len() - i,
        {
            let name = &components[i];
            assert(names[i as int] == name@);
            let ignored = common_ignored(name) || (!self.is_member && external_ignored(name));
            if ignored || hidden(name) {
                return false;
            }
            i += 1;
        }
        true
    }

    /// Whether the directory at `dir_path`, relative to this root, is read:
    /// no component of the path is on the ignore list or hidden.
    pub fn include_dir(&self, dir_path: &RelativePath) -> (included: bool)
        ensures
            included == components_included(
                self.spec_is_member(),
                relative_components(relative_path_text(dir_path)),
            ),
    {
        let components = component_names(dir_path);
        self.include_components(&components)
    }

    /// Decides from the extension of a file's path whether the file is read.
    pub fn include_extension(&self, extension: &Option<String>) -> (included: bool)
        ensures
            included == (option_string_view(*extension) == Some("rs"@)),
    {
        match extension {
            Some(e) => *e == String::from_str("rs"),
            None => false,
        }
    }

    /// Whether the file at `file_path` is read: its extension is `rs`.
    pub fn include_file(&self, file_path: &RelativePath) -> (included: bool)
        ensures
            included == (relative_extension(relative_path_text(file_path)) == Some("rs"@)),
    {
        let extension = extension_of(file_path);
        self.include_extension(&extension)
    }
}

} // verus!
