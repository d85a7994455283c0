//! Where the file of a declared submodule is looked for.
use vstd::prelude::*;
use vstd::string::StringExecFns;
use relative_path::RelativePath;
use crate::base::FileId;
use crate::module_tree::problem_view;
use crate::module_tree::Problem;
use crate::module_tree::ProblemView;
use crate::paths::as_relative_path;
use crate::paths::relative_path_buf_from;
use crate::paths::relative_path_text;

verus! {

/// The host's knowledge of the files: the name of a file without folder and
/// extension, and the file that a relative path leads to from another file.
/// `resolve` follows the path from the anchor file itself, so `../foo.rs`
/// from `lib.rs` is the sibling `foo.rs`.
pub trait FileResolver {
    /// What [`FileResolver::file_stem`] returns. An implementation that is
    /// verified says here what that is.
    open spec fn spec_file_stem(&self, file_id: FileId) -> Seq<char> {
        arbitrary()
    }

    /// What [`FileResolver::resolve`] returns for a path with this text. An
    /// implementation that is verified says here what that is.
    open spec fn spec_resolve(&self, file_id: FileId, path: Seq<char>) -> Option<FileId> {
        arbitrary()
    }

    fn file_stem(&self, file_id: FileId) -> (stem: String)
        ensures
            stem@ == self.spec_file_stem(file_id),
    ;

    fn resolve(&self, file_id: FileId, path: &RelativePath) -> (file: Option<FileId>)
        ensures
            file == self.spec_resolve(file_id, relative_path_text(path)),
    ;
}

/// The files of one source root, in the order in which they are visited,
/// and the resolver that knows them.
pub struct SourceRoot<R: FileResolver> {
    pub file_resolver: R,
    pub files: Vec<FileId>,
}

/// A file may have submodules in files of their own exactly when it is
/// called `mod`, `lib` or `main`.
pub open spec fn is_dir_owner(stem: Seq<char>) -> bool {
    stem == "mod"@ || stem == "lib"@ || stem == "main"@
}

/// Where the file of submodule `name` is looked for first.
pub open spec fn file_candidate_path(name: Seq<char>) -> Seq<char> {
    "../"@ + name + ".rs"@
}

/// Where the file of submodule `name` is looked for second.
pub open spec fn dir_candidate_path(name: Seq<char>) -> Seq<char> {
    "../"@ + name + "/mod.rs"@
}

/// Where a file called `stem` has to be moved to own a folder.
pub open spec fn move_to_path(stem: Seq<char>) -> Seq<char> {
    "../"@ + stem + "/mod.rs"@
}

/// The file, if there is one, as a sequence.
pub open spec fn found(file: Option<FileId>) -> Seq<FileId> {
    match file {
        Some(f) => seq![f],
        None => Seq::empty(),
    }
}

/// The files that the declaration `mod name;` in `file_id` is resolved
/// to: for a folder owner the file form and the folder form, as far as
/// they exist, in that order; for any other file none.
pub open spec fn candidates<R: FileResolver>(resolver: &R, file_id: FileId, name: Seq<char>) -> Seq<FileId> {
    if is_dir_owner(resolver.spec_file_stem(file_id)) {
        found(resolver.spec_resolve(file_id, file_candidate_path(name))) + found(
            resolver.spec_resolve(file_id, dir_candidate_path(name)),
        )
    } else {
        Seq::empty()
    }
}

/// The problem of the declaration `mod name;` in `file_id`, if it has one.
pub open spec fn problem_of<R: FileResolver>(resolver: &R, file_id: FileId, name: Seq<char>) -> Option<
    ProblemView,
> {
    let stem = resolver.spec_file_stem(file_id);
    if is_dir_owner(stem) {
        if candidates(resolver, file_id, name).len() == 0 {
            Some(ProblemView::UnresolvedModule { candidate: file_candidate_path(name) })
        } else {
            None
        }
    } else {
        Some(ProblemView::NotDirOwner { move_to: move_to_path(stem), candidate: file_candidate_path(name) })
    }
}

/// Resolves the declaration `mod name;` in `file_id`: the files it leads
/// to, and the problem if it leads to none.
pub fn resolve_submodule<R: FileResolver>(file_id: FileId, name: &String, file_resolver: &R) -> (res: (
    Vec<FileId>,
    Option<Problem>,
))
    ensures
        res.0@ == candidates(file_resolver, file_id, name@),
        problem_view(res.1) == problem_of(file_resolver, file_id, name@),
        res.0@.len() <= 2,
        res.0@.len() == 0 <==> res.1 is Some,
{
    let mod_name = file_resolver.file_stem(file_id);
    let is_dir_owner = mod_name == String::from_str("mod") || mod_name == String::from_str("lib")
        || mod_name == String::from_str("main");
    let file_mod = relative_path_buf_from(String::from_str("../").concat(name.as_str()).concat(".rs"));
    let dir_mod = relative_path_buf_from(String::from_str("../").concat(name.as_str()).concat("/mod.rs"));
    let mut points_to: Vec<FileId> = Vec::new();
    let problem: Option<Problem>;
    if is_dir_owner {
        match file_resolver.resolve(file_id, as_relative_path(&file_mod)) {
            Some(file) => {
                points_to.push(file);
            },
            None => {},
        }
        match file_resolver.resolve(file_id, as_relative_path(&dir_mod)) {
            Some(file) => {
                points_to.push(file);
            },
            None => {},
        }
        assert(points_to@ =~= candidates(file_resolver, file_id, name@));
        problem = if points_to.len() == 0 {
            Some(Problem::UnresolvedModule { candidate: file_mod })
        } else {
            None
        };
    } else {
        assert(points_to@ =~= candidates(file_resolver, file_id, name@));
        problem = Some(
            Problem::NotDirOwner {
                move_to: relative_path_buf_from(
                    String::from_str("../").concat(mod_name.as_str()).concat("/mod.rs"),
                ),
                candidate: file_mod,
            },
        );
    }
    (points_to, problem)
}

} // verus!
