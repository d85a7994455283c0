//! Finding the manifest of a workspace above a path.
//!
//! The search walks from the path upward. Whether a file exists is not for
//! the library to know: it asks the caller, folder by folder.
use vstd::prelude::*;
use vstd::string::StringExecFns;
use crate::paths::option_string_view;
use crate::paths::path_ends_with;
use crate::paths::path_has_suffix;
use crate::paths::path_join;
use crate::paths::path_joined;
use crate::paths::path_parent;
use crate::paths::path_parent_of;
use crate::paths::strings_view;

verus! {

/// The manifest that a workspace was found by.
#[derive(Clone, Debug, PartialEq, Eq)]
pub enum Manifest {
    /// The manifest of the package manager, found at this path.
    CargoToml(String),
    /// A project declared by hand, found at this path.
    RustProjectJson(String),
}

/// Mathematical model of a [`Manifest`].
pub enum ManifestView {
    CargoToml(Seq<char>),
    RustProjectJson(Seq<char>),
}

impl Manifest {
    /// The manifest with its path as text.
    pub open spec fn view(&self) -> ManifestView {
        match *self {
            Manifest::CargoToml(path) => ManifestView::CargoToml(path@),
            Manifest::RustProjectJson(path) => ManifestView::RustProjectJson(path@),
        }
    }
}

/// `path` and the folders above it, nearest first.
pub open spec fn ancestors_of(path: Seq<char>) -> Seq<Seq<char>>
    decreases path.len(),
{
    match path_parent_of(path) {
        Some(parent) => if parent.len() < path.len() {
            seq![path] + ancestors_of(parent)
        } else {
            seq![path]
        },
        None => seq![path],
    }
}

/// The file called `name` in each of `dirs`.
pub open spec fn files_in(dirs: Seq<Seq<char>>, name: Seq<char>) -> Seq<Seq<char>> {
    Seq::new(dirs.len(), |i: int| path_joined(dirs[i], name))
}

/// The places where a manifest called `name` is looked for from `path`
/// upward, nearest first.
pub open spec fn candidates_above(path: Seq<char>, name: Seq<char>) -> Seq<Seq<char>> {
    files_in(ancestors_of(path), name)
}

/// `answer` is what `probe` gave for a path with the text `path`.
pub open spec fn probed<F: Fn(&str) -> bool>(probe: &F, path: Seq<char>, answer: bool) -> bool {
    exists|p: &str| p@ == path && #[trigger] call_ensures(*probe, (p,), answer)
}

/// `probe` said no to the first `k` of `candidates`.
pub open spec fn none_exist<F: Fn(&str) -> bool>(probe: &F, candidates: Seq<Seq<char>>, k: int) -> bool {
    forall|i: int| 0 <= i < k ==> probed(probe, #[trigger] candidates[i], false)
}

/// `probe` said yes to `candidates[k]` after it had said no to every
/// candidate before it.
pub open spec fn first_found<F: Fn(&str) -> bool>(probe: &F, candidates: Seq<Seq<char>>, k: int) -> bool {
    0 <= k < candidates.len() && probed(probe, candidates[k], true) && none_exist(probe, candidates, k)
}

/// What the search for a manifest called `name` found: `found` if `path`
/// itself is called `name`, whether it exists or not; else the first
/// candidate that exists; nothing if none does.
pub open spec fn search_result<F: Fn(&str) -> bool>(
    probe: &F,
    path: Seq<char>,
    name: Seq<char>,
    found: Option<Seq<char>>,
) -> bool {
    if path_has_suffix(path, name) {
        found == Some(path)
    } else {
        match found {
            Some(place) => exists|k: int|
                #[trigger] first_found(probe, candidates_above(path, name), k) && candidates_above(
                    path,
                    name,
                )[k] == place,
            None => none_exist(probe, candidates_above(path, name), candidates_above(path, name).len() as int),
        }
    }
}

/// The places where a manifest called `name` is looked for from `path`
/// upward, nearest first.
pub fn manifest_candidates(path: &str, name: &str) -> (candidates: Vec<String>)
    ensures
        strings_view(candidates@) == candidates_above(path@, name@),
{
    let ghost target = candidates_above(path@, name@);
    let mut candidates: Vec<String> = Vec::new();
    let mut curr = String::from_str(path);
    let mut done = false;
    proof {
        assert(strings_view(candidates@) + files_in(ancestors_of(curr@), name@) =~= target);
    }
    while !done
        invariant
            target == candidates_above(path@, name@),
            !done ==> strings_view(candidates@) + files_in(ancestors_of(curr@), name@) == target,
            done ==> strings_view(candidates@) == target,
        decreases
                (if done {
                    0
                } else {
                    curr@.len() + 1
                }),
    {
        let ghost before = strings_view(candidates@);
        let ghost here = curr@;
        let file = path_join(curr.as_str(), name);
        candidates.push(file);
        assert(strings_view(candidates@) =~= before.push(path_joined(here, name@)));
        match path_parent(curr.as_str()) {
            Some(parent) => {
                proof {
                    assert(ancestors_of(here) == seq![here] + ancestors_of(parent@));
                    assert(before.push(path_joined(here, name@)) + files_in(ancestors_of(parent@), name@) =~= before
                        + files_in(ancestors_of(here), name@));
                }
                curr = parent;
            },
            None => {
                proof {
                    assert(ancestors_of(here) == seq![here]);
                    assert(before.push(path_joined(here, name@)) =~= before + files_in(ancestors_of(here), name@));
                }
                done = true;
            },
        }
    }
    candidates
}

/// The position of the first of `candidates` that `probe` says yes to.
pub fn first_existing<F: Fn(&str) -> bool>(candidates: &Vec<String>, probe: &F) -> (found: Option<usize>)
    requires
        forall|p: &str| call_requires(*probe, (p,)),
    ensures
        match found {
            Some(k) => first_found(probe, strings_view(candidates@), k as int),
            None => none_exist(probe, strings_view(candidates@), candidates@.len() as int),
        },
{
    let ghost texts = strings_view(candidates@);
    let mut k: usize = 0;
    while k < candidates.len()
        invariant
            0 <= k <= candidates.len(),
            texts == strings_view(candidates@),
            forall|p: &str| call_requires(*probe, (p,)),
            none_exist(probe, texts, k as int),
        decreases candidates.len() - k,
    {
        let candidate = candidates[k].as_str();
        assert(texts[k as int] == candidate@);
        if probe(candidate) {
            assert(probed(probe, texts[k as int], true));
            return Some(k);
        }
        assert(probed(probe, texts[k as int], false));
        k += 1;
    }
    None
}

/// Looks for a manifest called `name` from `path` upward.
pub fn find_manifest<F: Fn(&str) -> bool>(path: &str, name: &str, probe: &F) -> (found: Option<String>)
    requires
        forall|p: &str| call_requires(*probe, (p,)),
    ensures
        search_result(probe, path@, name@, option_string_view(found)),
{
    if path_ends_with(path, name) {
        return Some(String::from_str(path));
    }
    let mut candidates = manifest_candidates(path, name);
    match first_existing(&candidates, probe) {
        Some(k) => {
            let ghost texts = strings_view(candidates@);
            assert(first_found(probe, candidates_above(path@, name@), k as int));
            let place = candidates.swap_remove(k);
            assert(place@ == texts[k as int]);
            Some(place)
        },
        None => None,
    }
}

/// Looks for `rust-project.json` from `path` upward.
pub fn find_rust_project_json<F: Fn(&str) -> bool>(path: &str, probe: &F) -> (found: Option<String>)
    requires
        forall|p: &str| call_requires(*probe, (p,)),
    ensures
        search_result(probe, path@, "rust-project.json"@, option_string_view(found)),
{
    find_manifest(path, "rust-project.json", probe)
}

/// The message of a search that found no manifest: it names the path that
/// the search began at.
pub open spec fn not_found_message(path: Seq<char>) -> Seq<char> {
    "can't find Cargo.toml at "@ + path
}

/// Looks for `Cargo.toml` from `path` upward. Where there is none, the
/// error says so and names `path`.
pub fn find_cargo_toml<F: Fn(&str) -> bool>(path: &str, probe: &F) -> (res: Result<String, String>)
    requires
        forall|p: &str| call_requires(*probe, (p,)),
    ensures
        match res {
            Ok(place) => search_result(probe, path@, "Cargo.toml"@, Some(place@)),
            Err(message) => search_result(probe, path@, "Cargo.toml"@, None) && message@ == not_found_message(
                path@,
            ),
        },
{
    match find_manifest(path, "Cargo.toml", probe) {
        Some(place) => Ok(place),
        None => Err(String::from_str("can't find Cargo.toml at ").concat(path)),
    }
}

/// `manifest` is what the search from `path` upward comes to: a
/// `Cargo.toml` if there is one, else a `rust-project.json`.
pub open spec fn manifest_found<F: Fn(&str) -> bool>(probe: &F, path: Seq<char>, manifest: ManifestView) -> bool {
    match manifest {
        ManifestView::CargoToml(place) => search_result(probe, path, "Cargo.toml"@, Some(place)),
        ManifestView::RustProjectJson(place) => search_result(probe, path, "Cargo.toml"@, None) && search_result(
            probe,
            path,
            "rust-project.json"@,
            Some(place),
        ),
    }
}

/// The search from `path` upward comes to no manifest.
pub open spec fn no_manifest<F: Fn(&str) -> bool>(probe: &F, path: Seq<char>) -> bool {
    search_result(probe, path, "Cargo.toml"@, None) && search_result(probe, path, "rust-project.json"@, None)
}

/// Finds the manifest of the workspace above `path`: `Cargo.toml` if there
/// is one, else `rust-project.json`. Where there is neither, the error
/// names `path`.
pub fn discover_manifest<F: Fn(&str) -> bool>(path: &str, probe: &F) -> (res: Result<Manifest, String>)
    requires
        forall|p: &str| call_requires(*probe, (p,)),
    ensures
        match res {
            Ok(manifest) => manifest_found(probe, path@, manifest@),
            Err(message) => no_manifest(probe, path@) && message@ == not_found_message(path@),
        },
{
    match find_cargo_toml(path, probe) {
        Ok(place) => Ok(Manifest::CargoToml(place)),
        Err(message) => match find_rust_project_json(path, probe) {
            Some(place) => Ok(Manifest::RustProjectJson(place)),
            None => Err(message),
        },
    }
}

} // verus!
