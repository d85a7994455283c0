use std::cell::RefCell;

use ra_project_model::discover::{
    discover_manifest, find_cargo_toml, find_manifest, find_rust_project_json, first_existing, manifest_candidates,
    Manifest,
};
use ra_project_model::json_project::JsonProject;
use ra_project_model::ProjectWorkspace;

fn exists_in<'a>(files: &'a [&'a str]) -> impl Fn(&str) -> bool + 'a {
    move |path: &str| files.contains(&path)
}

#[test]
fn candidates_are_the_folders_from_the_path_upward() {
    assert_eq!(
        manifest_candidates("/a/b/c", "Cargo.toml"),
        vec!["/a/b/c/Cargo.toml", "/a/b/Cargo.toml", "/a/Cargo.toml", "/Cargo.toml"]
    );
    assert_eq!(manifest_candidates("x/y", "m.json"), vec!["x/y/m.json", "x/m.json", "m.json"]);
    assert_eq!(manifest_candidates("", "m"), vec!["m"]);
}

#[test]
fn nearest_cargo_toml_is_found() {
    let files = ["/a/Cargo.toml", "/a/b/Cargo.toml", "/a/b/rust-project.json"];
    assert_eq!(find_cargo_toml("/a/b/c/d", &exists_in(&files)), Ok("/a/b/Cargo.toml".to_string()));
    assert_eq!(find_cargo_toml("/a/x", &exists_in(&files)), Ok("/a/Cargo.toml".to_string()));
    assert_eq!(find_cargo_toml("/a", &exists_in(&files)), Ok("/a/Cargo.toml".to_string()));
    assert_eq!(
        find_cargo_toml("/other/place", &exists_in(&files)),
        Err("can't find Cargo.toml at /other/place".to_string())
    );
}

#[test]
fn a_path_to_the_manifest_is_taken_as_it_is() {
    let asked = RefCell::new(0);
    let never = |_: &str| {
        *asked.borrow_mut() += 1;
        false
    };
    assert_eq!(find_cargo_toml("/nowhere/Cargo.toml", &never), Ok("/nowhere/Cargo.toml".to_string()));
    assert_eq!(find_rust_project_json("rust-project.json", &never), Some("rust-project.json".to_string()));
    assert_eq!(*asked.borrow(), 0);
    assert_eq!(find_rust_project_json("/a/my-rust-project.json", &never), None);
    assert_eq!(*asked.borrow(), 3);
}

#[test]
fn search_stops_at_the_first_manifest() {
    let asked = RefCell::new(Vec::new());
    let probe = |path: &str| {
        asked.borrow_mut().push(path.to_string());
        path == "/a/b/m"
    };
    assert_eq!(find_manifest("/a/b/c", "m", &probe), Some("/a/b/m".to_string()));
    assert_eq!(*asked.borrow(), vec!["/a/b/c/m", "/a/b/m"]);
    let candidates = vec!["x".to_string(), "y".to_string(), "z".to_string()];
    assert_eq!(first_existing(&candidates, &|path: &str| path != "x"), Some(1));
    assert_eq!(first_existing(&candidates, &|_: &str| false), None);
    assert_eq!(first_existing(&Vec::new(), &|_: &str| true), None);
}

#[test]
fn cargo_toml_is_sought_before_rust_project_json() {
    let both = ["/ws/Cargo.toml", "/ws/sub/rust-project.json"];
    assert_eq!(
        discover_manifest("/ws/sub/src", &exists_in(&both)),
        Ok(Manifest::CargoToml("/ws/Cargo.toml".to_string()))
    );
    let json = ["/ws/rust-project.json"];
    assert_eq!(
        discover_manifest("/ws/sub/src", &exists_in(&json)),
        Ok(Manifest::RustProjectJson("/ws/rust-project.json".to_string()))
    );
    assert_eq!(
        discover_manifest("/ws/sub/src", &exists_in(&[])),
        Err("can't find Cargo.toml at /ws/sub/src".to_string())
    );
    assert_eq!(
        discover_manifest("/x/rust-project.json", &exists_in(&[])),
        Ok(Manifest::RustProjectJson("/x/rust-project.json".to_string()))
    );
}

#[test]
fn discover_loads_the_workspace_of_the_manifest_it_finds() {
    let seen = RefCell::new(Vec::new());
    let load = |manifest: Manifest| {
        seen.borrow_mut().push(manifest.clone());
        match manifest {
            Manifest::RustProjectJson(_) => {
                Ok(ProjectWorkspace::Json { project: JsonProject { roots: vec![], crates: vec![] } })
            }
            Manifest::CargoToml(path) => Err(format!("cannot read {}", path)),
        }
    };
    let json = ["/ws/rust-project.json"];
    let found = ProjectWorkspace::discover("/ws/a", &exists_in(&json), &load);
    assert_eq!(found.ok().map(|ws| ws.count()), Some(0));
    let cargo = ["/ws/Cargo.toml", "/ws/rust-project.json"];
    let failed = ProjectWorkspace::discover("/ws/a", &exists_in(&cargo), &load);
    assert_eq!(failed.err(), Some("cannot read /ws/Cargo.toml".to_string()));
    let nothing = ProjectWorkspace::discover("/ws/a", &exists_in(&[]), &load);
    assert_eq!(nothing.err(), Some("can't find Cargo.toml at /ws/a".to_string()));
    assert_eq!(
        *seen.borrow(),
        vec![
            Manifest::RustProjectJson("/ws/rust-project.json".to_string()),
            Manifest::CargoToml("/ws/Cargo.toml".to_string()),
        ]
    );
}
