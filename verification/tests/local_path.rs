use std::cmp::Ordering;
use std::path::{Path, PathBuf};

use tileset_downloader::download::temp_path;
use tileset_downloader::local_path::{with_suffix, Component, LocalPath};
use tileset_downloader::order::order_paths;

const PATHS: [&str; 16] = [
    "",
    "/",
    ".",
    "..",
    "a",
    "a/",
    "./a",
    "a/./b",
    "a/../b",
    "/a/b",
    "a//b",
    "a/b/c.glb",
    "a-b",
    "a.b",
    "ä/ö",
    "_external/example.com/x",
];

/// The components that the standard library reads.
fn expected(text: &str) -> Vec<String> {
    Path::new(text)
        .components()
        .map(|component| match component {
            std::path::Component::Normal(name) => format!("name {}", name.to_string_lossy()),
            std::path::Component::RootDir => "root".to_owned(),
            std::path::Component::CurDir => "here".to_owned(),
            std::path::Component::ParentDir => "up".to_owned(),
            std::path::Component::Prefix(_) => "prefix".to_owned(),
        })
        .collect()
}

fn actual(text: &str) -> Vec<String> {
    LocalPath::from_text(text)
        .components()
        .iter()
        .map(|component| match component {
            Component::Normal(name) => format!("name {name}"),
            Component::RootDir => "root".to_owned(),
            Component::CurDir => "here".to_owned(),
            Component::ParentDir => "up".to_owned(),
        })
        .collect()
}

#[test]
fn components_are_those_of_the_standard_library() {
    for text in PATHS {
        assert_eq!(actual(text), expected(text), "{text:?}");
    }
}

#[test]
fn joining_is_that_of_the_standard_library() {
    for head in PATHS {
        for tail in PATHS {
            let joined = LocalPath::from_text(head).join(&LocalPath::from_text(tail));
            let wanted: PathBuf = Path::new(head).join(tail);
            assert_eq!(joined.as_str(), wanted.to_str().expect("is Unicode"));
        }
    }
}

#[test]
fn paths_are_ordered_as_by_the_standard_library() {
    for a in PATHS {
        for b in PATHS {
            let wanted = match Path::new(a).cmp(Path::new(b)) {
                Ordering::Less => -1i8,
                Ordering::Equal => 0,
                Ordering::Greater => 1,
            };
            let got = order_paths(
                &LocalPath::from_text(a).components(),
                &LocalPath::from_text(b).components(),
            );
            assert_eq!(got, wanted, "{a:?} and {b:?}");
        }
    }
}

#[test]
fn suffixes_go_behind_the_file_name() {
    assert_eq!(
        with_suffix(&LocalPath::from_text("a/b.c"), ".bak").as_str(),
        "a/b.c.bak"
    );
    for text in ["a", "a/b", "/a/b", "a/b/", "a//b", "../a", "ä/ö.glb"] {
        let temp = temp_path(&LocalPath::from_text(text));
        let path = Path::new(text);
        let mut name = path.file_name().expect("has a name").to_os_string();
        name.push(".part");
        assert_eq!(Path::new(temp.as_str()), path.with_file_name(name), "{text:?}");
    }
}

#[test]
fn names_joined_to_a_directory_are_its_components() {
    let mut path = LocalPath::from_text("out");
    assert!(!path.is_empty());
    for name in ["a", "b", "c.glb"] {
        path.push(name);
    }
    assert_eq!(path.as_str(), "out/a/b/c.glb");
    assert_eq!(
        actual(path.as_str()),
        vec!["name out", "name a", "name b", "name c.glb"]
    );
    assert!(LocalPath::from_text("").is_empty());
    assert_eq!(path.duplicate().as_str(), path.as_str());
}
