use mini_download_serve::paths::{join_path, locate, path_components, starts_with};
use std::path::Path;

fn bytes(s: &str) -> Vec<u8> {
    s.as_bytes().to_vec()
}

#[test]
fn a_path_is_within_what_it_starts_with() {
    assert!(starts_with(&bytes("/srv/files/a"), &bytes("/srv/files")));
    assert!(starts_with(&bytes("/srv/files"), &bytes("/srv/files")));
    assert!(starts_with(&bytes("/anything"), &bytes("/")));
    assert!(!starts_with(&bytes("/srv/files2"), &bytes("/srv/files")));
    assert!(!starts_with(&bytes("/srv"), &bytes("/srv/files")));
    assert!(!starts_with(&bytes("srv/files/a"), &bytes("/srv/files")));
}

#[test]
fn paths_compare_as_the_standard_library_does() {
    let all = [
        "", "/", ".", "./a", "a", "a/", "a/b", "a//b", "a/./b", "/a", "/a/", "/a/b", "/a/bc", "//a/b",
        "/./a", "/a/../b", "..", "../a", "/a/b/.", "./", "/.",
    ];
    for p in all {
        for base in all {
            assert_eq!(
                starts_with(&bytes(p), &bytes(base)),
                Path::new(p).starts_with(Path::new(base)),
                "{p:?} {base:?}"
            );
        }
    }
}

#[test]
fn paths_join_as_the_standard_library_does() {
    for base in ["", "/", "/srv", "/srv/", "a"] {
        for rel in ["", "x", "x/y", "x/", "/abs", "./x", "\u{4e2d}"] {
            assert_eq!(
                join_path(&bytes(base), rel),
                Path::new(base).join(rel).to_str().unwrap().as_bytes().to_vec(),
                "{base:?} {rel:?}"
            );
        }
    }
}

#[test]
fn a_path_comes_apart_into_components() {
    assert_eq!(path_components(&bytes("/a//b/./c/")), vec![bytes("/"), bytes("a"), bytes("b"), bytes("c")]);
    assert_eq!(path_components(&bytes("./a")), vec![bytes("."), bytes("a")]);
    assert!(path_components(&bytes("")).is_empty());
}

#[test]
fn requests_are_looked_for_below_the_root() {
    let root = bytes("/srv");
    assert_eq!(locate(&root, "/a/b.txt"), Some(bytes("/srv/a/b.txt")));
    assert_eq!(locate(&root, "/"), Some(bytes("/srv/")));
    assert_eq!(locate(&root, "///etc"), Some(bytes("/srv/etc")));
    assert_eq!(locate(&root, "/a..b/...x"), Some(bytes("/srv/a..b/...x")));
    assert_eq!(locate(&root, "/..\u{4e2d}"), Some(bytes("/srv/..\u{4e2d}")));
    assert_eq!(locate(&bytes("/"), "/etc"), Some(bytes("/etc")));
}

#[test]
fn requests_that_climb_are_refused() {
    let root = bytes("/srv");
    for rel in ["/..", "..", "/../etc", "/a/../../b", "/a/..", "/a\0b", "\0"] {
        assert_eq!(locate(&root, rel), None, "{rel:?}");
    }
}
