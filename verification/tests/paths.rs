use clam_onaccess::path::{
    bytes_start_with, parts_start_with, path_components, path_file_name, path_parent, same_bytes,
};
use std::path::Path;

const SAMPLES: [&str; 36] = [
    "", "/", "//", ".", "./", "./.", "..", "../", "/.", "/..", "/./", "a", "a/", "a/.", "./a", ".a",
    "a/b", "a//b", "a/./b", "a/../b", "/a", "//a", "/a/", "/a/b", "/a//b/", "/a/./b/.", "/a/.b",
    "/a/b/..", "/a/b/../", "/run/clamav/clamd.pid", "/run//clamav/./clamd.pid", "/home", "/homework",
    "/home/user", "....", "/a/.../b",
];

fn components_as_text(path: &str) -> Vec<Vec<u8>> {
    Path::new(path)
        .components()
        .map(|c| c.as_os_str().to_str().unwrap().as_bytes().to_vec())
        .collect()
}

#[test]
fn components_are_those_of_the_standard_library() {
    for s in SAMPLES {
        assert_eq!(path_components(s.as_bytes()), components_as_text(s), "{s:?}");
    }
}

#[test]
fn prefixes_are_those_of_the_standard_library() {
    for s in SAMPLES {
        for t in SAMPLES {
            assert_eq!(
                parts_start_with(&path_components(s.as_bytes()), &path_components(t.as_bytes())),
                Path::new(s).starts_with(t),
                "{s:?} {t:?}"
            );
        }
    }
}

#[test]
fn parents_are_those_of_the_standard_library() {
    for s in SAMPLES {
        let expected = Path::new(s).parent().map(|p| p.to_str().unwrap().as_bytes().to_vec());
        assert_eq!(path_parent(s.as_bytes()), expected, "{s:?}");
    }
}

#[test]
fn file_names_are_those_of_the_standard_library() {
    for s in SAMPLES {
        let expected = Path::new(s).file_name().map(|n| n.to_str().unwrap().as_bytes().to_vec());
        assert_eq!(path_file_name(s.as_bytes()), expected, "{s:?}");
    }
}

#[test]
fn directory_prefix_needs_the_separator() {
    assert!(bytes_start_with(b"/home/user/x", b"/home/"));
    assert!(!bytes_start_with(b"/homework/x", b"/home/"));
    assert!(bytes_start_with(b"abc", b""));
    assert!(!bytes_start_with(b"", b"a"));
    assert!(same_bytes(b"abc", b"abc"));
    assert!(!same_bytes(b"abc", b"abd"));
    assert!(!same_bytes(b"abc", b"ab"));
}

#[test]
fn joined_path_has_the_components_of_both_parts() {
    let mut joined = path_components(b"/a/b/");
    joined.extend(path_components(b"c/./d"));
    assert_eq!(path_components(b"/a/b/c/./d"), joined);
}

#[test]
fn byte_prefix_of_a_directory_is_a_path_prefix() {
    let dir = b"/srv//data/./";
    let file = b"/srv//data/./x";
    assert!(bytes_start_with(file, dir));
    assert!(parts_start_with(&path_components(file), &path_components(dir)));
}

#[test]
fn plain_path_is_contained_by_its_names() {
    let names = |path: &[u8]| path_components(path)[1..].to_vec();
    assert_eq!(names(b"/srv/data/x"), vec![b"srv".to_vec(), b"data".to_vec(), b"x".to_vec()]);
    for (dir, file, below) in [
        ("/srv/", "/srv/data", true),
        ("/srv/", "/srv", false),
        ("/srv/", "/srvdata", false),
        ("/", "/srv", true),
        ("/srv/data/", "/srv/x", false),
    ] {
        let (dir, file) = (dir.as_bytes(), file.as_bytes());
        assert_eq!(bytes_start_with(file, dir), below);
        let (dir, file) = (names(dir), names(file));
        assert_eq!(parts_start_with(&file, &dir) && dir.len() < file.len(), below);
    }
}
