use std::path::Path;
use swaybg_tui::path::{path_eq, path_join, path_parent};

const SAMPLES: [&str; 40] = [
    "", "/", "//", ".", "..", "./", "./.", "/.", "/..", "a", "a/", "a//", "a/.", "a/./", "a/..", "./a", "./a/",
    "/a", "/a/", "//a", "/a/b", "/a/b/", "/a//b", "/a/./b", "/a/b/.", "a/b/c", "../a", "a/../b", ".a", "a.",
    ".a/b", "./.a", "/./a", "a/b/../", "x/./.", "./..", "../", "/a/b//./", "ab/cd/ef", ".../x",
];

#[test]
fn parent_matches_std() {
    for s in SAMPLES {
        let expected = Path::new(s).parent().map(|p| p.to_str().unwrap().to_string());
        assert_eq!(path_parent(s), expected, "{s:?}");
    }
}

#[test]
fn parent_examples() {
    assert_eq!(path_parent("/foo/bar").as_deref(), Some("/foo"));
    assert_eq!(path_parent("/foo").as_deref(), Some("/"));
    assert_eq!(path_parent("/"), None);
    assert_eq!(path_parent("foo").as_deref(), Some(""));
    assert_eq!(path_parent(""), None);
}

#[test]
fn path_eq_matches_std() {
    for a in SAMPLES {
        for b in SAMPLES {
            assert_eq!(path_eq(a, b), Path::new(a) == Path::new(b), "{a:?} {b:?}");
        }
    }
}

#[test]
fn join_matches_std() {
    for a in SAMPLES {
        for b in ["x", "x/y", "", "/abs", "./r", ".."] {
            let expected = Path::new(a).join(b);
            assert_eq!(path_join(a, b), expected.to_str().unwrap(), "{a:?} {b:?}");
        }
    }
}

#[test]
fn parent_undoes_join() {
    for base in SAMPLES {
        for name in ["x", ".x", "x.png", "..."] {
            let joined = path_join(base, name);
            let back = path_parent(&joined).expect("a joined path has a parent");
            assert!(path_eq(&back, base), "{base:?} {name:?} -> {back:?}");
            assert_eq!(Path::new(&back), Path::new(base));
        }
    }
}
