use std::path::Path;
use vscode_pmu::paths::{components, file_name, join, normalize, relative_components, starts_with};

fn std_components(p: &str) -> Vec<String> {
    Path::new(p).components().map(|c| c.as_os_str().to_string_lossy().into_owned()).collect()
}

#[test]
fn components_match_std_path() {
    for p in ["", "/", "//", "/a/b", "a/b/", "./a", ".", "./", "a/./b/.", "../x/..", "/a//b///c", ".hidden/x", "a/.b", "/./."] {
        assert_eq!(components(p), std_components(p), "components of {p:?}");
    }
}

#[test]
fn relative_components_match_strip_prefix() {
    let cases = [
        ("/home/u/P/a/b", "/home/u/P"),
        ("/home/u/P", "/home/u/P/"),
        ("/home/u/Px/a", "/home/u/P"),
        ("a/b", "/a"),
        ("./a/b", "."),
        ("/a/./b", "/a"),
        ("/a", ""),
    ];
    for (p, base) in cases {
        let expected = Path::new(p).strip_prefix(base).ok().map(|r| {
            r.components().map(|c| c.as_os_str().to_string_lossy().into_owned()).collect::<Vec<_>>()
        });
        assert_eq!(relative_components(p, base), expected, "{p:?} below {base:?}");
        assert_eq!(starts_with(p, base), Path::new(p).starts_with(base));
    }
}

#[test]
fn join_matches_path_join() {
    for (a, b) in [("/home", "x/y"), ("/home/", "x"), ("", "x"), ("/home", "/abs"), ("rel", "x")] {
        assert_eq!(join(a, b), Path::new(a).join(b).to_string_lossy());
    }
}

#[test]
fn file_name_matches_std() {
    for p in ["/a/b", "/a/b/", "/a/..", "/", "", "x", "a/b/."] {
        assert_eq!(
            file_name(p),
            Path::new(p).file_name().map(|n| n.to_string_lossy().into_owned()),
            "file name of {p:?}"
        );
    }
}

#[test]
fn normalize_matches_std_components_collected() {
    for p in ["", "/", "//", "/a/b/", "a//b/./c", "./a/", ".", "../x/..", "/home/user/Projects/"] {
        let expected: std::path::PathBuf = Path::new(p).components().collect();
        assert_eq!(normalize(p), expected.to_string_lossy(), "path {p:?}");
    }
    assert_eq!(normalize("/home/user//Projects/./"), "/home/user/Projects");
}
