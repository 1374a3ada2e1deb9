use cachewipe::path::normalize_components;
use cachewipe::path::{components, count_normal, join, render_components, same_components, starts_with};

fn comps(p: &str) -> Vec<String> {
    components(p)
}

#[test]
fn components_normalise_separators_and_dots() {
    assert_eq!(comps("/a/b"), vec!["/", "a", "b"]);
    assert_eq!(comps("/a//b/"), vec!["/", "a", "b"]);
    assert_eq!(comps("/a/./b/."), vec!["/", "a", "b"]);
    assert_eq!(comps("./a/b"), vec![".", "a", "b"]);
    assert_eq!(comps("a/../b"), vec!["a", "..", "b"]);
    assert_eq!(comps("/"), vec!["/"]);
    assert_eq!(comps("."), vec!["."]);
    assert_eq!(comps(""), Vec::<String>::new());
    assert_eq!(comps(".hidden/x"), vec![".hidden", "x"]);
}

#[test]
fn components_agree_with_std() {
    for p in ["/a/b", "/a//b/", "./a/./b", "a/../b", "/", ".", "", "x", "../y/", "/.cache/uv"] {
        let ours = comps(p);
        let std: Vec<String> = std::path::Path::new(p)
            .components()
            .map(|c| c.as_os_str().to_string_lossy().into_owned())
            .collect();
        assert_eq!(ours, std, "components of {p:?}");
    }
}

#[test]
fn render_round_trips() {
    assert_eq!(render_components(&comps("/a//b/")), "/a/b");
    assert_eq!(render_components(&comps("./a")), "./a");
    assert_eq!(render_components(&comps("a/b")), "a/b");
    assert_eq!(render_components(&comps("/")), "/");
}

#[test]
fn prefix_and_equality_are_by_component() {
    assert!(starts_with(&comps("/a/bc"), &comps("/a")));
    assert!(!starts_with(&comps("/a/bc"), &comps("/a/b")));
    assert!(same_components(&comps("/a/b/"), &comps("/a//b")));
    assert!(!same_components(&comps("/a/b"), &comps("a/b")));
    assert_eq!(count_normal(&comps("/Users/alice")), 2);
    assert_eq!(count_normal(&comps("./../x")), 1);
}

#[test]
fn join_behaves_like_pathbuf_push() {
    for (base, rel) in [("/home/a", ".cache/uv"), ("/home/a/", "x"), ("", "x"), ("/home", "/abs"), ("rel", "y")] {
        let mut pb = std::path::PathBuf::from(base);
        pb.push(rel);
        assert_eq!(join(base, rel), pb.to_str().unwrap());
    }
}

#[test]
fn normalizing_cancels_dot_dot_against_names() {
    assert_eq!(normalize_components(&comps("/a/b/../c/./d/..")), vec!["/", "a", "c"]);
    assert_eq!(normalize_components(&comps("/../a")), vec!["/", "a"]);
    assert_eq!(normalize_components(&comps("../../a/..")), vec!["..", ".."]);
    assert_eq!(normalize_components(&comps("./a")), vec!["a"]);
}
