use std::path::{Path, PathBuf};

use cachewipe::safety::{
    canonicalize_lenient, evaluate, is_protected, lenient_probes, within_root, Anchor, Guard,
};

fn home() -> PathBuf {
    PathBuf::from("/Users/alice")
}

fn s(p: &Path) -> &str {
    p.to_str().unwrap()
}

/// Probe the path's ancestors on this machine, as the command-line tool does.
fn anchor(p: &str) -> Option<Anchor> {
    let probes = lenient_probes(p);
    for (index, probe) in probes.iter().enumerate() {
        let pp = Path::new(probe);
        if pp.exists() {
            let canonical = pp
                .canonicalize()
                .ok()
                .map(|c| c.to_string_lossy().into_owned());
            return Some(Anchor { index, canonical });
        }
    }
    None
}

fn eval(candidate: &Path, root: &Path, home: &Path, exists: bool, lock: bool) -> Guard {
    let (c, r, h) = (s(candidate), s(root), s(home));
    evaluate(c, r, h, exists, lock, &anchor(c), &anchor(r), &anchor(h))
}

fn within(candidate: &Path, root: &Path) -> bool {
    let (c, r) = (s(candidate), s(root));
    within_root(c, &anchor(c), r, &anchor(r))
}

#[test]
fn refuses_home_root() {
    assert_eq!(eval(&home(), &home(), &home(), true, false), Guard::Protected);
}

#[test]
fn refuses_filesystem_root() {
    assert_eq!(
        eval(Path::new("/"), Path::new("/"), &home(), true, false),
        Guard::Protected
    );
}

#[test]
fn refuses_shallow_paths() {
    // /Users has depth 1, an ancestor of home. Must be protected.
    assert_eq!(
        eval(Path::new("/Users"), Path::new("/Users"), &home(), true, false),
        Guard::Protected
    );
}

#[test]
fn refuses_ancestor_of_home() {
    // /Users/alice/.. would resolve above home.
    let p = PathBuf::from("/Users");
    assert!(is_protected(s(&p), s(&home())));
}

#[test]
fn allows_legit_cache_dir() {
    let cache = home().join(".cache/uv");
    // root is the cache dir itself; exists, no lock -> allowed
    assert_eq!(eval(&cache, &cache, &home(), true, false), Guard::Allowed);
}

#[test]
fn skips_missing() {
    let cache = home().join(".cache/does-not-exist");
    assert_eq!(eval(&cache, &cache, &home(), false, false), Guard::Missing);
}

#[test]
fn skips_locked() {
    let cache = home().join(".cache/uv");
    assert_eq!(eval(&cache, &cache, &home(), true, true), Guard::InUse);
}

#[test]
fn rejects_path_outside_root() {
    let root = home().join(".cache/uv");
    let outside = home().join(".ssh");
    assert!(!within(&outside, &root));
}

#[test]
fn accepts_path_inside_root() {
    let root = home().join(".cache");
    let inside = home().join(".cache/uv/archive-v0");
    assert!(within(&inside, &root));
}

#[test]
fn protection_covers_trailing_slash_and_dot_forms_of_home() {
    assert!(is_protected("/Users/alice/", "/Users/alice"));
    assert!(is_protected("/Users//alice/.", "/Users/alice"));
    assert!(is_protected("/Users/", "/Users/alice"));
    assert!(!is_protected("/Users/alice/.cache", "/Users/alice"));
}

#[test]
fn dot_dot_in_the_missing_tail_takes_effect() {
    // Only the root is resolved: `..` in the rest of the path steps back.
    let root_only = |p: &str| {
        let probes = lenient_probes(p);
        let index = probes.iter().position(|q| q == "/").unwrap();
        Some(Anchor { index, canonical: Some("/".to_string()) })
    };
    let root = "/Users/alice/.cache/uv";
    let cand = "/Users/alice/.cache/uv/../../.ssh";
    assert!(!within_root(cand, &root_only(cand), root, &root_only(root)));
    assert_eq!(canonicalize_lenient("/nx/a/..", &root_only("/nx/a/..")), vec!["/", "nx"]);
    assert_eq!(canonicalize_lenient("/nx/..", &root_only("/nx/..")), vec!["/"]);
    assert_eq!(canonicalize_lenient("/..", &root_only("/..")), vec!["/"]);
    // With nothing resolved at all, the path is normalized as written.
    assert_eq!(canonicalize_lenient("a/b/../c", &None), vec!["a", "c"]);
    assert_eq!(canonicalize_lenient("../x", &None), vec!["..", "x"]);
    // A resolved ancestor keeps its resolved form; the tail is added after it.
    let resolved = Some(Anchor { index: 1, canonical: Some("/nonexistent-cachewipe-root".to_string()) });
    assert!(!within_root(
        "/nonexistent-cachewipe-root/cache/../secret",
        &resolved,
        "/nonexistent-cachewipe-root/cache",
        &None
    ));
}

#[test]
fn home_reached_through_dot_dot_is_protected() {
    let home = "/Users/alice";
    let none: Option<Anchor> = None;
    assert!(is_protected("/Users/alice/.cache/..", home));
    assert_eq!(
        evaluate("/Users/alice/.cache/..", "/Users/alice/.cache/..", home, true, false, &none, &none, &none),
        Guard::Protected
    );
    let home = "/srv/node_modules";
    let cand = "/srv/node_modules/../node_modules";
    assert_eq!(
        evaluate(cand, "/srv/node_modules/..", home, true, false, &none, &none, &none),
        Guard::Protected
    );
}

#[test]
fn a_candidate_resolving_to_home_is_protected() {
    // A symlink that resolves to home is refused, though its name is not home.
    let home = "/Users/alice";
    let link = "/data/cache/link";
    let to_home = Some(Anchor { index: 0, canonical: Some(home.to_string()) });
    let root = Some(Anchor { index: 0, canonical: Some("/data/cache".to_string()) });
    assert_eq!(
        evaluate(link, "/data/cache", home, true, false, &to_home, &root, &None),
        Guard::Protected
    );
    let elsewhere = Some(Anchor { index: 0, canonical: Some("/data/cache/real".to_string()) });
    assert_eq!(
        evaluate(link, "/data/cache", home, true, false, &elsewhere, &root, &None),
        Guard::Allowed
    );
}

#[test]
fn symlinked_prefix_resolution_decides_containment() {
    // The candidate's existing ancestor resolves elsewhere: it is outside.
    let root = "/data/cache";
    let cand = "/data/cache/link/file";
    let probes = lenient_probes(cand);
    assert_eq!(probes, vec!["/data/cache/link/file", "/data/cache/link", "/data/cache", "/data", "/"]);
    let resolved_elsewhere = Some(Anchor { index: 1, canonical: Some("/etc".to_string()) });
    let root_anchor = Some(Anchor { index: 0, canonical: Some("/data/cache".to_string()) });
    assert!(!within_root(cand, &resolved_elsewhere, root, &root_anchor));
    let resolved_inside = Some(Anchor { index: 1, canonical: Some("/data/cache/real".to_string()) });
    assert!(within_root(cand, &resolved_inside, root, &root_anchor));
}

#[test]
fn verdict_order_protected_before_outside_before_missing_before_lock() {
    let home = "/Users/alice";
    let none: Option<Anchor> = None;
    assert_eq!(evaluate(home, "/x/y", home, false, true, &none, &none, &none), Guard::Protected);
    assert_eq!(
        evaluate("/Users/alice/a/b", "/other/root", home, false, true, &none, &none, &none),
        Guard::OutsideRoot
    );
    assert_eq!(
        evaluate("/Users/alice/a/b", "/Users/alice/a", home, false, true, &none, &none, &none),
        Guard::Missing
    );
    assert_eq!(
        evaluate("/Users/alice/a/b", "/Users/alice/a", home, true, true, &none, &none, &none),
        Guard::InUse
    );
    assert_eq!(
        evaluate("/Users/alice/a/b", "/Users/alice/a", home, true, false, &none, &none, &none),
        Guard::Allowed
    );
}
