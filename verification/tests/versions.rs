use std::collections::HashMap;
use std::path::PathBuf;

use cachewipe::versions::{path_less, stale_versions, str_less, Version};

fn v(group: &str, mtime: u64, name: &str) -> Version {
    Version {
        group: group.to_string(),
        mtime,
        name: name.to_string(),
        path: format!("/opt/versions/{name}"),
    }
}

/// The selection as a sort-and-skip over each group, with paths sorted as PathBuf sorts them.
fn by_sorting(children: &[Version], keep: usize, out: &[&str]) -> Vec<String> {
    let mut groups: HashMap<String, Vec<(u64, String, PathBuf)>> = HashMap::new();
    for c in children {
        groups
            .entry(c.group.clone())
            .or_default()
            .push((c.mtime, c.name.clone(), PathBuf::from(&c.path)));
    }
    let mut res: Vec<PathBuf> = out.iter().map(PathBuf::from).collect();
    for (_, mut versions) in groups {
        if versions.len() <= keep {
            continue;
        }
        versions.sort_by(|a, b| b.0.cmp(&a.0).then_with(|| b.1.cmp(&a.1)));
        for (_, _, p) in versions.into_iter().skip(keep) {
            res.push(p);
        }
    }
    res.sort();
    res.into_iter().map(|p| p.to_string_lossy().into_owned()).collect()
}

#[test]
fn each_group_keeps_its_newest() {
    let children = vec![
        v("chromium", 10, "chromium-100"),
        v("chromium", 30, "chromium-120"),
        v("chromium", 20, "chromium-110"),
        v("firefox", 5, "firefox-90"),
        v("firefox", 5, "firefox-91"),
        v("webkit", 1, "webkit-1"),
    ];
    let mut out = Vec::new();
    stale_versions(&children, 1, &mut out);
    assert_eq!(
        out,
        vec!["/opt/versions/chromium-100", "/opt/versions/chromium-110", "/opt/versions/firefox-90"]
    );
    assert_eq!(out, by_sorting(&children, 1, &[]));
}

#[test]
fn keep_counts_and_existing_output_are_respected() {
    let children = vec![v("a", 3, "a3"), v("a", 1, "a1"), v("a", 2, "a2"), v("b", 9, "b9")];
    for keep in 0..5 {
        let mut out = vec!["/z/last".to_string(), "/a".to_string()];
        stale_versions(&children, keep, &mut out);
        assert_eq!(out, by_sorting(&children, keep, &["/z/last", "/a"]), "keep {keep}");
    }
    let mut out = Vec::new();
    stale_versions(&children, 0, &mut out);
    assert_eq!(out.len(), 4);
}

#[test]
fn orders_match_std() {
    for (a, b) in [("a", "b"), ("b", "a"), ("ab", "a"), ("", "a"), ("a", "a"), ("Z", "a"), ("é", "z")] {
        assert_eq!(str_less(a, b), a < b, "{a:?} < {b:?}");
    }
    for (a, b) in [("/a/b", "/a/c"), ("/a", "/a/b"), ("/a//b", "/a/b"), ("a", "/a"), ("./x", "x"), ("../x", "x"), ("/a/b", "/a-b")] {
        assert_eq!(path_less(a, b), PathBuf::from(a) < PathBuf::from(b), "{a:?} < {b:?}");
    }
}
