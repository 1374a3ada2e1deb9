use std::collections::HashSet;

use cachewipe::path::{components, starts_with};
use cachewipe::targets::{catalog, home_path, Kind, Tier};

#[test]
fn tier_labels_and_defaults() {
    assert_eq!(Tier::PackageCache.as_str(), "package-cache");
    assert_eq!(Tier::BuildArtifact.as_str(), "build-artifact");
    assert_eq!(Tier::Docker.as_str(), "docker");
    assert_eq!(Tier::OsCache.as_str(), "os-cache");
    assert!(Tier::PackageCache.default_on());
    assert!(Tier::BuildArtifact.default_on());
    assert!(Tier::Docker.default_on());
    assert!(!Tier::OsCache.default_on());
}

#[test]
fn catalog_ids_are_unique_and_complete() {
    let cat = catalog();
    assert_eq!(cat.len(), 16);
    let ids: HashSet<&str> = cat.iter().map(|t| t.id).collect();
    assert_eq!(ids.len(), cat.len());
    assert_eq!(cat[0].id, "uv");
    assert_eq!(cat[15].id, "os-user-cache");
}

#[test]
fn catalog_tiers_match_discovery() {
    for t in catalog() {
        match t.kind {
            Kind::HomeDir(sub) => {
                assert!(t.tier == Tier::PackageCache || t.tier == Tier::OsCache);
                assert!(!sub.starts_with('/'));
            }
            Kind::NamedDirUnder { .. } => assert_eq!(t.tier, Tier::BuildArtifact),
            Kind::External { probe } => {
                assert_eq!(t.tier, Tier::Docker);
                assert_eq!(probe, "docker");
            }
        }
    }
}

#[test]
fn home_dirs_resolve_below_home() {
    let home = "/Users/alice";
    let hc = components(home);
    for t in catalog() {
        if let Kind::HomeDir(sub) = t.kind {
            let p = home_path(home, sub);
            let pc = components(&p);
            assert!(starts_with(&pc, &hc));
            assert!(pc.len() > hc.len());
        }
    }
    assert_eq!(home_path("/Users/alice", ".cache/uv"), "/Users/alice/.cache/uv");
    assert_eq!(home_path("/Users/alice/", "Library/Caches"), "/Users/alice/Library/Caches");
}

#[test]
fn only_cargo_target_needs_a_marker() {
    for t in catalog() {
        if let Kind::NamedDirUnder { name, requires_sibling } = t.kind {
            if name == "target" {
                assert_eq!(requires_sibling, Some("Cargo.toml"));
            } else {
                assert_eq!(requires_sibling, None);
            }
        }
    }
}
