//! The catalog of what cachewipe is willing to touch.
//!
//! This module is the trust boundary. Everything cachewipe deletes must be
//! declared here with an explicit regeneration story, so a reader can audit
//! exactly what the tool will ever remove. Deletion only ever operates on paths
//! that a `Target` in this catalog resolved.
use vstd::prelude::*;
use crate::path::{
    body_components, is_prefix, join, lemma_body_ends_named, lemma_join_components,
    path_components, spec_join,
};

verus! {

/// Risk tier controls default inclusion. Only fully-regenerable caches are on
/// by default.
#[derive(Debug, Clone, Copy, PartialEq, Eq, Structural)]
pub enum Tier {
    /// Package-manager download caches. Deleting these only forces a re-download.
    PackageCache,
    /// Build artifacts inside project dirs. Regenerate from a build command.
    BuildArtifact,
    /// Container engine cache. Delegated to the engine's own prune command.
    Docker,
    /// OS/application caches. Some apps keep semi-durable state here, so this
    /// tier is OFF unless the user opts in with --include-os-caches.
    OsCache,
}

/// The label of each tier.
pub open spec fn tier_name(t: Tier) -> Seq<char> {
    match t {
        Tier::PackageCache => "package-cache"@,
        Tier::BuildArtifact => "build-artifact"@,
        Tier::Docker => "docker"@,
        Tier::OsCache => "os-cache"@,
    }
}

impl Tier {
    /// On by default? OS caches are the only opt-in tier.
    pub fn default_on(self) -> (res: bool)
        ensures
            res == (self != Tier::OsCache),
    {
        !matches!(self, Tier::OsCache)
    }

    pub fn as_str(self) -> (res: &'static str)
        ensures
            res@ == tier_name(self),
    {
        match self {
            Tier::PackageCache => "package-cache",
            Tier::BuildArtifact => "build-artifact",
            Tier::Docker => "docker",
            Tier::OsCache => "os-cache",
        }
    }
}

/// How a target's paths are discovered.
pub enum Kind {
    /// A fixed cache directory under $HOME (glob-free, exact subpath).
    HomeDir(&'static str),
    /// A directory named `name`, found by walking under each root, pruned at
    /// first match so we never descend into (e.g.) node_modules/node_modules.
    /// When `requires_sibling` names a file, the name alone is not enough
    /// evidence: that file must sit beside the directory. `target/` is Cargo's
    /// build dir but also an ordinary data directory name, so it needs its
    /// `Cargo.toml`.
    NamedDirUnder { name: &'static str, requires_sibling: Option<&'static str> },
    /// Handled by shelling out to an external engine (Docker). Never a raw rm.
    External { probe: &'static str },
}

pub struct Target {
    pub id: &'static str,
    pub tier: Tier,
    /// Plain-English reason it is safe to delete, surfaced to the user.
    pub regenerates: &'static str,
    pub kind: Kind,
}

/// The catalog, entry by entry.
pub open spec fn spec_catalog() -> Seq<Target> {
    seq![
        Target {
            id: "uv",
            tier: Tier::PackageCache,
            regenerates: "re-downloaded on next `uv sync`/`uv pip install`",
            kind: Kind::HomeDir(".cache/uv"),
        },
        Target {
            id: "pip",
            tier: Tier::PackageCache,
            regenerates: "re-downloaded on next `pip install`",
            kind: Kind::HomeDir(".cache/pip"),
        },
        Target {
            id: "npm",
            tier: Tier::PackageCache,
            regenerates: "re-downloaded on next `npm install`",
            kind: Kind::HomeDir(".npm/_cacache"),
        },
        Target {
            id: "yarn",
            tier: Tier::PackageCache,
            regenerates: "re-downloaded on next `yarn install`",
            kind: Kind::HomeDir(".cache/yarn"),
        },
        Target {
            id: "pnpm",
            tier: Tier::PackageCache,
            regenerates: "re-fetched into the pnpm store on next install",
            kind: Kind::HomeDir(".local/share/pnpm/store"),
        },
        Target {
            id: "cargo-registry",
            tier: Tier::PackageCache,
            regenerates: "re-downloaded on next `cargo build`",
            kind: Kind::HomeDir(".cargo/registry/cache"),
        },
        Target {
            id: "go-mod",
            tier: Tier::PackageCache,
            regenerates: "re-downloaded on next `go build`",
            kind: Kind::HomeDir("go/pkg/mod/cache/download"),
        },
        Target {
            id: "gradle",
            tier: Tier::PackageCache,
            regenerates: "re-downloaded on next Gradle build",
            kind: Kind::HomeDir(".gradle/caches"),
        },
        Target {
            id: "huggingface",
            tier: Tier::PackageCache,
            regenerates: "re-downloaded from the HF hub on next use",
            kind: Kind::HomeDir(".cache/huggingface"),
        },
        Target {
            id: "node_modules",
            tier: Tier::BuildArtifact,
            regenerates: "`npm install` / `pnpm install`",
            kind: Kind::NamedDirUnder { name: "node_modules", requires_sibling: None },
        },
        Target {
            id: "venv",
            tier: Tier::BuildArtifact,
            regenerates: "`uv sync` / `python -m venv`",
            kind: Kind::NamedDirUnder { name: ".venv", requires_sibling: None },
        },
        Target {
            id: "next",
            tier: Tier::BuildArtifact,
            regenerates: "`next build`",
            kind: Kind::NamedDirUnder { name: ".next", requires_sibling: None },
        },
        Target {
            id: "cargo-target",
            tier: Tier::BuildArtifact,
            regenerates: "`cargo build`",
            kind: Kind::NamedDirUnder { name: "target", requires_sibling: Some("Cargo.toml") },
        },
        Target {
            id: "pycache",
            tier: Tier::BuildArtifact,
            regenerates: "recompiled by Python on next import",
            kind: Kind::NamedDirUnder { name: "__pycache__", requires_sibling: None },
        },
        Target {
            id: "docker",
            tier: Tier::Docker,
            regenerates: "images/layers rebuilt or re-pulled",
            kind: Kind::External { probe: "docker" },
        },
        Target {
            id: "os-user-cache",
            tier: Tier::OsCache,
            regenerates: "apps rebuild their caches; SOME state may not be regenerable",
            kind: Kind::HomeDir("Library/Caches"),
        },
    ]
}

/// The full catalog. Adding an entry here is the ONLY way to make cachewipe
/// aware of a new deletable thing: keep it auditable.
pub fn catalog() -> (res: Vec<Target>)
    ensures
        res@ == spec_catalog(),
{
    let mut v: Vec<Target> = Vec::new();
    // --- Language / package-manager caches (fully regenerable) ---
    v.push(Target {
        id: "uv",
        tier: Tier::PackageCache,
        regenerates: "re-downloaded on next `uv sync`/`uv pip install`",
        kind: Kind::HomeDir(".cache/uv"),
    });
    v.push(Target {
        id: "pip",
        tier: Tier::PackageCache,
        regenerates: "re-downloaded on next `pip install`",
        kind: Kind::HomeDir(".cache/pip"),
    });
    v.push(Target {
        id: "npm",
        tier: Tier::PackageCache,
        regenerates: "re-downloaded on next `npm install`",
        kind: Kind::HomeDir(".npm/_cacache"),
    });
    v.push(Target {
        id: "yarn",
        tier: Tier::PackageCache,
        regenerates: "re-downloaded on next `yarn install`",
        kind: Kind::HomeDir(".cache/yarn"),
    });
    v.push(Target {
        id: "pnpm",
        tier: Tier::PackageCache,
        regenerates: "re-fetched into the pnpm store on next install",
        kind: Kind::HomeDir(".local/share/pnpm/store"),
    });
    v.push(Target {
        id: "cargo-registry",
        tier: Tier::PackageCache,
        regenerates: "re-downloaded on next `cargo build`",
        kind: Kind::HomeDir(".cargo/registry/cache"),
    });
    v.push(Target {
        id: "go-mod",
        tier: Tier::PackageCache,
        regenerates: "re-downloaded on next `go build`",
        kind: Kind::HomeDir("go/pkg/mod/cache/download"),
    });
    v.push(Target {
        id: "gradle",
        tier: Tier::PackageCache,
        regenerates: "re-downloaded on next Gradle build",
        kind: Kind::HomeDir(".gradle/caches"),
    });
    v.push(Target {
        id: "huggingface",
        tier: Tier::PackageCache,
        regenerates: "re-downloaded from the HF hub on next use",
        kind: Kind::HomeDir(".cache/huggingface"),
    });
    // --- Project build artifacts (regenerate from a build) ---
    // These walk the scan roots; deletion requires the dir be under a root.
    v.push(Target {
        id: "node_modules",
        tier: Tier::BuildArtifact,
        regenerates: "`npm install` / `pnpm install`",
        kind: Kind::NamedDirUnder { name: "node_modules", requires_sibling: None },
    });
    v.push(Target {
        id: "venv",
        tier: Tier::BuildArtifact,
        regenerates: "`uv sync` / `python -m venv`",
        kind: Kind::NamedDirUnder { name: ".venv", requires_sibling: None },
    });
    v.push(Target {
        id: "next",
        tier: Tier::BuildArtifact,
        regenerates: "`next build`",
        kind: Kind::NamedDirUnder { name: ".next", requires_sibling: None },
    });
    v.push(Target {
        id: "cargo-target",
        tier: Tier::BuildArtifact,
        regenerates: "`cargo build`",
        kind: Kind::NamedDirUnder { name: "target", requires_sibling: Some("Cargo.toml") },
    });
    v.push(Target {
        id: "pycache",
        tier: Tier::BuildArtifact,
        regenerates: "recompiled by Python on next import",
        kind: Kind::NamedDirUnder { name: "__pycache__", requires_sibling: None },
    });
    // --- Docker (delegated to the engine, never raw rm) ---
    v.push(Target {
        id: "docker",
        tier: Tier::Docker,
        regenerates: "images/layers rebuilt or re-pulled",
        kind: Kind::External { probe: "docker" },
    });
    // --- OS / app caches (opt-in only) ---
    v.push(Target {
        id: "os-user-cache",
        tier: Tier::OsCache,
        regenerates: "apps rebuild their caches; SOME state may not be regenerable",
        kind: Kind::HomeDir("Library/Caches"),
    });
    assert(v@ =~= spec_catalog());
    v
}

/// Resolve a HomeDir target to an absolute path, given $HOME.
pub fn home_path(home: &str, subpath: &str) -> (res: String)
    ensures
        res@ == spec_join(home@, subpath@),
{
    join(home, subpath)
}

/// Every catalog entry has its own id.
pub proof fn lemma_catalog_ids_distinct()
    ensures
        forall|i: int, j: int|
            0 <= i < j < spec_catalog().len() ==> spec_catalog()[i].id@ != spec_catalog()[j].id@,
{
    reveal_strlit("uv");
    reveal_strlit("pip");
    reveal_strlit("npm");
    reveal_strlit("yarn");
    reveal_strlit("pnpm");
    reveal_strlit("cargo-registry");
    reveal_strlit("go-mod");
    reveal_strlit("gradle");
    reveal_strlit("huggingface");
    reveal_strlit("node_modules");
    reveal_strlit("venv");
    reveal_strlit("next");
    reveal_strlit("cargo-target");
    reveal_strlit("pycache");
    reveal_strlit("docker");
    reveal_strlit("os-user-cache");
    let c = spec_catalog();
    assert forall|i: int, j: int| 0 <= i < j < c.len() implies c[i].id@ != c[j].id@ by {
        if c[i].id@.len() == c[j].id@.len() {
            assert(c[i].id@[0] != c[j].id@[0] || c[i].id@[1] != c[j].id@[1]
                || c[i].id@[2] != c[j].id@[2] || c[i].id@[c[i].id@.len() - 1] != c[j].id@[c[j].id@.len() - 1]);
        }
    }
}

/// How each tier is discovered: package and OS caches are fixed home
/// directories, build artifacts are named directories under a scan root, and
/// Docker is only ever handed to its own engine.
pub proof fn lemma_catalog_tiers_match_kinds()
    ensures
        forall|i: int|
            0 <= i < spec_catalog().len() ==> {
                let t = #[trigger] spec_catalog()[i];
                &&& (t.tier == Tier::PackageCache || t.tier == Tier::OsCache) <==> t.kind is HomeDir
                &&& t.tier == Tier::BuildArtifact <==> t.kind is NamedDirUnder
                &&& t.tier == Tier::Docker <==> t.kind is External
            },
{
}

/// Every fixed cache directory resolves strictly below a non-empty home: its
/// components extend home's, and end in a named component.
pub proof fn lemma_home_dirs_below_home(home: Seq<char>)
    requires
        home.len() > 0,
    ensures
        forall|i: int|
            0 <= i < spec_catalog().len() && (#[trigger] spec_catalog()[i]).kind is HomeDir ==> {
                let sub = spec_catalog()[i].kind->HomeDir_0@;
                let resolved = path_components(spec_join(home, sub));
                &&& is_prefix(path_components(home), resolved)
                &&& resolved.len() > path_components(home).len()
                &&& resolved == path_components(home) + body_components(sub)
            },
{
    reveal_strlit(".cache/uv");
    reveal_strlit(".cache/pip");
    reveal_strlit(".npm/_cacache");
    reveal_strlit(".cache/yarn");
    reveal_strlit(".local/share/pnpm/store");
    reveal_strlit(".cargo/registry/cache");
    reveal_strlit("go/pkg/mod/cache/download");
    reveal_strlit(".gradle/caches");
    reveal_strlit(".cache/huggingface");
    reveal_strlit("Library/Caches");
    let c = spec_catalog();
    assert forall|i: int| 0 <= i < c.len() && (#[trigger] c[i]).kind is HomeDir implies {
        let sub = c[i].kind->HomeDir_0@;
        let resolved = path_components(spec_join(home, sub));
        &&& is_prefix(path_components(home), resolved)
        &&& resolved.len() > path_components(home).len()
        &&& resolved == path_components(home) + body_components(sub)
    } by {
        let sub = c[i].kind->HomeDir_0@;
        assert(sub[0] != '/');
        assert(sub.last() != '/' && sub.last() != '.');
        lemma_join_components(home, sub);
        lemma_body_ends_named(sub);
        let h = path_components(home);
        let resolved = h + body_components(sub);
        assert(resolved.take(h.len() as int) =~= h);
    }
}

/// A build directory called `target` is only taken for one when a
/// `Cargo.toml` sits beside it; no other build artifact needs a marker.
pub proof fn lemma_target_needs_manifest()
    ensures
        forall|i: int|
            0 <= i < spec_catalog().len() ==> match (#[trigger] spec_catalog()[i]).kind {
                Kind::NamedDirUnder { name, requires_sibling } => if name@ == "target"@ {
                    requires_sibling matches Some(m) && m@ == "Cargo.toml"@
                } else {
                    requires_sibling is None
                },
                _ => true,
            },
{
    reveal_strlit("node_modules");
    reveal_strlit(".venv");
    reveal_strlit(".next");
    reveal_strlit("target");
    reveal_strlit("__pycache__");
    assert("node_modules"@.len() != "target"@.len());
    assert(".venv"@.len() != "target"@.len());
    assert(".next"@.len() != "target"@.len());
    assert("__pycache__"@.len() != "target"@.len());
    let c = spec_catalog();
    assert forall|i: int| 0 <= i < c.len() implies match (#[trigger] c[i]).kind {
        Kind::NamedDirUnder { name, requires_sibling } => if name@ == "target"@ {
            requires_sibling matches Some(m) && m@ == "Cargo.toml"@
        } else {
            requires_sibling is None
        },
        _ => true,
    } by {
        if 9 <= i < 14 && i != 12 {
            assert(c[i].kind->name@ != "target"@);
        }
    }
}

} // verus!
