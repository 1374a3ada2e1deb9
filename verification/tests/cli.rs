use cachewipe::cli::{docker_probe_args, docker_prune_args};
use cachewipe::cli::{
    build_report, deletion_outcome, dir_item, dir_step, docker_item, docker_missing_item,
    docker_step, min_age_secs, parse_args, plan, report_fits, tier_included, too_new, Command,
    Config, DirStep, DockerStep, Item, PruneResult, Task, Verdict,
};
use cachewipe::safety::Guard;
use cachewipe::targets::{catalog, Tier};

fn args(a: &[&str]) -> Vec<String> {
    a.iter().map(|s| s.to_string()).collect()
}

fn run_cfg(a: &[&str]) -> Config {
    match parse_args(&args(a)) {
        Ok(Command::Run(c)) => c,
        _ => panic!("expected a run for {a:?}"),
    }
}

fn err(a: &[&str]) -> String {
    match parse_args(&args(a)) {
        Err(e) => e,
        _ => panic!("expected an error for {a:?}"),
    }
}

#[test]
fn defaults_report_only() {
    let c = run_cfg(&[]);
    assert!(!c.apply && !c.include_os_caches && !c.json);
    assert_eq!(c.min_age_days, 0);
    assert!(c.scan_roots.is_empty());
}

#[test]
fn flags_are_read() {
    let c = run_cfg(&["--apply", "--json", "--include-os-caches", "--min-age-days", "14", "--root", "/p", "--root", "/q"]);
    assert!(c.apply && c.json && c.include_os_caches);
    assert_eq!(c.min_age_days, 14);
    assert_eq!(c.scan_roots, vec!["/p", "/q"]);
    let c = run_cfg(&["--root", "--apply"]);
    assert!(!c.apply);
    assert_eq!(c.scan_roots, vec!["--apply"]);
}

#[test]
fn bad_arguments_are_reported() {
    assert_eq!(err(&["--min-age-days"]), "--min-age-days needs a value");
    assert_eq!(err(&["--min-age-days", "x"]), "invalid --min-age-days");
    assert_eq!(err(&["--root"]), "--root needs a path");
    assert_eq!(err(&["--frobnicate"]), "unknown argument: --frobnicate");
    assert!(matches!(parse_args(&args(&["--apply", "-h", "--bogus"])), Ok(Command::Help)));
    assert!(matches!(parse_args(&args(&["--help"])), Ok(Command::Help)));
    assert_eq!(err(&["--bogus", "--help"]), "unknown argument: --bogus");
}

#[test]
fn os_caches_only_with_opt_in() {
    assert!(!tier_included(Tier::OsCache, false));
    assert!(tier_included(Tier::OsCache, true));
    assert!(tier_included(Tier::PackageCache, false));
    let cat = catalog();
    let off = plan(&run_cfg(&[]), "/h");
    assert!(off.iter().all(|t| match t {
        Task::Dir { target, .. } => cat[*target].id != "os-user-cache",
        _ => true,
    }));
    let on = plan(&run_cfg(&["--include-os-caches"]), "/h");
    assert!(on.iter().any(|t| matches!(t, Task::Dir { path, .. } if path == "/h/Library/Caches")));
}

#[test]
fn artifacts_are_searched_only_under_roots() {
    let none = plan(&run_cfg(&[]), "/h");
    assert!(!none.iter().any(|t| matches!(t, Task::Named { .. })));
    let some = plan(&run_cfg(&["--root", "/code"]), "/h");
    let named: Vec<(String, String)> = some
        .iter()
        .filter_map(|t| match t {
            Task::Named { name, root, .. } => Some((name.clone(), root.clone())),
            _ => None,
        })
        .collect();
    assert_eq!(named.len(), 5);
    assert!(named.iter().all(|(_, r)| r == "/code"));
    assert_eq!(named[0].0, "node_modules");
}

#[test]
fn plan_follows_catalog_order() {
    let p = plan(&run_cfg(&[]), "/h");
    assert_eq!(p.len(), 10);
    assert!(matches!(&p[0], Task::Dir { target: 0, path } if path == "/h/.cache/uv"));
    assert!(matches!(&p[9], Task::External { target: 14, probe } if probe == "docker"));
}

#[test]
fn guard_refusals_are_skipped_with_reasons() {
    let cases = [
        (Guard::Missing, "not present"),
        (Guard::Protected, "protected path — refused"),
        (Guard::OutsideRoot, "outside allowed root — refused"),
        (Guard::InUse, "in use (active lock) — refused"),
    ];
    for (g, why) in cases {
        match dir_step(&g, false, 0, true) {
            DirStep::Report { verdict, reason } => {
                assert_eq!(verdict, Verdict::Skipped);
                assert_eq!(reason, why);
            }
            DirStep::Delete => panic!("refused dir must not be deleted"),
        }
    }
}

#[test]
fn dry_run_reports_and_apply_deletes() {
    match dir_step(&Guard::Allowed, false, 0, false) {
        DirStep::Report { verdict, reason } => {
            assert_eq!(verdict, Verdict::Reclaimable);
            assert_eq!(reason, "dry-run");
        }
        DirStep::Delete => panic!("dry-run must not delete"),
    }
    assert!(matches!(dir_step(&Guard::Allowed, false, 0, true), DirStep::Delete));
}

#[test]
fn age_gate_skips_recent_dirs() {
    assert_eq!(min_age_secs(14), 14 * 86_400);
    assert_eq!(min_age_secs(u64::MAX), u64::MAX);
    assert!(too_new(86_400, 1_000, 1_000 + 3_600));
    assert!(!too_new(86_400, 1_000, 1_000 + 86_400));
    assert!(!too_new(0, 1_000, 1_000));
    assert!(!too_new(86_400, 0, 5));
    assert!(too_new(86_400, 9_000, 5));
    match dir_step(&Guard::Allowed, true, 14, true) {
        DirStep::Report { verdict, reason } => {
            assert_eq!(verdict, Verdict::Skipped);
            assert_eq!(reason, "newer than 14 days");
        }
        DirStep::Delete => panic!("too-new dir must not be deleted"),
    }
}

#[test]
fn deletion_outcomes() {
    let (v, r) = deletion_outcome(&Ok(()));
    assert_eq!((v, r.as_str()), (Verdict::Reclaimable, "deleted"));
    let (v, r) = deletion_outcome(&Err("Permission denied (os error 13)".to_string()));
    assert_eq!((v, r.as_str()), (Verdict::Skipped, "delete failed: Permission denied (os error 13)"));
    assert_eq!(Verdict::Reclaimable.as_str(), "reclaimable");
    assert_eq!(Verdict::Skipped.as_str(), "skipped");
}

#[test]
fn docker_is_pruned_only_when_applying() {
    assert_eq!(docker_step(false, true), DockerStep::ReportMissing);
    assert_eq!(docker_step(true, true), DockerStep::Prune);
    assert_eq!(docker_step(true, false), DockerStep::ReportDryRun);
    let cat = catalog();
    let d = &cat[14];
    let m = docker_missing_item(d);
    assert_eq!((m.id.as_str(), m.path.as_str(), m.reason.as_str()), ("docker", "docker daemon", "docker not installed"));
    assert_eq!(m.verdict, Verdict::Skipped);
    let dry = docker_item(d, &None);
    assert_eq!(dry.reason, "dry-run — run `docker system df` to size; apply prunes dangling only");
    assert_eq!(dry.verdict, Verdict::Reclaimable);
    assert_eq!(dry.tier, "docker");
    let ok = docker_item(d, &Some(PruneResult::Succeeded));
    assert_eq!(ok.reason, "pruned (dangling images + build cache)");
    let failed = docker_item(d, &Some(PruneResult::Failed("  daemon not running\n".to_string())));
    assert_eq!(failed.reason, "docker prune failed: daemon not running");
    let error = docker_item(d, &Some(PruneResult::Error("not found".to_string())));
    assert_eq!(error.reason, "docker prune error: not found");
}

fn item(bytes: u64, verdict: Verdict, reason: &str) -> Item {
    let cat = catalog();
    dir_item(&cat[0], "/h/.cache/uv".to_string(), bytes, 1, verdict, reason.to_string())
}

#[test]
fn report_totals() {
    let items = vec![
        item(100, Verdict::Reclaimable, "dry-run"),
        item(50, Verdict::Skipped, "not present"),
        item(7, Verdict::Reclaimable, "deleted"),
    ];
    assert!(report_fits(&items));
    let r = build_report(false, items);
    assert!(r.dry_run);
    assert_eq!(r.total_reclaimable_bytes, 107);
    assert_eq!(r.total_deleted_bytes, 7);
    assert_eq!(r.items.len(), 3);
    assert_eq!(r.items[0].id, "uv");
    assert_eq!(r.items[0].tier, "package-cache");
    let r = build_report(true, vec![]);
    assert!(!r.dry_run);
    assert_eq!((r.total_reclaimable_bytes, r.total_deleted_bytes), (0, 0));
    assert!(!report_fits(&vec![item(u64::MAX, Verdict::Reclaimable, "dry-run"), item(1, Verdict::Skipped, "deleted")]));
}

#[test]
fn docker_arguments_are_scoped() {
    assert_eq!(docker_probe_args(), vec!["--version"]);
    let prune = docker_prune_args();
    assert_eq!(prune, vec!["system", "prune", "-f"]);
    assert!(!prune.iter().any(|a| *a == "-a" || *a == "--all" || *a == "--volumes"));
}

#[test]
fn cargo_target_search_needs_a_manifest() {
    let p = plan(&run_cfg(&["--root", "/code"]), "/h");
    for t in &p {
        if let Task::Named { name, requires_sibling, .. } = t {
            if name == "target" {
                assert_eq!(requires_sibling, &vec!["Cargo.toml".to_string()]);
            } else {
                assert!(requires_sibling.is_empty());
            }
        }
    }
}
