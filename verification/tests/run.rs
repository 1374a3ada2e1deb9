use cachewipe::cli::{plan, Config, DirStep, PruneResult, Task, Verdict};
use cachewipe::run::{judge_dir, Probes, RunLog};
use cachewipe::safety::{Anchor, Guard};

fn config(apply: bool, roots: &[&str]) -> Config {
    Config {
        apply,
        include_os_caches: false,
        min_age_days: 0,
        scan_roots: roots.iter().map(|r| r.to_string()).collect(),
        json: false,
    }
}

fn on_disk(exists: bool, lock_present: bool) -> Probes {
    Probes { exists, lock_present, candidate_anchor: None, root_anchor: None }
}

/// The index of the plan's task for catalog entry `target`.
fn task_of(cfg: &Config, home: &str, target: usize) -> usize {
    plan(cfg, home)
        .iter()
        .position(|t| match t {
            Task::Dir { target: x, .. } | Task::Named { target: x, .. } | Task::External { target: x, .. } => {
                *x == target
            }
        })
        .unwrap()
}

#[test]
fn dry_run_records_nothing_removed() {
    let cfg = config(false, &[]);
    let mut log = RunLog::new(&cfg, "/h", None);
    let uv = task_of(&cfg, "/h", 0);
    let pip = task_of(&cfg, "/h", 1);
    let docker = task_of(&cfg, "/h", 14);
    let here = on_disk(true, false);
    assert!(log.admits_candidate(uv, "/h/.cache/uv", &here));
    assert!(matches!(log.dir_step(uv, "/h/.cache/uv", &here, false), DirStep::Report { .. }));
    log.record_dir(uv, "/h/.cache/uv".to_string(), &here, 4096, 1, false, &None);
    log.record_dir(pip, "/h/.cache/pip".to_string(), &on_disk(false, false), 9, 1, false, &None);
    log.record_docker(docker, true, &None);
    assert!(log.fits());
    let r = log.finish();
    assert!(r.dry_run);
    assert_eq!(r.total_reclaimable_bytes, 4096);
    assert_eq!(r.total_deleted_bytes, 0);
    assert_eq!(r.items[0].id, "uv");
    assert_eq!(r.items[0].reason, "dry-run");
    assert_eq!(r.items[0].verdict, Verdict::Reclaimable);
    assert_eq!(r.items[1].reason, "not present");
    assert_eq!(r.items[2].path, "docker (dangling images + build cache)");
}

#[test]
fn applying_run_records_removals() {
    let cfg = config(true, &[]);
    let mut log = RunLog::new(&cfg, "/h", None);
    let uv = task_of(&cfg, "/h", 0);
    let pip = task_of(&cfg, "/h", 1);
    let npm = task_of(&cfg, "/h", 2);
    let docker = task_of(&cfg, "/h", 14);
    let here = on_disk(true, false);
    assert!(matches!(log.dir_step(uv, "/h/.cache/uv", &here, false), DirStep::Delete));
    log.record_dir(uv, "/h/.cache/uv".to_string(), &here, 4096, 1, false, &Some(Ok(())));
    log.record_dir(
        pip,
        "/h/.cache/pip".to_string(),
        &here,
        7,
        1,
        false,
        &Some(Err("Permission denied".to_string())),
    );
    let locked = on_disk(true, true);
    assert!(matches!(log.dir_step(npm, "/h/.npm/_cacache", &locked, false), DirStep::Report { .. }));
    log.record_dir(npm, "/h/.npm/_cacache".to_string(), &locked, 5, 1, false, &None);
    log.record_docker(docker, true, &Some(PruneResult::Succeeded));
    log.record_docker(docker, false, &None);
    let r = log.finish();
    assert!(!r.dry_run);
    assert_eq!(r.total_deleted_bytes, 4096);
    assert_eq!(r.total_reclaimable_bytes, 4096);
    assert_eq!(r.items[0].reason, "deleted");
    assert_eq!(r.items[1].reason, "delete failed: Permission denied");
    assert_eq!(r.items[1].verdict, Verdict::Skipped);
    assert_eq!(r.items[2].reason, "in use (active lock) — refused");
    assert_eq!(r.items[3].reason, "pruned (dangling images + build cache)");
    assert_eq!(r.items[4].reason, "docker not installed");
}

#[test]
fn a_fixed_task_admits_only_its_own_directory() {
    let cfg = config(true, &["/w"]);
    let log = RunLog::new(&cfg, "/h", None);
    let uv = task_of(&cfg, "/h", 0);
    let docker = task_of(&cfg, "/h", 14);
    let node = task_of(&cfg, "/h", 9);
    let here = on_disk(true, false);
    assert!(log.admits_candidate(uv, "/h/.cache/uv", &here));
    assert!(!log.admits_candidate(uv, "/h/.cache/pip", &here));
    assert!(!log.admits_candidate(docker, "/h/.cache/uv", &here));
    assert!(!log.admits_candidate(1000, "/h/.cache/uv", &here));
    assert!(log.admits_candidate(node, "/w/app/node_modules", &here));
    let far = Probes {
        exists: true,
        lock_present: false,
        candidate_anchor: Some(Anchor { index: 9, canonical: None }),
        root_anchor: None,
    };
    assert!(!log.admits_candidate(node, "/w/app/node_modules", &far));
}

#[test]
fn found_directories_are_judged_against_their_root() {
    let cfg = config(true, &["/w"]);
    let log = RunLog::new(&cfg, "/h", None);
    let node = task_of(&cfg, "/h", 9);
    let here = on_disk(true, false);
    assert!(matches!(log.dir_step(node, "/w/app/node_modules", &here, false), DirStep::Delete));
    // A found directory that resolves outside its root is refused.
    let escaped = Probes {
        exists: true,
        lock_present: false,
        candidate_anchor: Some(Anchor { index: 0, canonical: Some("/etc/node_modules".to_string()) }),
        root_anchor: None,
    };
    match log.dir_step(node, "/w/app/node_modules", &escaped, false) {
        DirStep::Report { verdict, reason } => {
            assert_eq!(verdict, Verdict::Skipped);
            assert_eq!(reason, "outside allowed root — refused");
        }
        DirStep::Delete => panic!("an escaped directory must not be removed"),
    }
    // Too new to reclaim.
    assert!(matches!(log.dir_step(node, "/w/app/node_modules", &here, true), DirStep::Report { .. }));
}

#[test]
fn judge_dir_removes_only_what_every_guard_allows() {
    let here = on_disk(true, false);
    let (g, step) = judge_dir("/h/.cache/uv", "/h/.cache/uv", "/h", &None, &here, false, 0, true);
    assert_eq!(g, Guard::Allowed);
    assert!(matches!(step, DirStep::Delete));
    let (g, step) = judge_dir("/h/.cache/uv", "/h/.cache/uv", "/h", &None, &here, false, 0, false);
    assert_eq!(g, Guard::Allowed);
    assert!(matches!(step, DirStep::Report { .. }));
    let (g, step) = judge_dir("/h", "/h", "/h", &None, &here, false, 0, true);
    assert_eq!(g, Guard::Protected);
    assert!(matches!(step, DirStep::Report { .. }));
    let (g, _) = judge_dir("/h/.cache/uv", "/h/.cache/uv", "/h", &None, &on_disk(true, true), false, 0, true);
    assert_eq!(g, Guard::InUse);
    let (g, _) = judge_dir("/h/.cache/uv", "/h/.cache/uv", "/h", &None, &on_disk(false, false), false, 0, true);
    assert_eq!(g, Guard::Missing);
    // A cache directory that is a symlink to home resolves to home: refused.
    let to_home = Probes {
        exists: true,
        lock_present: false,
        candidate_anchor: Some(Anchor { index: 0, canonical: Some("/h".to_string()) }),
        root_anchor: Some(Anchor { index: 0, canonical: Some("/h".to_string()) }),
    };
    let (g, step) = judge_dir("/h/.cache/uv", "/h/.cache/uv", "/h", &None, &to_home, false, 0, true);
    assert_eq!(g, Guard::Protected);
    assert!(matches!(step, DirStep::Report { .. }));
    let (_, step) = judge_dir("/h/.cache/uv", "/h/.cache/uv", "/h", &None, &here, true, 7, true);
    match step {
        DirStep::Report { verdict, reason } => {
            assert_eq!(verdict, Verdict::Skipped);
            assert_eq!(reason, "newer than 7 days");
        }
        DirStep::Delete => panic!("a directory younger than the age gate must not be removed"),
    }
}
