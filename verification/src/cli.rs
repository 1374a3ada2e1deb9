//! The decisions of a cachewipe run: reading the command line, which catalog
//! targets a run visits, what happens to each candidate directory and to
//! Docker, and the report's totals.
//!
//! The caller performs the filesystem and process work that these decisions
//! call for, and hands the outcomes back.
use vstd::prelude::*;
use crate::path::{is_prefix, join, path_components, spec_join};
use crate::safety::Guard;
use crate::targets::{
    catalog, lemma_catalog_tiers_match_kinds, lemma_home_dirs_below_home, spec_catalog, tier_name,
    Kind, Target, Tier,
};
use crate::text::{decimal, decimal_string, parse_u64, spec_parse_u64, trim, trim_str};

verus! {

/// Options of a run.
pub struct Config {
    pub apply: bool,
    pub include_os_caches: bool,
    pub min_age_days: u64,
    pub scan_roots: Vec<String>,
    pub json: bool,
}

/// The options of a run, as plain values.
pub struct Settings {
    pub apply: bool,
    pub include_os_caches: bool,
    pub min_age_days: u64,
    pub scan_roots: Seq<Seq<char>>,
    pub json: bool,
}

impl View for Config {
    type V = Settings;

    open spec fn view(&self) -> Settings {
        Settings {
            apply: self.apply,
            include_os_caches: self.include_os_caches,
            min_age_days: self.min_age_days,
            scan_roots: self.scan_roots.deep_view(),
            json: self.json,
        }
    }
}

/// What the command line asks for.
pub enum Command {
    Run(Config),
    Help,
}

/// What parsing a command line comes to.
pub enum ParseOutcome {
    Run(Settings),
    Help,
    Fail(Seq<char>),
}

/// The options when no flag is given: report only, no OS caches, no age gate,
/// no scan roots, human output.
pub open spec fn default_settings() -> Settings {
    Settings {
        apply: false,
        include_os_caches: false,
        min_age_days: 0,
        scan_roots: seq![],
        json: false,
    }
}

/// Parse `args` (program name excluded) on top of `acc`, left to right; help
/// and errors stop at once.
pub open spec fn parse_from(args: Seq<Seq<char>>, acc: Settings) -> ParseOutcome
    decreases args.len(),
{
    if args.len() == 0 {
        ParseOutcome::Run(acc)
    } else {
        let a = args[0];
        let rest = args.drop_first();
        if a == "--apply"@ {
            parse_from(rest, Settings { apply: true, ..acc })
        } else if a == "--include-os-caches"@ {
            parse_from(rest, Settings { include_os_caches: true, ..acc })
        } else if a == "--json"@ {
            parse_from(rest, Settings { json: true, ..acc })
        } else if a == "--min-age-days"@ {
            if rest.len() == 0 {
                ParseOutcome::Fail("--min-age-days needs a value"@)
            } else {
                match spec_parse_u64(rest[0]) {
                    Some(n) => parse_from(rest.drop_first(), Settings { min_age_days: n, ..acc }),
                    None => ParseOutcome::Fail("invalid --min-age-days"@),
                }
            }
        } else if a == "--root"@ {
            if rest.len() == 0 {
                ParseOutcome::Fail("--root needs a path"@)
            } else {
                parse_from(
                    rest.drop_first(),
                    Settings { scan_roots: acc.scan_roots.push(rest[0]), ..acc },
                )
            }
        } else if a == "-h"@ || a == "--help"@ {
            ParseOutcome::Help
        } else {
            ParseOutcome::Fail("unknown argument: "@ + a)
        }
    }
}

/// `res` is what parsing came to.
pub open spec fn parsed_as(res: Result<Command, String>, o: ParseOutcome) -> bool {
    match o {
        ParseOutcome::Run(s) => res matches Ok(Command::Run(c)) && c@ == s,
        ParseOutcome::Help => res matches Ok(Command::Help),
        ParseOutcome::Fail(m) => res matches Err(e) && e@ == m,
    }
}

/// Read the command line (program name excluded).
pub fn parse_args(args: &Vec<String>) -> (res: Result<Command, String>)
    ensures
        parsed_as(res, parse_from(args.deep_view(), default_settings())),
{
    let mut cfg = Config {
        apply: false,
        include_os_caches: false,
        min_age_days: 0,
        scan_roots: Vec::new(),
        json: false,
    };
    let ghost all = args.deep_view();
    assert(cfg@ == default_settings()) by {
        assert(cfg.scan_roots.deep_view() =~= Seq::<Seq<char>>::empty());
    }
    assert(all.skip(0) =~= all);
    let mut i: usize = 0;
    while i < args.len()
        invariant
            all == args.deep_view(),
            0 <= i <= args.len(),
            parse_from(all, default_settings()) == parse_from(all.skip(i as int), cfg@),
        decreases args.len() - i,
    {
        let ghost rest = all.skip(i as int);
        assert(rest[0] == args@[i as int]@);
        assert(rest.drop_first() =~= all.skip(i as int + 1));
        let a = &args[i];
        if *a == String::from_str("--apply") {
            cfg.apply = true;
        } else if *a == String::from_str("--include-os-caches") {
            cfg.include_os_caches = true;
        } else if *a == String::from_str("--json") {
            cfg.json = true;
        } else if *a == String::from_str("--min-age-days") {
            if i + 1 >= args.len() {
                return Err(String::from_str("--min-age-days needs a value"));
            }
            assert(rest.drop_first()[0] == args@[i + 1]@);
            match parse_u64(args[i + 1].as_str()) {
                Some(n) => {
                    cfg.min_age_days = n;
                },
                None => {
                    return Err(String::from_str("invalid --min-age-days"));
                },
            }
            assert(rest.drop_first().drop_first() =~= all.skip(i as int + 2));
            i = i + 1;
        } else if *a == String::from_str("--root") {
            if i + 1 >= args.len() {
                return Err(String::from_str("--root needs a path"));
            }
            assert(rest.drop_first()[0] == args@[i + 1]@);
            let ghost before = cfg.scan_roots.deep_view();
            cfg.scan_roots.push(args[i + 1].clone());
            assert(cfg.scan_roots.deep_view() =~= before.push(args@[i + 1]@));
            assert(rest.drop_first().drop_first() =~= all.skip(i as int + 2));
            i = i + 1;
        } else if *a == String::from_str("-h") || *a == String::from_str("--help") {
            return Ok(Command::Help);
        } else {
            return Err(String::from_str("unknown argument: ").concat(a.as_str()));
        }
        i = i + 1;
    }
    assert(all.skip(args.len() as int) =~= Seq::<Seq<char>>::empty());
    Ok(Command::Run(cfg))
}

/// Whether a run visits targets of this tier: OS caches only when opted in,
/// every other tier as its default says.
pub open spec fn spec_tier_included(tier: Tier, include_os_caches: bool) -> bool {
    if tier == Tier::OsCache {
        include_os_caches
    } else {
        tier != Tier::OsCache
    }
}

/// Tier gating: OS caches off unless opted in; others default-on.
pub fn tier_included(tier: Tier, include_os_caches: bool) -> (res: bool)
    ensures
        res == spec_tier_included(tier, include_os_caches),
{
    match tier {
        Tier::OsCache => include_os_caches,
        _ => tier.default_on(),
    }
}

/// One unit of work of a run, in catalog order. `target` indexes the catalog.
pub enum Task {
    /// A fixed cache directory, checked with itself as its root.
    Dir { target: usize, path: String },
    /// Walk `root` for directories called `name` (beside one of the files
    /// `requires_sibling`, when there are any); each one found is checked
    /// with `root` as its root.
    Named { target: usize, name: String, requires_sibling: Vec<String>, root: String },
    /// Hand the target to its own engine, found by `probe`.
    External { target: usize, probe: String },
}

/// A task as plain values.
pub enum TaskView {
    Dir { target: nat, path: Seq<char> },
    Named { target: nat, name: Seq<char>, requires_sibling: Seq<Seq<char>>, root: Seq<char> },
    External { target: nat, probe: Seq<char> },
}

impl View for Task {
    type V = TaskView;

    open spec fn view(&self) -> TaskView {
        match self {
            Task::Dir { target, path } => TaskView::Dir { target: *target as nat, path: path@ },
            Task::Named { target, name, requires_sibling, root } => TaskView::Named {
                target: *target as nat,
                name: name@,
                requires_sibling: requires_sibling.deep_view(),
                root: root@,
            },
            Task::External { target, probe } => TaskView::External {
                target: *target as nat,
                probe: probe@,
            },
        }
    }
}

/// The catalog index a task works for.
pub open spec fn task_target(t: TaskView) -> nat {
    match t {
        TaskView::Dir { target, .. } => target,
        TaskView::Named { target, .. } => target,
        TaskView::External { target, .. } => target,
    }
}

/// The marker files a named directory needs beside it.
pub open spec fn sibling_list(requires_sibling: Option<&'static str>) -> Seq<Seq<char>> {
    match requires_sibling {
        Some(m) => seq![m@],
        None => seq![],
    }
}

/// The tasks of catalog entry `i`: none when its tier is not included; its
/// directory under home; one walk per scan root; or its engine.
pub open spec fn tasks_for(i: nat, cfg: Settings, home: Seq<char>) -> Seq<TaskView> {
    let t = spec_catalog()[i as int];
    if !spec_tier_included(t.tier, cfg.include_os_caches) {
        seq![]
    } else {
        match t.kind {
            Kind::HomeDir(sub) => seq![TaskView::Dir { target: i, path: spec_join(home, sub@) }],
            Kind::NamedDirUnder { name, requires_sibling } => cfg.scan_roots.map_values(
                |r: Seq<char>|
                    TaskView::Named {
                        target: i,
                        name: name@,
                        requires_sibling: sibling_list(requires_sibling),
                        root: r,
                    },
            ),
            Kind::External { probe } => seq![TaskView::External { target: i, probe: probe@ }],
        }
    }
}

/// The tasks of the first `n` catalog entries, in order.
pub open spec fn plan_prefix(cfg: Settings, home: Seq<char>, n: nat) -> Seq<TaskView>
    decreases n,
{
    if n == 0 {
        seq![]
    } else {
        plan_prefix(cfg, home, (n - 1) as nat) + tasks_for((n - 1) as nat, cfg, home)
    }
}

/// Every task of a run, in catalog order.
pub open spec fn spec_plan(cfg: Settings, home: Seq<char>) -> Seq<TaskView> {
    plan_prefix(cfg, home, spec_catalog().len())
}

/// The work of a run with options `cfg` and home directory `home`.
pub fn plan(cfg: &Config, home: &str) -> (res: Vec<Task>)
    ensures
        res@.map_values(|t: Task| t@) == spec_plan(cfg@, home@),
{
    let cat = catalog();
    let mut out: Vec<Task> = Vec::new();
    let mut i: usize = 0;
    while i < cat.len()
        invariant
            cat@ == spec_catalog(),
            0 <= i <= cat.len(),
            out@.map_values(|t: Task| t@) =~= plan_prefix(cfg@, home@, i as nat),
        decreases cat.len() - i,
    {
        let ghost before = out@.map_values(|t: Task| t@);
        let t = &cat[i];
        if tier_included(t.tier, cfg.include_os_caches) {
            match t.kind {
                Kind::HomeDir(sub) => {
                    out.push(Task::Dir { target: i, path: join(home, sub) });
                    assert(out@.map_values(|t: Task| t@) =~= before + tasks_for(i as nat, cfg@, home@));
                },
                Kind::NamedDirUnder { name, requires_sibling } => {
                    let mut r: usize = 0;
                    while r < cfg.scan_roots.len()
                        invariant
                            cat@ == spec_catalog(),
                            0 <= i < cat.len(),
                            cat@[i as int].kind == (Kind::NamedDirUnder { name, requires_sibling }),
                            0 <= r <= cfg.scan_roots.len(),
                            out@.map_values(|t: Task| t@) =~= before + cfg.scan_roots.deep_view().take(
                                r as int,
                            ).map_values(
                                |root: Seq<char>|
                                    TaskView::Named {
                                        target: i as nat,
                                        name: name@,
                                        requires_sibling: sibling_list(requires_sibling),
                                        root: root,
                                    },
                            ),
                        decreases cfg.scan_roots.len() - r,
                    {
                        let ghost mid = out@.map_values(|t: Task| t@);
                        let mut markers: Vec<String> = Vec::new();
                        if let Some(m) = requires_sibling {
                            markers.push(String::from_str(m));
                        }
                        assert(markers.deep_view() =~= sibling_list(requires_sibling));
                        out.push(
                            Task::Named {
                                target: i,
                                name: String::from_str(name),
                                requires_sibling: markers,
                                root: cfg.scan_roots[r].clone(),
                            },
                        );
                        assert(out@.map_values(|t: Task| t@) =~= mid.push(
                            TaskView::Named {
                                target: i as nat,
                                name: name@,
                                requires_sibling: sibling_list(requires_sibling),
                                root: cfg.scan_roots@[r as int]@,
                            },
                        ));
                        assert(cfg.scan_roots.deep_view().take(r as int + 1) =~= cfg.scan_roots.deep_view().take(
                            r as int,
                        ).push(cfg.scan_roots@[r as int]@));
                        r = r + 1;
                    }
                    assert(cfg.scan_roots.deep_view().take(cfg.scan_roots.len() as int)
                        =~= cfg.scan_roots.deep_view());
                },
                Kind::External { probe } => {
                    out.push(Task::External { target: i, probe: String::from_str(probe) });
                    assert(out@.map_values(|t: Task| t@) =~= before + tasks_for(i as nat, cfg@, home@));
                },
            }
        }
        assert(plan_prefix(cfg@, home@, i as nat + 1) == plan_prefix(cfg@, home@, i as nat)
            + tasks_for(i as nat, cfg@, home@));
        i = i + 1;
    }
    out
}

/// Whether an item counts as freed space, and why it was skipped otherwise.
#[derive(Debug, Clone, Copy, PartialEq, Eq, Structural)]
pub enum Verdict {
    Reclaimable,
    Skipped,
}

/// The label of each verdict.
pub open spec fn verdict_name(v: Verdict) -> Seq<char> {
    match v {
        Verdict::Reclaimable => "reclaimable"@,
        Verdict::Skipped => "skipped"@,
    }
}

impl Verdict {
    pub fn as_str(self) -> (res: &'static str)
        ensures
            res@ == verdict_name(self),
    {
        match self {
            Verdict::Reclaimable => "reclaimable",
            Verdict::Skipped => "skipped",
        }
    }
}

/// Seconds in the age gate: `days` days, saturating.
pub open spec fn spec_min_age_secs(days: u64) -> u64 {
    if days * 86400 <= u64::MAX {
        (days * 86400) as u64
    } else {
        u64::MAX
    }
}

pub fn min_age_secs(days: u64) -> (res: u64)
    ensures
        res == spec_min_age_secs(days),
{
    match days.checked_mul(86400) {
        Some(s) => s,
        None => u64::MAX,
    }
}

/// A directory is too new to reclaim when a minimum age is set, its newest
/// file has a known modification time, and fewer seconds than the minimum
/// have passed since then.
pub open spec fn spec_too_new(min_age_secs: u64, newest: u64, now: u64) -> bool {
    let age = if now >= newest {
        now - newest
    } else {
        0
    };
    min_age_secs > 0 && newest > 0 && age < min_age_secs
}

/// Age gate: skip dirs whose newest file is younger than the threshold.
pub fn too_new(min_age_secs: u64, newest: u64, now: u64) -> (res: bool)
    ensures
        res == spec_too_new(min_age_secs, newest, now),
{
    min_age_secs > 0 && newest > 0 && now.saturating_sub(newest) < min_age_secs
}

/// What happens to a candidate directory.
pub enum DirStep {
    /// Report it with this verdict and reason; nothing is removed.
    Report { verdict: Verdict, reason: String },
    /// Remove it, then report the outcome with `deletion_outcome`.
    Delete,
}

/// The reason reported for a directory that a guard refused.
pub open spec fn refusal_reason(g: Guard) -> Seq<char> {
    match g {
        Guard::Missing => "not present"@,
        Guard::Protected => "protected path — refused"@,
        Guard::OutsideRoot => "outside allowed root — refused"@,
        Guard::InUse => "in use (active lock) — refused"@,
        Guard::Allowed => seq![],
    }
}

/// A directory is removed only when every guard passed, it is old enough, and
/// the run applies; otherwise it is reported as skipped (with the reason) or,
/// in a dry run, as reclaimable.
pub open spec fn step_is(step: DirStep, guard: Guard, too_new: bool, min_age_days: u64, apply: bool) -> bool {
    if guard != Guard::Allowed {
        step matches DirStep::Report { verdict, reason } && verdict == Verdict::Skipped && reason@
            == refusal_reason(guard)
    } else if too_new {
        step matches DirStep::Report { verdict, reason } && verdict == Verdict::Skipped && reason@
            == "newer than "@ + decimal(min_age_days as nat) + " days"@
    } else if apply {
        step is Delete
    } else {
        step matches DirStep::Report { verdict, reason } && verdict == Verdict::Reclaimable
            && reason@ == "dry-run"@
    }
}

/// Decide what to do with a candidate directory from its guard verdict.
pub fn dir_step(guard: &Guard, too_new: bool, min_age_days: u64, apply: bool) -> (res: DirStep)
    ensures
        step_is(res, *guard, too_new, min_age_days, apply),
{
    match guard {
        Guard::Missing => DirStep::Report {
            verdict: Verdict::Skipped,
            reason: String::from_str("not present"),
        },
        Guard::Protected => DirStep::Report {
            verdict: Verdict::Skipped,
            reason: String::from_str("protected path — refused"),
        },
        Guard::OutsideRoot => DirStep::Report {
            verdict: Verdict::Skipped,
            reason: String::from_str("outside allowed root — refused"),
        },
        Guard::InUse => DirStep::Report {
            verdict: Verdict::Skipped,
            reason: String::from_str("in use (active lock) — refused"),
        },
        Guard::Allowed => {
            if too_new {
                let mut reason = String::from_str("newer than ");
                let days = decimal_string(min_age_days);
                reason.append(days.as_str());
                reason.append(" days");
                DirStep::Report { verdict: Verdict::Skipped, reason }
            } else if apply {
                DirStep::Delete
            } else {
                DirStep::Report { verdict: Verdict::Reclaimable, reason: String::from_str("dry-run") }
            }
        },
    }
}

/// The verdict and reason after trying to remove a directory: `Err` carries
/// the error's message.
pub fn deletion_outcome(result: &Result<(), String>) -> (res: (Verdict, String))
    ensures
        match result {
            Ok(_) => res.0 == Verdict::Reclaimable && res.1@ == "deleted"@,
            Err(e) => res.0 == Verdict::Skipped && res.1@ == "delete failed: "@ + e@,
        },
{
    match result {
        Ok(_) => (Verdict::Reclaimable, String::from_str("deleted")),
        Err(e) => (Verdict::Skipped, String::from_str("delete failed: ").concat(e.as_str())),
    }
}

/// One line of the report.
pub struct Item {
    pub id: String,
    pub tier: String,
    pub path: String,
    pub bytes: u64,
    pub files: u64,
    pub regenerates: String,
    pub verdict: Verdict,
    /// Why it was skipped, or "dry-run" / "deleted".
    pub reason: String,
}

/// The item's fields that come from its catalog entry.
pub open spec fn describes(item: Item, target: Target) -> bool {
    &&& item.id@ == target.id@
    &&& item.tier@ == tier_name(target.tier)
    &&& item.regenerates@ == target.regenerates@
}

/// The report line for a directory of `target`.
pub fn dir_item(
    target: &Target,
    path: String,
    bytes: u64,
    files: u64,
    verdict: Verdict,
    reason: String,
) -> (res: Item)
    ensures
        describes(res, *target),
        res.path == path,
        res.bytes == bytes,
        res.files == files,
        res.verdict == verdict,
        res.reason == reason,
{
    Item {
        id: String::from_str(target.id),
        tier: String::from_str(target.tier.as_str()),
        path,
        bytes,
        files,
        regenerates: String::from_str(target.regenerates),
        verdict,
        reason,
    }
}

/// What to do about Docker.
#[derive(Debug, PartialEq, Eq, Structural)]
pub enum DockerStep {
    /// The engine is not there: report that.
    ReportMissing,
    /// Run the engine's scoped prune, then report its outcome.
    Prune,
    /// Report what a prune would do; run nothing.
    ReportDryRun,
}

/// Docker is delegated to the engine: it is pruned only on an applying run
/// where the engine answered.
pub open spec fn spec_docker_step(docker_ok: bool, apply: bool) -> DockerStep {
    if !docker_ok {
        DockerStep::ReportMissing
    } else if apply {
        DockerStep::Prune
    } else {
        DockerStep::ReportDryRun
    }
}

/// What to do about Docker, given whether its engine answered.
pub fn docker_step(docker_ok: bool, apply: bool) -> (res: DockerStep)
    ensures
        res == spec_docker_step(docker_ok, apply),
{
    if !docker_ok {
        DockerStep::ReportMissing
    } else if apply {
        DockerStep::Prune
    } else {
        DockerStep::ReportDryRun
    }
}

/// The arguments that ask the engine whether it is there.
pub open spec fn spec_docker_probe_args() -> Seq<Seq<char>> {
    seq!["--version"@]
}

/// The arguments of the prune: dangling images and build cache only. Never
/// `-a` (which would drop tagged images) and never `--volumes` (which would
/// drop named volumes, i.e. data).
pub open spec fn spec_docker_prune_args() -> Seq<Seq<char>> {
    seq!["system"@, "prune"@, "-f"@]
}

/// The arguments to run the engine's probe with.
pub fn docker_probe_args() -> (res: Vec<&'static str>)
    ensures
        res@.map_values(|a: &str| a@) == spec_docker_probe_args(),
{
    let mut v: Vec<&'static str> = Vec::new();
    v.push("--version");
    assert(v@.map_values(|a: &str| a@) =~= spec_docker_probe_args());
    v
}

/// The arguments to run the engine's prune with.
pub fn docker_prune_args() -> (res: Vec<&'static str>)
    ensures
        res@.map_values(|a: &str| a@) == spec_docker_prune_args(),
{
    let mut v: Vec<&'static str> = Vec::new();
    v.push("system");
    v.push("prune");
    v.push("-f");
    assert(v@.map_values(|a: &str| a@) =~= spec_docker_prune_args());
    v
}

/// The prune never asks for everything or for volumes.
pub proof fn lemma_prune_is_scoped()
    ensures
        !spec_docker_prune_args().contains("-a"@),
        !spec_docker_prune_args().contains("--all"@),
        !spec_docker_prune_args().contains("--volumes"@),
{
    reveal_strlit("system");
    reveal_strlit("prune");
    reveal_strlit("-f");
    reveal_strlit("-a");
    reveal_strlit("--all");
    reveal_strlit("--volumes");
    let a = spec_docker_prune_args();
    assert forall|k: int| 0 <= k < a.len() implies a[k] != "-a"@ && a[k] != "--all"@ && a[k]
        != "--volumes"@ by {
        if k == 0 {
            assert(a[k].len() == 6);
        } else if k == 1 {
            assert(a[k][0] == 'p' && "--all"@[0] == '-');
        } else {
            assert(a[k][1] == 'f' && "-a"@[1] == 'a');
        }
    }
}

/// How the engine's prune went.
pub enum PruneResult {
    /// It ran and reported success.
    Succeeded,
    /// It ran and failed, with this error output.
    Failed(String),
    /// It could not be run, with this error message.
    Error(String),
}

/// The report line when the engine is not installed.
pub fn docker_missing_item(target: &Target) -> (res: Item)
    ensures
        describes(res, *target),
        res.path@ == "docker daemon"@,
        res.bytes == 0,
        res.files == 0,
        res.verdict == Verdict::Skipped,
        res.reason@ == "docker not installed"@,
{
    dir_item(
        target,
        String::from_str("docker daemon"),
        0,
        0,
        Verdict::Skipped,
        String::from_str("docker not installed"),
    )
}

/// The reason reported for Docker: the prune's outcome, or, with no prune
/// (a dry run), how to size it by hand.
pub open spec fn docker_reason(prune: Option<PruneResult>) -> Seq<char> {
    match prune {
        None => "dry-run — run `docker system df` to size; apply prunes dangling only"@,
        Some(PruneResult::Succeeded) => "pruned (dangling images + build cache)"@,
        Some(PruneResult::Failed(stderr)) => "docker prune failed: "@ + trim(stderr@),
        Some(PruneResult::Error(e)) => "docker prune error: "@ + e@,
    }
}

/// The report line for Docker once the engine answered. Docker reports its
/// own sizes, so nothing is counted here.
pub fn docker_item(target: &Target, prune: &Option<PruneResult>) -> (res: Item)
    ensures
        describes(res, *target),
        res.path@ == "docker (dangling images + build cache)"@,
        res.bytes == 0,
        res.files == 0,
        res.verdict == Verdict::Reclaimable,
        res.reason@ == docker_reason(*prune),
{
    let reason = match prune {
        None => String::from_str(
            "dry-run — run `docker system df` to size; apply prunes dangling only",
        ),
        Some(PruneResult::Succeeded) => String::from_str("pruned (dangling images + build cache)"),
        Some(PruneResult::Failed(stderr)) => {
            let t = trim_str(stderr.as_str());
            String::from_str("docker prune failed: ").concat(t.as_str())
        },
        Some(PruneResult::Error(e)) => String::from_str("docker prune error: ").concat(e.as_str()),
    };
    dir_item(
        target,
        String::from_str("docker (dangling images + build cache)"),
        0,
        0,
        Verdict::Reclaimable,
        reason,
    )
}

/// The whole run's outcome.
pub struct Report {
    pub dry_run: bool,
    pub total_reclaimable_bytes: u64,
    pub total_deleted_bytes: u64,
    pub items: Vec<Item>,
}

/// An item that was removed.
pub open spec fn is_deleted(i: Item) -> bool {
    i.reason@ == "deleted"@
}

/// An item whose bytes count as reclaimable: marked so, or removed.
pub open spec fn counts_reclaimable(i: Item) -> bool {
    i.verdict == Verdict::Reclaimable || is_deleted(i)
}

/// Bytes of the items that count as reclaimable.
pub open spec fn reclaimable_sum(items: Seq<Item>) -> nat
    decreases items.len(),
{
    if items.len() == 0 {
        0
    } else {
        reclaimable_sum(items.drop_last()) + if counts_reclaimable(items.last()) {
            items.last().bytes as nat
        } else {
            0nat
        }
    }
}

/// Bytes of the items that were removed.
pub open spec fn deleted_sum(items: Seq<Item>) -> nat
    decreases items.len(),
{
    if items.len() == 0 {
        0
    } else {
        deleted_sum(items.drop_last()) + if is_deleted(items.last()) {
            items.last().bytes as nat
        } else {
            0nat
        }
    }
}

/// Removed bytes add up over the items: the total of two runs of items is
/// the sum of their totals, and one item counts its bytes exactly when it was
/// removed.
pub proof fn lemma_deleted_sum_adds(a: Seq<Item>, b: Seq<Item>)
    ensures
        deleted_sum(a + b) == deleted_sum(a) + deleted_sum(b),
        forall|x: Item|
            #[trigger] deleted_sum(seq![x]) == if x.reason@ == "deleted"@ {
                x.bytes as nat
            } else {
                0nat
            },
    decreases b.len(),
{
    assert forall|x: Item|
        #[trigger] deleted_sum(seq![x]) == if x.reason@ == "deleted"@ {
            x.bytes as nat
        } else {
            0nat
        } by {
        assert(seq![x].drop_last() =~= Seq::<Item>::empty());
        assert(seq![x].last() == x);
        assert(deleted_sum(Seq::<Item>::empty()) == 0);
    }
    if b.len() == 0 {
        assert(a + b =~= a);
    } else {
        lemma_deleted_sum_adds(a, b.drop_last());
        assert((a + b).drop_last() =~= a + b.drop_last());
        assert((a + b).last() == b.last());
    }
}

/// Reclaimable bytes add up over the items in the same way: one item counts
/// its bytes exactly when it is marked reclaimable or was removed.
pub proof fn lemma_reclaimable_sum_adds(a: Seq<Item>, b: Seq<Item>)
    ensures
        reclaimable_sum(a + b) == reclaimable_sum(a) + reclaimable_sum(b),
        forall|x: Item|
            #[trigger] reclaimable_sum(seq![x]) == if x.verdict == Verdict::Reclaimable || x.reason@
                == "deleted"@ {
                x.bytes as nat
            } else {
                0nat
            },
    decreases b.len(),
{
    assert forall|x: Item|
        #[trigger] reclaimable_sum(seq![x]) == if x.verdict == Verdict::Reclaimable || x.reason@
            == "deleted"@ {
            x.bytes as nat
        } else {
            0nat
        } by {
        assert(seq![x].drop_last() =~= Seq::<Item>::empty());
        assert(seq![x].last() == x);
        assert(reclaimable_sum(Seq::<Item>::empty()) == 0);
    }
    if b.len() == 0 {
        assert(a + b =~= a);
    } else {
        lemma_reclaimable_sum_adds(a, b.drop_last());
        assert((a + b).drop_last() =~= a + b.drop_last());
        assert((a + b).last() == b.last());
    }
}

/// Removed bytes never exceed reclaimable bytes: every removed item also
/// counts as reclaimable.
pub proof fn lemma_deleted_within_reclaimable(items: Seq<Item>)
    ensures
        deleted_sum(items) <= reclaimable_sum(items),
    decreases items.len(),
{
    if items.len() > 0 {
        lemma_deleted_within_reclaimable(items.drop_last());
    }
}

proof fn lemma_sums_prefix(items: Seq<Item>, n: int)
    requires
        0 <= n <= items.len(),
    ensures
        reclaimable_sum(items.take(n)) <= reclaimable_sum(items),
        deleted_sum(items.take(n)) <= reclaimable_sum(items),
    decreases items.len() - n,
{
    lemma_deleted_within_reclaimable(items.take(n));
    if n < items.len() {
        lemma_sums_prefix(items, n + 1);
        assert(items.take(n + 1).drop_last() =~= items.take(n));
    } else {
        assert(items.take(n) =~= items);
    }
}

/// Do the reclaimable bytes of `items` add up within a `u64`? (`build_report` needs it.)
pub fn report_fits(items: &Vec<Item>) -> (res: bool)
    ensures
        res == (reclaimable_sum(items@) <= u64::MAX),
{
    let mut sum: u64 = 0;
    let mut i: usize = 0;
    while i < items.len()
        invariant
            0 <= i <= items.len(),
            sum == reclaimable_sum(items@.take(i as int)),
        decreases items.len() - i,
    {
        let ghost t = items@.take(i as int + 1);
        assert(t.drop_last() =~= items@.take(i as int));
        let it = &items[i];
        if it.verdict == Verdict::Reclaimable || it.reason == String::from_str("deleted") {
            match sum.checked_add(it.bytes) {
                Some(x) => {
                    sum = x;
                },
                None => {
                    proof {
                        lemma_sums_prefix(items@, i as int + 1);
                    }
                    return false;
                },
            }
        }
        i = i + 1;
    }
    assert(items@.take(items.len() as int) =~= items@);
    true
}

/// The report of a run: dry unless applying, with both totals.
pub fn build_report(apply: bool, items: Vec<Item>) -> (res: Report)
    requires
        reclaimable_sum(items@) <= u64::MAX,
    ensures
        res.dry_run == !apply,
        res.total_reclaimable_bytes == reclaimable_sum(items@),
        res.total_deleted_bytes == deleted_sum(items@),
        res.items@ == items@,
{
    let mut reclaimable: u64 = 0;
    let mut deleted: u64 = 0;
    let mut i: usize = 0;
    while i < items.len()
        invariant
            0 <= i <= items.len(),
            reclaimable_sum(items@) <= u64::MAX,
            reclaimable == reclaimable_sum(items@.take(i as int)),
            deleted == deleted_sum(items@.take(i as int)),
        decreases items.len() - i,
    {
        let ghost t = items@.take(i as int + 1);
        assert(t.drop_last() =~= items@.take(i as int));
        proof {
            lemma_sums_prefix(items@, i as int + 1);
        }
        let it = &items[i];
        let removed = it.reason == String::from_str("deleted");
        if it.verdict == Verdict::Reclaimable || removed {
            reclaimable = reclaimable + it.bytes;
        }
        if removed {
            deleted = deleted + it.bytes;
        }
        i = i + 1;
    }
    assert(items@.take(items.len() as int) =~= items@);
    Report {
        dry_run: !apply,
        total_reclaimable_bytes: reclaimable,
        total_deleted_bytes: deleted,
        items,
    }
}

/// A run applies only when `--apply` was given, and visits OS caches only when
/// `--include-os-caches` was given.
pub proof fn lemma_flags_are_opt_in(args: Seq<Seq<char>>)
    ensures
        parse_from(args, default_settings()) matches ParseOutcome::Run(s) ==> (s.apply ==> args.contains(
            "--apply"@,
        )) && (s.include_os_caches ==> args.contains("--include-os-caches"@)),
{
    lemma_flags_from(args, default_settings());
}

proof fn lemma_flags_from(args: Seq<Seq<char>>, acc: Settings)
    ensures
        parse_from(args, acc) matches ParseOutcome::Run(s) ==> (s.apply ==> acc.apply
            || args.contains("--apply"@)) && (s.include_os_caches ==> acc.include_os_caches
            || args.contains("--include-os-caches"@)),
    decreases args.len(),
{
    if args.len() > 0 {
        let a = args[0];
        let rest = args.drop_first();
        assert forall|x: Seq<char>| rest.contains(x) implies args.contains(x) by {
            let k = choose|k: int| 0 <= k < rest.len() && rest[k] == x;
            assert(args[k + 1] == x);
        }
        if rest.len() > 0 {
            assert forall|x: Seq<char>| rest.drop_first().contains(x) implies args.contains(x) by {
                let k = choose|k: int| 0 <= k < rest.drop_first().len() && rest.drop_first()[k] == x;
                assert(args[k + 2] == x);
            }
        }
        assert(args.contains(a)) by {
            assert(args[0] == a);
        }
        if a == "--apply"@ {
            lemma_flags_from(rest, Settings { apply: true, ..acc });
        } else if a == "--include-os-caches"@ {
            lemma_flags_from(rest, Settings { include_os_caches: true, ..acc });
        } else if a == "--json"@ {
            lemma_flags_from(rest, Settings { json: true, ..acc });
        } else if a == "--min-age-days"@ {
            if rest.len() > 0 {
                if let Some(n) = spec_parse_u64(rest[0]) {
                    lemma_flags_from(rest.drop_first(), Settings { min_age_days: n, ..acc });
                }
            }
        } else if a == "--root"@ {
            if rest.len() > 0 {
                lemma_flags_from(
                    rest.drop_first(),
                    Settings { scan_roots: acc.scan_roots.push(rest[0]), ..acc },
                );
            }
        }
    }
}

/// Where a task of the plan comes from: entry `i` of the catalog, its `j`-th task.
pub proof fn lemma_plan_source(cfg: Settings, home: Seq<char>, n: nat, k: int) -> (ij: (nat, int))
    requires
        0 <= k < plan_prefix(cfg, home, n).len(),
    ensures
        ij.0 < n,
        0 <= ij.1 < tasks_for(ij.0, cfg, home).len(),
        plan_prefix(cfg, home, n)[k] == tasks_for(ij.0, cfg, home)[ij.1],
    decreases n,
{
    let prev = plan_prefix(cfg, home, (n - 1) as nat);
    if k < prev.len() {
        lemma_plan_source(cfg, home, (n - 1) as nat, k)
    } else {
        ((n - 1) as nat, k - prev.len())
    }
}

/// Facts about every task of catalog entry `i`.
pub proof fn lemma_tasks_for_facts(i: nat, cfg: Settings, home: Seq<char>, j: int)
    requires
        i < spec_catalog().len(),
        0 <= j < tasks_for(i, cfg, home).len(),
    ensures
        ({
            let t = tasks_for(i, cfg, home)[j];
            let entry = spec_catalog()[i as int];
            &&& task_target(t) == i
            &&& spec_tier_included(entry.tier, cfg.include_os_caches)
            &&& (t is Dir <==> entry.kind is HomeDir)
            &&& (t is Named <==> entry.kind is NamedDirUnder)
            &&& (t is External <==> entry.kind is External)
            &&& (t matches TaskView::Dir { path, .. } ==> entry.kind matches Kind::HomeDir(sub) && path
                == spec_join(home, sub@))
            &&& (t matches TaskView::Named { root, .. } ==> cfg.scan_roots.contains(root))
            &&& (t matches TaskView::Named { requires_sibling, .. } ==> entry.kind matches Kind::NamedDirUnder {
                requires_sibling: m,
                ..
            } && requires_sibling == sibling_list(m))
        }),
{
    let entry = spec_catalog()[i as int];
    if let Kind::NamedDirUnder { name, requires_sibling } = entry.kind {
        let ts = tasks_for(i, cfg, home);
        assert(ts[j] == (TaskView::Named {
            target: i,
            name: name@,
            requires_sibling: sibling_list(requires_sibling),
            root: cfg.scan_roots[j],
        }));
    }
}

proof fn lemma_plan_prefix_contains(cfg: Settings, home: Seq<char>, n: nat, i: nat, k: int)
    requires
        i < n,
        0 <= k < tasks_for(i, cfg, home).len(),
    ensures
        plan_prefix(cfg, home, n).contains(tasks_for(i, cfg, home)[k]),
    decreases n,
{
    let prev = plan_prefix(cfg, home, (n - 1) as nat);
    let last = tasks_for((n - 1) as nat, cfg, home);
    if i < n - 1 {
        lemma_plan_prefix_contains(cfg, home, (n - 1) as nat, i, k);
        let idx = choose|idx: int| 0 <= idx < prev.len() && prev[idx] == tasks_for(i, cfg, home)[k];
        assert((prev + last)[idx] == prev[idx]);
    } else {
        assert((prev + last)[prev.len() + k] == last[k]);
    }
}

/// Every build-artifact search of the catalog is run under every scan root
/// the user named: for each such entry and each root, the plan holds a search
/// for the entry's directory name, with its marker files, under that root.
pub proof fn lemma_every_root_searched(cfg: Settings, home: Seq<char>, i: nat, m: int)
    requires
        i < spec_catalog().len(),
        spec_catalog()[i as int].kind is NamedDirUnder,
        0 <= m < cfg.scan_roots.len(),
    ensures
        spec_plan(cfg, home).contains(
            TaskView::Named {
                target: i,
                name: spec_catalog()[i as int].kind->NamedDirUnder_name@,
                requires_sibling: sibling_list(spec_catalog()[i as int].kind->NamedDirUnder_requires_sibling),
                root: cfg.scan_roots[m],
            },
        ),
{
    lemma_catalog_tiers_match_kinds();
    assert(spec_catalog()[i as int].tier == Tier::BuildArtifact);
    let ts = tasks_for(i, cfg, home);
    assert(ts.len() == cfg.scan_roots.len());
    lemma_plan_prefix_contains(cfg, home, spec_catalog().len(), i, m);
}

/// OS caches are visited only when the run opted in.
pub proof fn lemma_os_caches_need_opt_in(cfg: Settings, home: Seq<char>)
    requires
        !cfg.include_os_caches,
    ensures
        forall|k: int|
            0 <= k < spec_plan(cfg, home).len() ==> spec_catalog()[task_target(
                #[trigger] spec_plan(cfg, home)[k],
            ) as int].tier != Tier::OsCache,
{
    assert forall|k: int| 0 <= k < spec_plan(cfg, home).len() implies spec_catalog()[task_target(
        #[trigger] spec_plan(cfg, home)[k],
    ) as int].tier != Tier::OsCache by {
        let (i, j) = lemma_plan_source(cfg, home, spec_catalog().len(), k);
        lemma_tasks_for_facts(i, cfg, home, j);
    }
}

/// Build artifacts are searched for only under the scan roots the user named,
/// so with no root there is no search at all.
pub proof fn lemma_artifacts_need_roots(cfg: Settings, home: Seq<char>)
    ensures
        forall|k: int|
            0 <= k < spec_plan(cfg, home).len() && (#[trigger] spec_plan(cfg, home)[k]) is Named
                ==> cfg.scan_roots.contains(spec_plan(cfg, home)[k]->Named_root) && spec_catalog()[task_target(
                spec_plan(cfg, home)[k],
            ) as int].tier == Tier::BuildArtifact,
        cfg.scan_roots.len() == 0 ==> forall|k: int|
            0 <= k < spec_plan(cfg, home).len() ==> !((#[trigger] spec_plan(cfg, home)[k]) is Named),
{
    lemma_catalog_tiers_match_kinds();
    assert forall|k: int|
        0 <= k < spec_plan(cfg, home).len() && (#[trigger] spec_plan(cfg, home)[k]) is Named implies cfg.scan_roots.contains(
        spec_plan(cfg, home)[k]->Named_root,
    ) && spec_catalog()[task_target(spec_plan(cfg, home)[k]) as int].tier == Tier::BuildArtifact by {
        let (i, j) = lemma_plan_source(cfg, home, spec_catalog().len(), k);
        lemma_tasks_for_facts(i, cfg, home, j);
    }
}

/// Docker is only ever handed to its engine, and only Docker is.
pub proof fn lemma_docker_is_delegated(cfg: Settings, home: Seq<char>)
    ensures
        forall|k: int|
            0 <= k < spec_plan(cfg, home).len() ==> ((#[trigger] spec_plan(cfg, home)[k]) is External
                <==> spec_catalog()[task_target(spec_plan(cfg, home)[k]) as int].tier == Tier::Docker),
{
    lemma_catalog_tiers_match_kinds();
    assert forall|k: int| 0 <= k < spec_plan(cfg, home).len() implies ((#[trigger] spec_plan(
        cfg,
        home,
    )[k]) is External <==> spec_catalog()[task_target(spec_plan(cfg, home)[k]) as int].tier
        == Tier::Docker) by {
        let (i, j) = lemma_plan_source(cfg, home, spec_catalog().len(), k);
        lemma_tasks_for_facts(i, cfg, home, j);
    }
}

/// Every fixed cache directory a run checks lies strictly below a non-empty home.
pub proof fn lemma_dir_tasks_below_home(cfg: Settings, home: Seq<char>)
    requires
        home.len() > 0,
    ensures
        forall|k: int|
            0 <= k < spec_plan(cfg, home).len() && (#[trigger] spec_plan(cfg, home)[k]) is Dir ==> {
                let p = path_components(spec_plan(cfg, home)[k]->Dir_path);
                &&& is_prefix(path_components(home), p)
                &&& p.len() > path_components(home).len()
            },
{
    lemma_home_dirs_below_home(home);
    assert forall|k: int|
        0 <= k < spec_plan(cfg, home).len() && (#[trigger] spec_plan(cfg, home)[k]) is Dir implies {
        let p = path_components(spec_plan(cfg, home)[k]->Dir_path);
        &&& is_prefix(path_components(home), p)
        &&& p.len() > path_components(home).len()
    } by {
        let (i, j) = lemma_plan_source(cfg, home, spec_catalog().len(), k);
        lemma_tasks_for_facts(i, cfg, home, j);
        assert(spec_catalog()[i as int].kind is HomeDir);
    }
}

/// A dry run removes nothing: no directory step is a removal, and Docker is
/// never pruned.
pub proof fn lemma_dry_run_removes_nothing(
    step: DirStep,
    guard: Guard,
    too_new: bool,
    min_age_days: u64,
    docker_ok: bool,
)
    ensures
        step_is(step, guard, too_new, min_age_days, false) ==> !(step is Delete),
        spec_docker_step(docker_ok, false) != DockerStep::Prune,
{
}

/// A directory is removed only when every guard passed, it is old enough,
/// and the run applies.
pub proof fn lemma_removal_needs_all_checks(
    step: DirStep,
    guard: Guard,
    too_new: bool,
    min_age_days: u64,
    apply: bool,
)
    ensures
        step_is(step, guard, too_new, min_age_days, apply) && step is Delete ==> guard
            == Guard::Allowed && !too_new && apply,
{
}

/// A search for named directories asks for exactly the marker files of its
/// catalog entry.
pub open spec fn carries_markers(t: TaskView) -> bool {
    match t {
        TaskView::Named { target, requires_sibling, .. } => match spec_catalog()[target as int].kind {
            Kind::NamedDirUnder { requires_sibling: m, .. } => requires_sibling == sibling_list(m),
            _ => false,
        },
        _ => true,
    }
}

/// Every search for a named directory carries the marker files its catalog
/// entry asks for (for `target`, its `Cargo.toml`).
pub proof fn lemma_named_tasks_carry_markers(cfg: Settings, home: Seq<char>)
    ensures
        forall|k: int|
            0 <= k < spec_plan(cfg, home).len() ==> carries_markers(#[trigger] spec_plan(cfg, home)[k]),
{
    assert forall|k: int| 0 <= k < spec_plan(cfg, home).len() implies carries_markers(
        #[trigger] spec_plan(cfg, home)[k],
    ) by {
        let (i, j) = lemma_plan_source(cfg, home, spec_catalog().len(), k);
        lemma_tasks_for_facts(i, cfg, home, j);
    }
}

} // verus!
