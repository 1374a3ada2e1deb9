//! The record of a run: one item per candidate directory and one for Docker,
//! each built from the verdicts of the guards and from what the removal or
//! prune that the run's decisions called for came to.
use vstd::prelude::*;
use crate::cli::{
    build_report, deletion_outcome, dir_item, dir_step, docker_item, docker_missing_item,
    docker_reason, is_deleted, counts_reclaimable, deleted_sum, reclaimable_sum, refusal_reason,
    report_fits, spec_docker_step, DirStep, DockerStep, Item, PruneResult, Report, Verdict,
    describes, plan, spec_plan, step_is, task_target, lemma_plan_source, lemma_tasks_for_facts,
    spec_tier_included, Config, Settings, Task, TaskView,
};
use crate::path::{is_prefix, normal_count, root_comp, spec_join};
use crate::safety::{
    anchor_fits, anchor_in_range, evaluate, lemma_allowed_iff_all_guards_pass, spec_evaluate,
    spec_is_protected, spec_lenient, spec_within_root, Anchor, Guard,
};
use crate::targets::{catalog, spec_catalog, Kind, Target};
use crate::text::decimal;

verus! {

/// A candidate directory is removed when every guard passed, it is old
/// enough, and the run applies.
pub open spec fn removes(guard: Guard, too_new: bool, apply: bool) -> bool {
    guard == Guard::Allowed && !too_new && apply
}

/// The verdict and reason recorded for a candidate directory: the refusal,
/// the age gate, the dry run, or what its removal came to.
pub open spec fn dir_outcome(
    guard: Guard,
    too_new: bool,
    min_age_days: u64,
    apply: bool,
    deletion: Option<Result<(), String>>,
) -> (Verdict, Seq<char>) {
    if guard != Guard::Allowed {
        (Verdict::Skipped, refusal_reason(guard))
    } else if too_new {
        (Verdict::Skipped, "newer than "@ + decimal(min_age_days as nat) + " days"@)
    } else if !apply {
        (Verdict::Reclaimable, "dry-run"@)
    } else {
        match deletion {
            Some(Ok(_)) => (Verdict::Reclaimable, "deleted"@),
            Some(Err(e)) => (Verdict::Skipped, "delete failed: "@ + e@),
            None => (Verdict::Skipped, seq![]),
        }
    }
}

/// A reason that does not start with "de" is not "deleted".
proof fn lemma_not_deleted(s: Seq<char>)
    requires
        s.len() != 7 || s[0] != 'd' || s[1] != 'e',
    ensures
        s != "deleted"@,
{
    reveal_strlit("deleted");
}

/// No reason but that of a successful removal is "deleted".
pub proof fn lemma_only_removal_is_deleted(
    guard: Guard,
    too_new: bool,
    min_age_days: u64,
    apply: bool,
    deletion: Option<Result<(), String>>,
)
    ensures
        (dir_outcome(guard, too_new, min_age_days, apply, deletion).1 == "deleted"@) <==> (removes(
            guard,
            too_new,
            apply,
        ) && deletion matches Some(Ok(_))),
{
    reveal_strlit("not present");
    reveal_strlit("protected path — refused");
    reveal_strlit("outside allowed root — refused");
    reveal_strlit("in use (active lock) — refused");
    reveal_strlit("newer than ");
    reveal_strlit("dry-run");
    reveal_strlit("delete failed: ");
    let r = dir_outcome(guard, too_new, min_age_days, apply, deletion).1;
    if guard != Guard::Allowed {
        lemma_not_deleted(r);
    } else if too_new {
        assert(r[0] == 'n');
        lemma_not_deleted(r);
    } else if !apply {
        assert(r[1] == 'r');
        lemma_not_deleted(r);
    } else if let Some(Err(e)) = deletion {
        assert(r.len() >= 15);
        lemma_not_deleted(r);
    } else if deletion is None {
        lemma_not_deleted(r);
    }
}

/// Docker's reasons are never "deleted".
pub proof fn lemma_docker_not_deleted(prune: Option<PruneResult>)
    ensures
        docker_reason(prune) != "deleted"@,
        "docker not installed"@ != "deleted"@,
{
    reveal_strlit("dry-run — run `docker system df` to size; apply prunes dangling only");
    reveal_strlit("pruned (dangling images + build cache)");
    reveal_strlit("docker prune failed: ");
    reveal_strlit("docker prune error: ");
    reveal_strlit("docker not installed");
    let r = docker_reason(prune);
    match prune {
        None => assert(r[1] == 'r'),
        Some(PruneResult::Succeeded) => assert(r[0] == 'p'),
        Some(PruneResult::Failed(_)) => assert(r[1] == 'o'),
        Some(PruneResult::Error(_)) => assert(r[1] == 'o'),
    }
    lemma_not_deleted(r);
    lemma_not_deleted("docker not installed"@);
}

/// What the filesystem said of one candidate directory and of its root: does
/// the directory exist, does a fresh lock sit in it, and where do it and its
/// root resolve on disk.
pub struct Probes {
    pub exists: bool,
    pub lock_present: bool,
    pub candidate_anchor: Option<Anchor>,
    pub root_anchor: Option<Anchor>,
}

/// The guard verdict for a candidate directory and what to do with it. The
/// directory is removed only when the guards, run on exactly these probes,
/// allow it, it is old enough, and the run applies.
pub fn judge_dir(
    candidate: &str,
    root: &str,
    home: &str,
    home_anchor: &Option<Anchor>,
    probes: &Probes,
    too_new: bool,
    min_age_days: u64,
    apply: bool,
) -> (res: (Guard, DirStep))
    requires
        anchor_fits(candidate@, probes.candidate_anchor),
        anchor_fits(root@, probes.root_anchor),
        anchor_fits(home@, *home_anchor),
    ensures
        res.0 == spec_evaluate(
            candidate@,
            root@,
            home@,
            probes.exists,
            probes.lock_present,
            probes.candidate_anchor,
            probes.root_anchor,
            *home_anchor,
        ),
        step_is(res.1, res.0, too_new, min_age_days, apply),
        (res.1 is Delete) <==> removes(res.0, too_new, apply),
        res.1 is Delete ==> res.0 == Guard::Allowed && !too_new && apply,
{
    let guard = evaluate(
        candidate,
        root,
        home,
        probes.exists,
        probes.lock_present,
        &probes.candidate_anchor,
        &probes.root_anchor,
        home_anchor,
    );
    let step = dir_step(&guard, too_new, min_age_days, apply);
    (guard, step)
}

/// The root a task's candidates are judged against: a fixed directory is its
/// own root; a search's candidates have the search root.
pub open spec fn task_root(t: TaskView) -> Seq<char> {
    match t {
        TaskView::Dir { path, .. } => path,
        TaskView::Named { root, .. } => root,
        TaskView::External { .. } => seq![],
    }
}

/// The candidates a task may present: a fixed directory only itself, a search
/// whatever it found, an engine none.
pub open spec fn candidate_of(t: TaskView, candidate: Seq<char>) -> bool {
    match t {
        TaskView::Dir { path, .. } => candidate == path,
        TaskView::Named { .. } => true,
        TaskView::External { .. } => false,
    }
}

fn task_root_str(t: &Task) -> (res: &str)
    requires
        !(t@ is External),
    ensures
        res@ == task_root(t@),
{
    match t {
        Task::Dir { path, .. } => path.as_str(),
        Task::Named { root, .. } => root.as_str(),
        Task::External { .. } => "",
    }
}

fn task_target_index(t: &Task) -> (res: usize)
    ensures
        res == task_target(t@),
{
    match t {
        Task::Dir { target, .. } => *target,
        Task::Named { target, .. } => *target,
        Task::External { target, .. } => *target,
    }
}

/// What a recorded candidate directory was judged on.
pub struct Judgement {
    pub task: int,
    pub candidate: Seq<char>,
    pub probes: Probes,
    pub too_new: bool,
}

/// The record of a run: its options, home, plan, and the items recorded so far,
/// in the order the run met its candidates.
pub struct RunLog {
    apply: bool,
    min_age_days: u64,
    home: String,
    home_anchor: Option<Anchor>,
    targets: Vec<Target>,
    tasks: Vec<Task>,
    items: Vec<Item>,
    settings: Ghost<Settings>,
    judged: Ghost<Seq<Option<Judgement>>>,
}

impl RunLog {
    /// Whether the run applies.
    pub closed spec fn applies(self) -> bool {
        self.apply
    }

    /// The options of the run.
    pub closed spec fn settings(self) -> Settings {
        self.settings@
    }

    /// The home directory of the run.
    pub closed spec fn home(self) -> Seq<char> {
        self.home@
    }

    /// Where home resolves on disk.
    pub closed spec fn home_anchor(self) -> Option<Anchor> {
        self.home_anchor
    }

    /// The tasks of the run, in order.
    pub closed spec fn tasks(self) -> Seq<TaskView> {
        self.tasks@.map_values(|t: Task| t@)
    }

    /// The items recorded so far.
    pub closed spec fn recorded(self) -> Seq<Item> {
        self.items@
    }

    /// For each item, what it was judged on when it is a candidate directory.
    pub closed spec fn judgements(self) -> Seq<Option<Judgement>> {
        self.judged@
    }

    /// The guard verdict for `candidate` of task `task` on `probes`.
    pub open spec fn guard_for(self, task: int, candidate: Seq<char>, probes: Probes) -> Guard {
        spec_evaluate(
            candidate,
            task_root(self.tasks()[task]),
            self.home(),
            probes.exists,
            probes.lock_present,
            probes.candidate_anchor,
            probes.root_anchor,
            self.home_anchor(),
        )
    }

    /// `candidate` may be judged for task `task`: the task is one of the
    /// plan's directory tasks, a fixed directory presents only itself, and the
    /// anchors name probes of the paths they resolve.
    pub open spec fn admits(self, task: int, candidate: Seq<char>, probes: Probes) -> bool {
        &&& 0 <= task < self.tasks().len()
        &&& candidate_of(self.tasks()[task], candidate)
        &&& anchor_fits(candidate, probes.candidate_anchor)
        &&& anchor_fits(task_root(self.tasks()[task]), probes.root_anchor)
    }

    /// The judgement admits the candidate and calls for its removal.
    pub open spec fn removal_justified(self, j: Judgement) -> bool {
        &&& self.admits(j.task, j.candidate, j.probes)
        &&& removes(self.guard_for(j.task, j.candidate, j.probes), j.too_new, self.applies())
    }

    /// Both records belong to the same run.
    pub open spec fn same_run(self, other: RunLog) -> bool {
        &&& self.applies() == other.applies()
        &&& self.settings() == other.settings()
        &&& self.home() == other.home()
        &&& self.home_anchor() == other.home_anchor()
        &&& self.tasks() == other.tasks()
    }

    /// The run's tasks are its plan, and every removal recorded is of a
    /// candidate of one of them that the guards allowed.
    pub closed spec fn wf(self) -> bool {
        &&& self.settings@.apply == self.apply
        &&& self.settings@.min_age_days == self.min_age_days
        &&& self.targets@ == spec_catalog()
        &&& self.tasks() == spec_plan(self.settings@, self.home@)
        &&& forall|t: int| 0 <= t < self.tasks@.len() ==> task_target(#[trigger] self.tasks()[t]) < spec_catalog().len()
        &&& anchor_fits(self.home@, self.home_anchor)
        &&& self.judged@.len() == self.items@.len()
        &&& forall|k: int|
            0 <= k < self.items@.len() && is_deleted(#[trigger] self.items@[k]) ==> (
            self.judged@[k] matches Some(j) && self.items@[k].path@ == j.candidate
                && self.removal_justified(j))
    }

    /// An empty record of a run with options `cfg` and home `home`, which
    /// resolves as `home_anchor` says.
    pub fn new(cfg: &Config, home: &str, home_anchor: Option<Anchor>) -> (res: RunLog)
        requires
            anchor_fits(home@, home_anchor),
        ensures
            res.wf(),
            res.applies() == cfg.apply,
            res.settings() == cfg@,
            res.home() == home@,
            res.home_anchor() == home_anchor,
            res.tasks() == spec_plan(cfg@, home@),
            res.recorded() == Seq::<Item>::empty(),
            res.judgements() == Seq::<Option<Judgement>>::empty(),
    {
        let tasks = plan(cfg, home);
        let res = RunLog {
            apply: cfg.apply,
            min_age_days: cfg.min_age_days,
            home: String::from_str(home),
            home_anchor,
            targets: catalog(),
            tasks,
            items: Vec::new(),
            settings: Ghost(cfg@),
            judged: Ghost(Seq::empty()),
        };
        assert forall|t: int| 0 <= t < res.tasks@.len() implies task_target(
            #[trigger] res.tasks()[t],
        ) < spec_catalog().len() by {
            let (i, j) = lemma_plan_source(cfg@, home@, spec_catalog().len(), t);
            lemma_tasks_for_facts(i, cfg@, home@, j);
        }
        res
    }

    /// Does task `task` admit `candidate` on `probes`?
    pub fn admits_candidate(&self, task: usize, candidate: &str, probes: &Probes) -> (res: bool)
        requires
            self.wf(),
        ensures
            res == self.admits(task as int, candidate@, *probes),
    {
        if task >= self.tasks.len() {
            return false;
        }
        let t = &self.tasks[task];
        assert(self.tasks()[task as int] == t@);
        let fits = match t {
            Task::Dir { path, .. } => *path == String::from_str(candidate),
            Task::Named { .. } => true,
            Task::External { .. } => false,
        };
        if !fits {
            return false;
        }
        anchor_in_range(candidate, &probes.candidate_anchor) && anchor_in_range(
            task_root_str(t),
            &probes.root_anchor,
        )
    }

    /// What to do with `candidate` of task `task`, judged on `probes`.
    pub fn dir_step(&self, task: usize, candidate: &str, probes: &Probes, too_new: bool) -> (res: DirStep)
        requires
            self.wf(),
            self.admits(task as int, candidate@, *probes),
        ensures
            (res is Delete) == removes(self.guard_for(task as int, candidate@, *probes), too_new, self.applies()),
            step_is(
                res,
                self.guard_for(task as int, candidate@, *probes),
                too_new,
                self.settings().min_age_days,
                self.applies(),
            ),
    {
        let root = task_root_str(&self.tasks[task]);
        let (_guard, step) = judge_dir(
            candidate,
            root,
            self.home.as_str(),
            &self.home_anchor,
            probes,
            too_new,
            self.min_age_days,
            self.apply,
        );
        step
    }

    /// Record `candidate` of task `task`, judged on `probes`. `deletion` is
    /// what removing it came to (`Err` with the error's message), given
    /// exactly when this run removes it.
    pub fn record_dir(
        &mut self,
        task: usize,
        candidate: String,
        probes: &Probes,
        bytes: u64,
        files: u64,
        too_new: bool,
        deletion: &Option<Result<(), String>>,
    )
        requires
            old(self).wf(),
            old(self).admits(task as int, candidate@, *probes),
            (deletion is Some) == removes(
                old(self).guard_for(task as int, candidate@, *probes),
                too_new,
                old(self).applies(),
            ),
        ensures
            final(self).wf(),
            final(self).same_run(*old(self)),
            final(self).recorded().drop_last() == old(self).recorded(),
            final(self).judgements() == old(self).judgements().push(
                Some(Judgement { task: task as int, candidate: candidate@, probes: *probes, too_new }),
            ),
            final(self).recorded().len() == old(self).recorded().len() + 1,
            ({
                let it = final(self).recorded().last();
                &&& describes(it, spec_catalog()[task_target(old(self).tasks()[task as int]) as int])
                &&& it.path == candidate
                &&& it.bytes == bytes
                &&& it.files == files
                &&& (it.verdict, it.reason@) == dir_outcome(
                    old(self).guard_for(task as int, candidate@, *probes),
                    too_new,
                    old(self).settings().min_age_days,
                    old(self).applies(),
                    *deletion,
                )
            }),
    {
        let ghost j = Judgement { task: task as int, candidate: candidate@, probes: *probes, too_new };
        let (guard, step) = judge_dir(
            candidate.as_str(),
            task_root_str(&self.tasks[task]),
            self.home.as_str(),
            &self.home_anchor,
            probes,
            too_new,
            self.min_age_days,
            self.apply,
        );
        let (verdict, reason) = match step {
            DirStep::Report { verdict, reason } => (verdict, reason),
            DirStep::Delete => match deletion {
                Some(r) => deletion_outcome(r),
                None => (Verdict::Skipped, String::new()),
            },
        };
        let ti = task_target_index(&self.tasks[task]);
        let item = dir_item(&self.targets[ti], candidate, bytes, files, verdict, reason);
        proof {
            lemma_only_removal_is_deleted(guard, too_new, self.min_age_days, self.apply, *deletion);
        }
        let ghost before = self.items@;
        let ghost judged_before = self.judged@;
        self.items.push(item);
        proof {
            self.judged@ = self.judged@.push(Some(j));
        }
        assert(self.items@.drop_last() =~= before);
        assert forall|k: int|
            0 <= k < self.items@.len() && is_deleted(#[trigger] self.items@[k]) implies (
            self.judged@[k] matches Some(jk) && self.items@[k].path@ == jk.candidate
                && self.removal_justified(jk)) by {
            if k < before.len() {
                assert(self.items@[k] == before[k]);
                assert(self.judged@[k] == judged_before[k]);
            }
        }
    }

    /// Record Docker, task `task`: whether its engine answered and, exactly
    /// when this run prunes, how the prune went.
    pub fn record_docker(&mut self, task: usize, docker_ok: bool, prune: &Option<PruneResult>)
        requires
            old(self).wf(),
            task < old(self).tasks().len(),
            old(self).tasks()[task as int] is External,
            (prune is Some) == (spec_docker_step(docker_ok, old(self).applies()) == DockerStep::Prune),
        ensures
            final(self).wf(),
            final(self).same_run(*old(self)),
            final(self).recorded().drop_last() == old(self).recorded(),
            final(self).judgements() == old(self).judgements().push(None),
            final(self).recorded().len() == old(self).recorded().len() + 1,
            ({
                let it = final(self).recorded().last();
                &&& describes(it, spec_catalog()[task_target(old(self).tasks()[task as int]) as int])
                &&& it.bytes == 0
                &&& it.files == 0
                &&& if !docker_ok {
                    &&& it.path@ == "docker daemon"@
                    &&& it.verdict == Verdict::Skipped
                    &&& it.reason@ == "docker not installed"@
                } else {
                    &&& it.path@ == "docker (dangling images + build cache)"@
                    &&& it.verdict == Verdict::Reclaimable
                    &&& it.reason@ == docker_reason(*prune)
                }
            }),
    {
        let ti = task_target_index(&self.tasks[task]);
        let item = if !docker_ok {
            docker_missing_item(&self.targets[ti])
        } else {
            docker_item(&self.targets[ti], prune)
        };
        proof {
            lemma_docker_not_deleted(*prune);
        }
        let ghost before = self.items@;
        let ghost judged_before = self.judged@;
        self.items.push(item);
        proof {
            self.judged@ = self.judged@.push(None);
        }
        assert(self.items@.drop_last() =~= before);
        assert forall|k: int|
            0 <= k < self.items@.len() && is_deleted(#[trigger] self.items@[k]) implies (
            self.judged@[k] matches Some(jk) && self.items@[k].path@ == jk.candidate
                && self.removal_justified(jk)) by {
            if k < before.len() {
                assert(self.items@[k] == before[k]);
                assert(self.judged@[k] == judged_before[k]);
            }
        }
    }

    /// Do the reclaimable bytes recorded add up within a `u64`?
    pub fn fits(&self) -> (res: bool)
        ensures
            res == (reclaimable_sum(self.recorded()) <= u64::MAX),
    {
        report_fits(&self.items)
    }

    /// The report of the run. A run that does not apply reports a dry run
    /// that removed nothing.
    pub fn finish(self) -> (res: Report)
        requires
            self.wf(),
            reclaimable_sum(self.recorded()) <= u64::MAX,
        ensures
            res.dry_run == !self.applies(),
            res.total_reclaimable_bytes == reclaimable_sum(self.recorded()),
            res.total_deleted_bytes == deleted_sum(self.recorded()),
            res.items@ == self.recorded(),
            !self.applies() ==> res.total_deleted_bytes == 0,
            !self.applies() ==> forall|k: int| 0 <= k < res.items@.len() ==> !is_deleted(#[trigger] res.items@[k]),
    {
        proof {
            if !self.apply {
                self.lemma_dry_run_removes_nothing();
            }
        }
        build_report(self.apply, self.items)
    }

    /// A well-formed record of a run that does not apply holds no removal,
    /// so it removed 0 bytes.
    pub proof fn lemma_dry_run_removes_nothing(self)
        requires
            self.wf(),
            !self.applies(),
        ensures
            forall|k: int| 0 <= k < self.recorded().len() ==> !is_deleted(#[trigger] self.recorded()[k]),
            deleted_sum(self.recorded()) == 0,
    {
        assert forall|k: int| 0 <= k < self.recorded().len() implies !is_deleted(
            #[trigger] self.recorded()[k],
        ) by {
            if is_deleted(self.items@[k]) {
                assert(self.judged@[k] is Some);
            }
        }
        lemma_no_deleted_sum(self.items@);
    }

    /// Every directory a run removed is a candidate of one of its planned
    /// tasks that passed every guard: a fixed cache directory of an included
    /// catalog entry, which is `home` joined with the entry's subpath, or a
    /// directory found under one of the scan roots and lying inside it once
    /// resolved. Neither as written nor once resolved is it the filesystem
    /// root, home, an ancestor of home, or a path with fewer than two names;
    /// it existed, held no fresh lock, was old enough, and the run applies.
    pub proof fn lemma_removals_follow_plan(self, k: int)
        requires
            self.wf(),
            0 <= k < self.recorded().len(),
            is_deleted(self.recorded()[k]),
        ensures
            self.judgements()[k] is Some,
            ({
                let j = self.judgements()[k]->Some_0;
                let t = self.tasks()[j.task];
                let entry = spec_catalog()[task_target(t) as int];
                let rc = spec_lenient(j.candidate, j.probes.candidate_anchor);
                let rh = spec_lenient(self.home(), self.home_anchor());
                &&& self.applies()
                &&& self.tasks() == spec_plan(self.settings(), self.home())
                &&& 0 <= j.task < self.tasks().len()
                &&& self.recorded()[k].path@ == j.candidate
                &&& spec_tier_included(entry.tier, self.settings().include_os_caches)
                &&& (t is Dir || t is Named)
                &&& (t is Dir ==> (entry.kind matches Kind::HomeDir(sub) && j.candidate == spec_join(
                    self.home(),
                    sub@,
                )))
                &&& (t is Named ==> entry.kind is NamedDirUnder && self.settings().scan_roots.contains(
                    task_root(t),
                ))
                &&& spec_within_root(
                    j.candidate,
                    j.probes.candidate_anchor,
                    task_root(t),
                    j.probes.root_anchor,
                )
                &&& !spec_is_protected(j.candidate, self.home())
                &&& rc != seq![root_comp()]
                &&& rc != rh
                &&& normal_count(rc) >= 2
                &&& !is_prefix(rc, rh)
                &&& j.probes.exists
                &&& !j.probes.lock_present
                &&& !j.too_new
            }),
    {
        assert(self.judged@[k] is Some);
        let j = self.judged@[k]->Some_0;
        let t = self.tasks()[j.task];
        let (i, jj) = lemma_plan_source(self.settings@, self.home@, spec_catalog().len(), j.task);
        lemma_tasks_for_facts(i, self.settings@, self.home@, jj);
        lemma_allowed_iff_all_guards_pass(
            j.candidate,
            task_root(t),
            self.home@,
            j.probes.exists,
            j.probes.lock_present,
            j.probes.candidate_anchor,
            j.probes.root_anchor,
            self.home_anchor,
        );
    }
}

proof fn lemma_no_deleted_sum(items: Seq<Item>)
    requires
        forall|k: int| 0 <= k < items.len() ==> !is_deleted(#[trigger] items[k]),
    ensures
        deleted_sum(items) == 0,
    decreases items.len(),
{
    if items.len() > 0 {
        let t = items.drop_last();
        assert forall|k: int| 0 <= k < t.len() implies !is_deleted(#[trigger] t[k]) by {
            assert(t[k] == items[k]);
        }
        assert(!is_deleted(items[items.len() - 1]));
        lemma_no_deleted_sum(t);
    }
}

/// What the guards said of a candidate directory, and its size.
pub struct Candidate {
    pub guard: Guard,
    pub too_new: bool,
    pub bytes: u64,
}

/// The bytes a dry run over `cs` reports as reclaimable.
pub open spec fn dry_run_reclaimable(cs: Seq<Candidate>, min_age_days: u64) -> nat
    decreases cs.len(),
{
    if cs.len() == 0 {
        0
    } else {
        let c = cs.last();
        let o = dir_outcome(c.guard, c.too_new, min_age_days, false, None);
        dry_run_reclaimable(cs.drop_last(), min_age_days) + if o.0 == Verdict::Reclaimable || o.1
            == "deleted"@ {
            c.bytes as nat
        } else {
            0nat
        }
    }
}

/// The bytes an applying run over `cs` removes when every removal succeeds.
pub open spec fn applied_removed(cs: Seq<Candidate>, min_age_days: u64) -> nat
    decreases cs.len(),
{
    if cs.len() == 0 {
        0
    } else {
        let c = cs.last();
        let deletion: Option<Result<(), String>> = if removes(c.guard, c.too_new, true) {
            Some(Ok(()))
        } else {
            None
        };
        let o = dir_outcome(c.guard, c.too_new, min_age_days, true, deletion);
        applied_removed(cs.drop_last(), min_age_days) + if o.1 == "deleted"@ {
            c.bytes as nat
        } else {
            0nat
        }
    }
}

/// `--apply` removes exactly what the dry run reported: a candidate is
/// reported "dry-run" by a dry run exactly when an applying run removes it,
/// and, every removal succeeding, the bytes removed are the bytes the dry run
/// reported reclaimable.
pub proof fn lemma_apply_removes_what_dry_run_reported(cs: Seq<Candidate>, min_age_days: u64)
    ensures
        forall|k: int|
            0 <= k < cs.len() ==> ((dir_outcome(
                (#[trigger] cs[k]).guard,
                cs[k].too_new,
                min_age_days,
                false,
                None,
            ).1 == "dry-run"@) <==> removes(cs[k].guard, cs[k].too_new, true)),
        applied_removed(cs, min_age_days) == dry_run_reclaimable(cs, min_age_days),
    decreases cs.len(),
{
    reveal_strlit("not present");
    reveal_strlit("protected path — refused");
    reveal_strlit("outside allowed root — refused");
    reveal_strlit("in use (active lock) — refused");
    reveal_strlit("newer than ");
    reveal_strlit("dry-run");
    assert forall|k: int| 0 <= k < cs.len() implies ((dir_outcome(
        (#[trigger] cs[k]).guard,
        cs[k].too_new,
        min_age_days,
        false,
        None,
    ).1 == "dry-run"@) <==> removes(cs[k].guard, cs[k].too_new, true)) by {
        let c = cs[k];
        let r = dir_outcome(c.guard, c.too_new, min_age_days, false, None).1;
        if c.guard != Guard::Allowed {
            assert(r.len() != "dry-run"@.len());
        } else if c.too_new {
            assert(r[0] == 'n' && "dry-run"@[0] == 'd');
        }
    }
    if cs.len() > 0 {
        let c = cs.last();
        lemma_apply_removes_what_dry_run_reported(cs.drop_last(), min_age_days);
        lemma_only_removal_is_deleted(c.guard, c.too_new, min_age_days, false, None);
        let deletion: Option<Result<(), String>> = if removes(c.guard, c.too_new, true) {
            Some(Ok(()))
        } else {
            None
        };
        lemma_only_removal_is_deleted(c.guard, c.too_new, min_age_days, true, deletion);
    }
}

} // verus!
