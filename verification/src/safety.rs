//! Guardrails. Every deletion candidate passes through here first.
//!
//! Each guard returns a `Guard` verdict so the caller can report *why* something
//! was skipped, not just that it was. The filesystem probes that resolving a
//! path needs (does this ancestor exist, where does it really point) are made
//! by the caller and handed in as an `Anchor`; everything decided from them is
//! here.
use vstd::prelude::*;
use crate::path::{
    components, count_normal, fold_components, fold_resolved, is_prefix, normal_count,
    normalize_components, normalized, path_components, push_component, render, render_components,
    root_comp, root_components, same_components, starts_with,
};

verus! {

#[derive(Debug, PartialEq, Eq, Structural)]
pub enum Guard {
    /// Every check passed: the candidate may be reclaimed.
    Allowed,
    /// Path escaped its allowed root (symlink, `..`, or absolute reroute).
    OutsideRoot,
    /// A protected directory we must never delete (home root, /, etc.).
    Protected,
    /// A live process holds a lock inside this dir: deleting mid-use is unsafe.
    InUse,
    /// Path does not exist (already clean).
    Missing,
}

/// Protected, by components: the root, home itself, anything with fewer than
/// two named components, and any ancestor of home.
pub open spec fn protected_components(p: Seq<Seq<char>>, h: Seq<Seq<char>>) -> bool {
    ||| p == seq![root_comp()]
    ||| p == h
    ||| normal_count(p) < 2
    ||| is_prefix(p, h)
}

/// Protected once `.` and `..` are normalized away in both paths.
pub open spec fn spec_is_protected(path: Seq<char>, home: Seq<char>) -> bool {
    protected_components(normalized(path_components(path)), normalized(path_components(home)))
}

/// Directories that must never be deleted wholesale, regardless of catalog.
/// A cache target that resolves to one of these is a bug; we refuse it.
pub fn is_protected(path: &str, home: &str) -> (res: bool)
    ensures
        res == spec_is_protected(path@, home@),
{
    let p = normalize_components(&components(path));
    let h = normalize_components(&components(home));
    protected_by_components(&p, &h)
}

/// Are the components `p` protected against the home components `h`?
pub fn protected_by_components(p: &Vec<String>, h: &Vec<String>) -> (res: bool)
    ensures
        res == protected_components(p.deep_view(), h.deep_view()),
{
    let root = root_components();
    if same_components(p, &root) || same_components(p, h) {
        return true;
    }
    if count_normal(p) < 2 {
        return true;
    }
    starts_with(h, p)
}

/// The outcome of probing a path's ancestors on disk: `index` is the first
/// probe (see `lenient_probes`) that exists, and `canonical` is what resolving
/// it gave, or `None` when resolving it failed.
pub struct Anchor {
    pub index: usize,
    pub canonical: Option<String>,
}

/// Number of trailing components that can be stripped one parent at a time.
pub open spec fn ancestry_len(cs: Seq<Seq<char>>) -> nat
    decreases cs.len(),
{
    if cs.len() == 0 || cs.last() == root_comp() {
        0
    } else {
        1 + ancestry_len(cs.drop_last())
    }
}

pub proof fn lemma_ancestry_len_bound(cs: Seq<Seq<char>>)
    ensures
        ancestry_len(cs) <= cs.len(),
    decreases cs.len(),
{
    if cs.len() > 0 && cs.last() != root_comp() {
        lemma_ancestry_len_bound(cs.drop_last());
    }
}

/// How many paths resolving `p` may probe: `p` itself and each of its parents.
pub open spec fn probe_count(p: Seq<char>) -> nat {
    ancestry_len(path_components(p)) + 1
}

/// The `k`-th path probed: `p` itself, then its parents, nearest first.
pub open spec fn probe_at(p: Seq<char>, k: int) -> Seq<char> {
    let cs = path_components(p);
    if k == 0 {
        p
    } else {
        render(cs.take(cs.len() - k))
    }
}

/// The paths to test for existence, in order, when resolving `p`.
pub fn lenient_probes(p: &str) -> (res: Vec<String>)
    ensures
        res.len() == probe_count(p@),
        forall|k: int| 0 <= k < res.len() ==> #[trigger] res@[k]@ == probe_at(p@, k),
{
    let cs = components(p);
    let ghost dv = cs.deep_view();
    let mut cur: Vec<String> = Vec::new();
    let mut i: usize = 0;
    while i < cs.len()
        invariant
            dv == cs.deep_view(),
            0 <= i <= cs.len(),
            cur.deep_view() =~= dv.take(i as int),
        decreases cs.len() - i,
    {
        push_component(&mut cur, cs[i].clone());
        i = i + 1;
    }
    assert(dv.take(dv.len() as int) =~= dv);
    let mut res: Vec<String> = Vec::new();
    res.push(String::from_str(p));
    let mut k: usize = 0;
    proof {
        lemma_ancestry_len_bound(dv);
    }
    while cur.len() > 0 && cur[cur.len() - 1] != String::from_str("/")
        invariant
            dv == path_components(p@),
            k <= dv.len(),
            cur.deep_view() =~= dv.take(dv.len() - k),
            ancestry_len(dv) == k + ancestry_len(cur.deep_view()),
            res.len() == k + 1,
            forall|j: int| 0 <= j < res.len() ==> #[trigger] res@[j]@ == probe_at(p@, j),
        decreases cur.len(),
    {
        proof {
            reveal_strlit("/");
            assert("/"@ =~= root_comp());
        }
        let ghost before = cur.deep_view();
        cur.pop();
        assert(cur.deep_view() =~= before.drop_last());
        k = k + 1;
        assert(cur.deep_view() =~= dv.take(dv.len() - k));
        res.push(render_components(&cur));
    }
    proof {
        reveal_strlit("/");
        assert("/"@ =~= root_comp());
    }
    res
}

/// What resolving `p` gives, by components: the resolved anchor with the
/// components that were stripped on the way up added back as the filesystem
/// resolves them (a `..` cancels the name before it), or `p` itself,
/// normalized, when no ancestor exists.
pub open spec fn spec_lenient(p: Seq<char>, anchor: Option<Anchor>) -> Seq<Seq<char>> {
    let cs = path_components(p);
    match anchor {
        None => normalized(cs),
        Some(a) => {
            let keep = cs.len() - a.index;
            let base = match a.canonical {
                Some(c) => path_components(c@),
                None => cs.take(keep),
            };
            fold_resolved(base, cs.skip(keep))
        },
    }
}

/// An anchor names one of the probes of `p`.
pub open spec fn anchor_fits(p: Seq<char>, anchor: Option<Anchor>) -> bool {
    match anchor {
        None => true,
        Some(a) => a.index < probe_count(p),
    }
}

/// Does `anchor` name one of the probes of `p`?
pub fn anchor_in_range(p: &str, anchor: &Option<Anchor>) -> (res: bool)
    ensures
        res == anchor_fits(p@, *anchor),
{
    match anchor {
        None => true,
        Some(a) => a.index < lenient_probes(p).len(),
    }
}

/// Resolve `p` given the outcome of probing its ancestors. The existing prefix
/// is replaced by its resolved form (so any symlink in it is followed); the
/// missing tail is re-appended, `..` included.
pub fn canonicalize_lenient(p: &str, anchor: &Option<Anchor>) -> (res: Vec<String>)
    requires
        anchor_fits(p@, *anchor),
    ensures
        res.deep_view() =~= spec_lenient(p@, *anchor),
{
    let cs = components(p);
    let ghost dv = cs.deep_view();
    match anchor {
        None => normalize_components(&cs),
        Some(a) => {
            proof {
                lemma_ancestry_len_bound(dv);
            }
            let keep = cs.len() - a.index;
            let base: Vec<String> = match &a.canonical {
                Some(c) => components(c.as_str()),
                None => {
                    let mut b: Vec<String> = Vec::new();
                    let mut i: usize = 0;
                    while i < keep
                        invariant
                            dv == cs.deep_view(),
                            keep <= cs.len(),
                            0 <= i <= keep,
                            b.deep_view() =~= dv.take(i as int),
                        decreases keep - i,
                    {
                        push_component(&mut b, cs[i].clone());
                        i = i + 1;
                    }
                    b
                },
            };
            fold_components(base, &cs, keep)
        },
    }
}

/// `candidate` lies under `root` once both are resolved.
pub open spec fn spec_within_root(
    candidate: Seq<char>,
    candidate_anchor: Option<Anchor>,
    root: Seq<char>,
    root_anchor: Option<Anchor>,
) -> bool {
    is_prefix(spec_lenient(root, root_anchor), spec_lenient(candidate, candidate_anchor))
}

/// Confirm `candidate` really lives under `root` after resolving symlinks on
/// the portion that exists. Canonical paths are compared so a symlinked cache
/// dir can't be used to reach outside the root.
pub fn within_root(
    candidate: &str,
    candidate_anchor: &Option<Anchor>,
    root: &str,
    root_anchor: &Option<Anchor>,
) -> (res: bool)
    requires
        anchor_fits(candidate@, *candidate_anchor),
        anchor_fits(root@, *root_anchor),
    ensures
        res == spec_within_root(candidate@, *candidate_anchor, root@, *root_anchor),
{
    let cand = canonicalize_lenient(candidate, candidate_anchor);
    let base = canonicalize_lenient(root, root_anchor);
    starts_with(&cand, &base)
}

/// The verdict for one candidate directory, checks in order.
pub open spec fn spec_evaluate(
    candidate: Seq<char>,
    root: Seq<char>,
    home: Seq<char>,
    exists: bool,
    lock_present: bool,
    candidate_anchor: Option<Anchor>,
    root_anchor: Option<Anchor>,
    home_anchor: Option<Anchor>,
) -> Guard {
    if spec_is_protected(candidate, home) || protected_components(
        spec_lenient(candidate, candidate_anchor),
        spec_lenient(home, home_anchor),
    ) {
        Guard::Protected
    } else if !spec_within_root(candidate, candidate_anchor, root, root_anchor) {
        Guard::OutsideRoot
    } else if !exists {
        Guard::Missing
    } else if lock_present {
        Guard::InUse
    } else {
        Guard::Allowed
    }
}

/// Full verdict for a single candidate directory. Whether it exists, whether
/// a fresh lock sits in it, and how its path, its root and home resolve on
/// disk are supplied by the caller, so this stays a pure function. A
/// candidate is protected when it is so as written (after `.` and `..`), or
/// once it and home are resolved.
pub fn evaluate(
    candidate: &str,
    root: &str,
    home: &str,
    exists: bool,
    lock_present: bool,
    candidate_anchor: &Option<Anchor>,
    root_anchor: &Option<Anchor>,
    home_anchor: &Option<Anchor>,
) -> (res: Guard)
    requires
        anchor_fits(candidate@, *candidate_anchor),
        anchor_fits(root@, *root_anchor),
        anchor_fits(home@, *home_anchor),
    ensures
        res == spec_evaluate(
            candidate@,
            root@,
            home@,
            exists,
            lock_present,
            *candidate_anchor,
            *root_anchor,
            *home_anchor,
        ),
{
    if is_protected(candidate, home) {
        return Guard::Protected;
    }
    let resolved = canonicalize_lenient(candidate, candidate_anchor);
    let resolved_home = canonicalize_lenient(home, home_anchor);
    if protected_by_components(&resolved, &resolved_home) {
        return Guard::Protected;
    }
    if !within_root(candidate, candidate_anchor, root, root_anchor) {
        return Guard::OutsideRoot;
    }
    if !exists {
        return Guard::Missing;
    }
    if lock_present {
        return Guard::InUse;
    }
    Guard::Allowed
}

/// The filesystem root, home itself, every ancestor of home, and every path
/// with fewer than two named components are protected, once `.` and `..` are
/// normalized away in both paths.
pub proof fn lemma_protected_paths(path: Seq<char>, home: Seq<char>)
    ensures
        ({
            let p = normalized(path_components(path));
            let h = normalized(path_components(home));
            &&& p == seq![root_comp()] ==> spec_is_protected(path, home)
            &&& p == h ==> spec_is_protected(path, home)
            &&& normal_count(p) < 2 ==> spec_is_protected(path, home)
            &&& is_prefix(p, h) ==> spec_is_protected(path, home)
        }),
{
}

/// A candidate that resolves to home, or to an ancestor of home, is
/// protected, whatever the root, probes or lock state.
pub proof fn lemma_resolved_home_refused(
    candidate: Seq<char>,
    root: Seq<char>,
    home: Seq<char>,
    exists: bool,
    lock_present: bool,
    candidate_anchor: Option<Anchor>,
    root_anchor: Option<Anchor>,
    home_anchor: Option<Anchor>,
)
    requires
        is_prefix(spec_lenient(candidate, candidate_anchor), spec_lenient(home, home_anchor)),
    ensures
        spec_evaluate(
            candidate,
            root,
            home,
            exists,
            lock_present,
            candidate_anchor,
            root_anchor,
            home_anchor,
        ) == Guard::Protected,
{
}

/// Home is never a deletion candidate, whatever the root, probes or lock state.
pub proof fn lemma_home_refused(
    home: Seq<char>,
    root: Seq<char>,
    exists: bool,
    lock_present: bool,
    candidate_anchor: Option<Anchor>,
    root_anchor: Option<Anchor>,
    home_anchor: Option<Anchor>,
)
    ensures
        spec_evaluate(home, root, home, exists, lock_present, candidate_anchor, root_anchor, home_anchor)
            == Guard::Protected,
{
}

/// A verdict of `Allowed` means every guard passed: not protected as written
/// nor once resolved, inside the root once resolved, present on disk, and not
/// locked.
pub proof fn lemma_allowed_iff_all_guards_pass(
    candidate: Seq<char>,
    root: Seq<char>,
    home: Seq<char>,
    exists: bool,
    lock_present: bool,
    candidate_anchor: Option<Anchor>,
    root_anchor: Option<Anchor>,
    home_anchor: Option<Anchor>,
)
    ensures
        (spec_evaluate(candidate, root, home, exists, lock_present, candidate_anchor, root_anchor, home_anchor)
            == Guard::Allowed) <==> {
            &&& !spec_is_protected(candidate, home)
            &&& !protected_components(spec_lenient(candidate, candidate_anchor), spec_lenient(home, home_anchor))
            &&& spec_within_root(candidate, candidate_anchor, root, root_anchor)
            &&& exists
            &&& !lock_present
        },
{
}

/// A path resolved the same way lies within itself.
pub proof fn lemma_within_root_reflexive(p: Seq<char>, anchor: Option<Anchor>)
    ensures
        spec_within_root(p, anchor, p, anchor),
{
    let r = spec_lenient(p, anchor);
    assert(r.take(r.len() as int) =~= r);
}

/// A directory that is its own root, exists and holds no fresh lock is allowed
/// exactly when it is not protected.
pub proof fn lemma_own_root_allowed_unless_protected(
    candidate: Seq<char>,
    home: Seq<char>,
    anchor: Option<Anchor>,
    home_anchor: Option<Anchor>,
)
    ensures
        (spec_evaluate(candidate, candidate, home, true, false, anchor, anchor, home_anchor) == Guard::Allowed)
            <==> !(spec_is_protected(candidate, home) || protected_components(
            spec_lenient(candidate, anchor),
            spec_lenient(home, home_anchor),
        )),
{
    lemma_within_root_reflexive(candidate, anchor);
}

/// When no ancestor of a path exists, resolving it normalizes its components;
/// when the path itself exists but cannot be resolved, it stays as written.
pub proof fn lemma_unresolved_is_lexical(p: Seq<char>)
    ensures
        spec_lenient(p, None) == normalized(path_components(p)),
        spec_lenient(p, Some(Anchor { index: 0, canonical: None })) == path_components(p),
{
    let cs = path_components(p);
    assert(cs.skip(cs.len() as int) =~= Seq::<Seq<char>>::empty());
    assert(cs.take(cs.len() as int) =~= cs);
}

} // verus!
