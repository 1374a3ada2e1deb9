//! Directory sizing, lock detection and the decisions of the directory walks.
//!
//! The walks themselves read the filesystem and are driven by the caller; at
//! every entry they ask this module what to do. Symlinks are never traversed,
//! which keeps a symlinked cache from being used to size (and later delete)
//! something outside its root.
use std::time::{Duration, SystemTime, UNIX_EPOCH};
use vstd::prelude::*;
use crate::text::{last_line, last_line_of, parse_u64, spec_parse_u64, split_words, words};
use crate::path::{
    join, path_components, render, render_components, root_comp, spec_join, components,
};

verus! {

pub struct DirStat {
    pub bytes: u64,
    pub files: u64,
    /// Most-recent mtime seen, as seconds since epoch. Used for age-gating.
    pub newest_mtime: u64,
}

/// What the walk learned about one directory entry, without following links.
pub struct EntryMeta {
    pub is_symlink: bool,
    pub is_dir: bool,
    pub len: u64,
    /// Modification time in seconds since the epoch, when it could be read.
    pub mtime: Option<u64>,
}

/// An entry that is counted as a file with its length: neither a link nor a directory.
pub open spec fn is_plain_file(e: EntryMeta) -> bool {
    !e.is_symlink && !e.is_dir
}

/// Bytes of the plain files among `es`.
pub open spec fn total_bytes(es: Seq<EntryMeta>) -> nat
    decreases es.len(),
{
    if es.len() == 0 {
        0
    } else {
        total_bytes(es.drop_last()) + if is_plain_file(es.last()) {
            es.last().len as nat
        } else {
            0nat
        }
    }
}

/// Entries counted as files: plain files and symlinks.
pub open spec fn total_files(es: Seq<EntryMeta>) -> nat
    decreases es.len(),
{
    if es.len() == 0 {
        0
    } else {
        total_files(es.drop_last()) + if es.last().is_symlink || !es.last().is_dir {
            1nat
        } else {
            0nat
        }
    }
}

/// Newest readable mtime among the plain files, or 0.
pub open spec fn newest_mtime(es: Seq<EntryMeta>) -> u64
    decreases es.len(),
{
    if es.len() == 0 {
        0
    } else {
        let prev = newest_mtime(es.drop_last());
        let e = es.last();
        if is_plain_file(e) && e.mtime is Some && e.mtime->0 > prev {
            e.mtime->0
        } else {
            prev
        }
    }
}

pub proof fn lemma_total_files_bound(es: Seq<EntryMeta>)
    ensures
        total_files(es) <= es.len(),
    decreases es.len(),
{
    if es.len() > 0 {
        lemma_total_files_bound(es.drop_last());
    }
}

/// The newest mtime of a walk is the latest readable mtime among its plain
/// files: no plain file with a readable mtime is newer, and it is the mtime of
/// one of them, or 0 when none has one.
pub proof fn lemma_newest_mtime_is_latest(es: Seq<EntryMeta>)
    ensures
        forall|k: int|
            0 <= k < es.len() && !(#[trigger] es[k]).is_symlink && !es[k].is_dir && es[k].mtime is Some
                ==> es[k].mtime->0 <= newest_mtime(es),
        newest_mtime(es) == 0 || exists|k: int|
            0 <= k < es.len() && !(#[trigger] es[k]).is_symlink && !es[k].is_dir && es[k].mtime == Some(
                newest_mtime(es),
            ),
    decreases es.len(),
{
    if es.len() > 0 {
        let t = es.drop_last();
        lemma_newest_mtime_is_latest(t);
        assert forall|k: int|
            0 <= k < es.len() && !(#[trigger] es[k]).is_symlink && !es[k].is_dir && es[k].mtime is Some
                implies es[k].mtime->0 <= newest_mtime(es) by {
            if k < t.len() {
                assert(es[k] == t[k]);
            }
        }
        if newest_mtime(es) != 0 {
            if newest_mtime(es) == newest_mtime(t) {
                let k = choose|k: int|
                    0 <= k < t.len() && !(#[trigger] t[k]).is_symlink && !t[k].is_dir && t[k].mtime == Some(
                        newest_mtime(t),
                    );
                assert(es[k] == t[k]);
            } else {
                assert(es[es.len() - 1] == es.last());
            }
        }
    }
}

/// Sizes add up over the entries of a walk: bytes and file counts of two runs
/// of entries are the sums of theirs. One entry adds its length when it is
/// neither a link nor a directory, and counts as a file unless it is a real
/// directory.
pub proof fn lemma_sizes_add(a: Seq<EntryMeta>, b: Seq<EntryMeta>)
    ensures
        total_bytes(a + b) == total_bytes(a) + total_bytes(b),
        total_files(a + b) == total_files(a) + total_files(b),
        forall|e: EntryMeta|
            #[trigger] total_bytes(seq![e]) == if !e.is_symlink && !e.is_dir {
                e.len as nat
            } else {
                0nat
            },
        forall|e: EntryMeta|
            #[trigger] total_files(seq![e]) == if e.is_dir && !e.is_symlink {
                0nat
            } else {
                1nat
            },
    decreases b.len(),
{
    assert forall|e: EntryMeta|
        #[trigger] total_bytes(seq![e]) == if !e.is_symlink && !e.is_dir {
            e.len as nat
        } else {
            0nat
        } by {
        assert(seq![e].drop_last() =~= Seq::<EntryMeta>::empty());
        assert(seq![e].last() == e);
        assert(total_bytes(Seq::<EntryMeta>::empty()) == 0);
    }
    assert forall|e: EntryMeta|
        #[trigger] total_files(seq![e]) == if e.is_dir && !e.is_symlink {
            0nat
        } else {
            1nat
        } by {
        assert(seq![e].drop_last() =~= Seq::<EntryMeta>::empty());
        assert(seq![e].last() == e);
        assert(total_files(Seq::<EntryMeta>::empty()) == 0);
    }
    if b.len() == 0 {
        assert(a + b =~= a);
    } else {
        lemma_sizes_add(a, b.drop_last());
        assert((a + b).drop_last() =~= a + b.drop_last());
        assert((a + b).last() == b.last());
    }
}

/// Does the walk descend into this entry? Only into real directories, never
/// through a symlink.
pub fn descends(e: &EntryMeta) -> (res: bool)
    ensures
        res == (e.is_dir && !e.is_symlink),
{
    e.is_dir && !e.is_symlink
}

impl DirStat {
    pub fn new() -> (res: DirStat)
        ensures
            res.bytes == 0,
            res.files == 0,
            res.newest_mtime == 0,
    {
        DirStat { bytes: 0, files: 0, newest_mtime: 0 }
    }

    /// Account for one entry: a symlink counts as an entry, a directory adds
    /// nothing itself, a file adds its length and may raise the newest mtime.
    pub fn record(&mut self, e: &EntryMeta)
        requires
            is_plain_file(*e) ==> old(self).bytes + e.len <= u64::MAX,
            e.is_symlink || !e.is_dir ==> old(self).files < u64::MAX,
        ensures
            final(self).bytes == old(self).bytes + if is_plain_file(*e) {
                e.len as int
            } else {
                0
            },
            final(self).files == old(self).files + if e.is_symlink || !e.is_dir {
                1int
            } else {
                0
            },
            final(self).newest_mtime == if is_plain_file(*e) && e.mtime is Some && e.mtime->0
                > old(self).newest_mtime {
                e.mtime->0
            } else {
                old(self).newest_mtime
            },
    {
        if e.is_symlink {
            self.files = self.files + 1;
            return;
        }
        if e.is_dir {
            return;
        }
        self.bytes = self.bytes + e.len;
        self.files = self.files + 1;
        if let Some(secs) = e.mtime {
            if secs > self.newest_mtime {
                self.newest_mtime = secs;
            }
        }
    }
}

/// Size a directory from the entries its walk met: every entry below it,
/// reached without following symlinks.
pub fn size_dir(entries: &Vec<EntryMeta>) -> (res: DirStat)
    requires
        total_bytes(entries@) <= u64::MAX,
    ensures
        res.bytes == total_bytes(entries@),
        res.files == total_files(entries@),
        res.newest_mtime == newest_mtime(entries@),
{
    let mut stat = DirStat::new();
    let n = entries.len();
    proof {
        lemma_total_files_bound(entries@);
        assert(n as int <= u64::MAX);
    }
    size_into(entries, &mut stat);
    stat
}

/// The larger of two times.
pub open spec fn later(a: u64, b: u64) -> u64 {
    if a >= b {
        a
    } else {
        b
    }
}

/// Add the entries a walk met onto `acc`: their bytes and file count are
/// added, and the newest mtime is the later of the two.
pub fn size_into(entries: &Vec<EntryMeta>, acc: &mut DirStat)
    requires
        old(acc).bytes + total_bytes(entries@) <= u64::MAX,
        old(acc).files + total_files(entries@) <= u64::MAX,
    ensures
        final(acc).bytes == old(acc).bytes + total_bytes(entries@),
        final(acc).files == old(acc).files + total_files(entries@),
        final(acc).newest_mtime == later(old(acc).newest_mtime, newest_mtime(entries@)),
{
    let ghost b0 = acc.bytes;
    let ghost f0 = acc.files;
    let ghost n0 = acc.newest_mtime;
    let mut i: usize = 0;
    while i < entries.len()
        invariant
            0 <= i <= entries.len(),
            b0 + total_bytes(entries@) <= u64::MAX,
            f0 + total_files(entries@) <= u64::MAX,
            acc.bytes == b0 + total_bytes(entries@.take(i as int)),
            acc.files == f0 + total_files(entries@.take(i as int)),
            acc.newest_mtime == later(n0, newest_mtime(entries@.take(i as int))),
        decreases entries.len() - i,
    {
        let ghost t = entries@.take(i as int + 1);
        assert(t.drop_last() =~= entries@.take(i as int));
        proof {
            lemma_total_bytes_prefix(entries@, i as int + 1);
            lemma_total_files_prefix(entries@, i as int + 1);
        }
        acc.record(&entries[i]);
        i = i + 1;
    }
    assert(entries@.take(entries.len() as int) =~= entries@);
}

/// Files counted in a prefix never exceed those of the whole.
pub proof fn lemma_total_files_prefix(es: Seq<EntryMeta>, n: int)
    requires
        0 <= n <= es.len(),
    ensures
        total_files(es.take(n)) <= total_files(es),
    decreases es.len() - n,
{
    if n < es.len() {
        lemma_total_files_prefix(es, n + 1);
        assert(es.take(n + 1).drop_last() =~= es.take(n));
    } else {
        assert(es.take(n) =~= es);
    }
}

/// Do the file sizes of `entries` add up within a `u64`? (`size_dir` needs it.)
pub fn entries_fit(entries: &Vec<EntryMeta>) -> (res: bool)
    ensures
        res == (total_bytes(entries@) <= u64::MAX),
{
    let mut sum: u64 = 0;
    let mut i: usize = 0;
    while i < entries.len()
        invariant
            0 <= i <= entries.len(),
            sum == total_bytes(entries@.take(i as int)),
        decreases entries.len() - i,
    {
        let ghost t = entries@.take(i as int + 1);
        assert(t.drop_last() =~= entries@.take(i as int));
        let e = &entries[i];
        if !e.is_symlink && !e.is_dir {
            match sum.checked_add(e.len) {
                Some(x) => {
                    sum = x;
                },
                None => {
                    proof {
                        lemma_total_bytes_prefix(entries@, i as int + 1);
                    }
                    return false;
                },
            }
        }
        i = i + 1;
    }
    assert(entries@.take(entries.len() as int) =~= entries@);
    true
}

/// Bytes of a prefix never exceed the bytes of the whole.
pub proof fn lemma_total_bytes_prefix(es: Seq<EntryMeta>, n: int)
    requires
        0 <= n <= es.len(),
    ensures
        total_bytes(es.take(n)) <= total_bytes(es),
    decreases es.len() - n,
{
    if n < es.len() {
        lemma_total_bytes_prefix(es, n + 1);
        assert(es.take(n + 1).drop_last() =~= es.take(n));
    } else {
        assert(es.take(n) =~= es);
    }
}

/// What a path turned out to be when sizing it.
pub enum PathProbe {
    /// Its metadata could not be read.
    Unreadable,
    /// A directory, with the entries its walk met.
    Dir(Vec<EntryMeta>),
    /// A single file (a container VM's disk image is one huge file).
    File { len: u64, blocks: Option<u64>, mtime: Option<u64> },
}

/// Bytes a single file really occupies: allocated blocks of 512 bytes
/// (saturating) where the platform reports them, its length otherwise.
pub open spec fn file_bytes(len: u64, blocks: Option<u64>) -> u64 {
    match blocks {
        Some(b) => if b * 512 <= u64::MAX {
            (b * 512) as u64
        } else {
            u64::MAX
        },
        None => len,
    }
}

/// Size a path that may be either a directory or a single file.
pub fn size_path(p: &PathProbe) -> (res: DirStat)
    requires
        p matches PathProbe::Dir(es) ==> total_bytes(es@) <= u64::MAX,
    ensures
        match p {
            PathProbe::Unreadable => res.bytes == 0 && res.files == 0 && res.newest_mtime == 0,
            PathProbe::Dir(es) => res.bytes == total_bytes(es@) && res.files == total_files(es@)
                && res.newest_mtime == newest_mtime(es@),
            PathProbe::File { len, blocks, mtime } => res.bytes == file_bytes(*len, *blocks)
                && res.files == 1 && res.newest_mtime == match mtime {
                Some(m) => *m,
                None => 0,
            },
        },
{
    match p {
        PathProbe::Unreadable => DirStat::new(),
        PathProbe::Dir(es) => size_dir(es),
        PathProbe::File { len, blocks, mtime } => {
            let bytes = match blocks {
                Some(b) => match b.checked_mul(512) {
                    Some(x) => x,
                    None => u64::MAX,
                },
                None => *len,
            };
            let newest = match mtime {
                Some(m) => *m,
                None => 0,
            };
            DirStat { bytes, files: 1, newest_mtime: newest }
        },
    }
}

/// How long a lock file may sit untouched before it counts as stale, in seconds.
pub open spec fn lock_window() -> u64 {
    300
}

/// The lock files package managers keep at a cache root while working on it.
pub open spec fn spec_lock_file_names() -> Seq<Seq<char>> {
    seq![".lock"@, "lock"@, ".package-lock"@]
}

/// Names of the lock files to look for in a cache directory.
pub fn lock_file_names() -> (res: Vec<&'static str>)
    ensures
        res@.map_values(|s: &str| s@) == spec_lock_file_names(),
{
    let mut v: Vec<&'static str> = Vec::new();
    v.push(".lock");
    v.push("lock");
    v.push(".package-lock");
    assert(v@.map_values(|s: &str| s@) =~= spec_lock_file_names());
    v
}

/// A cache is in use when one of its lock files was touched within the
/// window. `lock_ages[i]` is the age in seconds of the `i`-th lock file, or
/// `None` when it is absent or its age cannot be read.
pub open spec fn spec_lock_present(lock_ages: Seq<Option<u64>>) -> bool {
    exists|i: int| 0 <= i < lock_ages.len() && is_fresh(#[trigger] lock_ages[i])
}

/// A lock file of this age marks the cache as in use.
pub open spec fn is_fresh(age: Option<u64>) -> bool {
    match age {
        Some(a) => a < lock_window(),
        None => false,
    }
}

/// A cache is in use exactly when one of its lock files, whichever it is,
/// was touched less than 300 seconds ago.
pub proof fn lemma_lock_present_iff_fresh(lock_ages: Seq<Option<u64>>)
    ensures
        spec_lock_present(lock_ages) <==> exists|i: int|
            0 <= i < lock_ages.len() && (#[trigger] lock_ages[i]) is Some && lock_ages[i]->0 < 300,
{
    if spec_lock_present(lock_ages) {
        let i = choose|i: int| 0 <= i < lock_ages.len() && is_fresh(#[trigger] lock_ages[i]);
        assert(lock_ages[i] is Some && lock_ages[i]->0 < 300);
    }
    if exists|i: int| 0 <= i < lock_ages.len() && (#[trigger] lock_ages[i]) is Some && lock_ages[i]->0 < 300 {
        let i = choose|i: int|
            0 <= i < lock_ages.len() && (#[trigger] lock_ages[i]) is Some && lock_ages[i]->0 < 300;
        assert(is_fresh(lock_ages[i]));
    }
}

/// Detect whether a cache dir is actively in use. Conservative on purpose: a
/// false "in use" just defers cleanup; a false "safe" could corrupt a running
/// install. Stale locks from a crashed process don't block cleanup forever.
pub fn lock_present(lock_ages: &Vec<Option<u64>>) -> (res: bool)
    ensures
        res == spec_lock_present(lock_ages@),
{
    let mut i: usize = 0;
    while i < lock_ages.len()
        invariant
            0 <= i <= lock_ages.len(),
            forall|k: int| 0 <= k < i ==> !is_fresh(#[trigger] lock_ages@[k]),
        decreases lock_ages.len() - i,
    {
        if let Some(age) = lock_ages[i] {
            if age < 300 {
                assert(is_fresh(lock_ages@[i as int]));
                return true;
            }
        }
        i = i + 1;
    }
    false
}

/// The components of the parent of a path with components `cs`, if it has one.
pub open spec fn parent_components(cs: Seq<Seq<char>>) -> Option<Seq<Seq<char>>> {
    if cs.len() == 0 || cs.last() == root_comp() {
        None
    } else {
        Some(cs.drop_last())
    }
}

/// The paths beside `dir` that carry `names`, or `None` when `dir` has no parent.
pub open spec fn spec_sibling_paths(dir: Seq<char>, names: Seq<Seq<char>>) -> Option<Seq<Seq<char>>> {
    match parent_components(path_components(dir)) {
        None => None,
        Some(pc) => Some(names.map_values(|n: Seq<char>| spec_join(render(pc), n))),
    }
}

/// Where the siblings named `names` of `dir` would be, or `None` when `dir`
/// has no parent.
pub fn sibling_paths(dir: &str, names: &Vec<String>) -> (res: Option<Vec<String>>)
    ensures
        match spec_sibling_paths(dir@, names.deep_view()) {
            None => res is None,
            Some(ps) => res matches Some(v) && v.deep_view() == ps,
        },
{
    let mut cs = components(dir);
    proof {
        reveal_strlit("/");
        assert("/"@ =~= root_comp());
    }
    if cs.len() == 0 || cs[cs.len() - 1] == String::from_str("/") {
        return None;
    }
    let ghost full = cs.deep_view();
    cs.pop();
    assert(cs.deep_view() =~= full.drop_last());
    let parent = render_components(&cs);
    let ghost pc = cs.deep_view();
    let mut out: Vec<String> = Vec::new();
    let mut i: usize = 0;
    while i < names.len()
        invariant
            0 <= i <= names.len(),
            parent@ == render(pc),
            out.deep_view() =~= names.deep_view().take(i as int).map_values(
                |n: Seq<char>| spec_join(render(pc), n),
            ),
        decreases names.len() - i,
    {
        let p = join(parent.as_str(), names[i].as_str());
        let ghost before = out.deep_view();
        out.push(p);
        assert(out.deep_view() =~= before.push(p@));
        assert(names.deep_view().take(i as int + 1) =~= names.deep_view().take(i as int).push(
            names@[i as int]@,
        ));
        i = i + 1;
    }
    assert(names.deep_view().take(names.len() as int) =~= names.deep_view());
    Some(out)
}

/// Does one of `names` exist next to `dir` (i.e. in its parent)?
/// `exists[i]` says whether the `i`-th path of `sibling_paths(dir, names)` exists.
pub fn has_sibling(dir: &str, names: &Vec<String>, exists: &Vec<bool>) -> (res: bool)
    requires
        exists.len() == names.len(),
    ensures
        res == (parent_components(path_components(dir@)) is Some && exists@.contains(true)),
{
    let cs = components(dir);
    proof {
        reveal_strlit("/");
        assert("/"@ =~= root_comp());
    }
    if cs.len() == 0 || cs[cs.len() - 1] == String::from_str("/") {
        return false;
    }
    assert(cs.deep_view().last() == cs@[cs.len() - 1]@);
    assert(parent_components(path_components(dir@)) is Some);
    let mut i: usize = 0;
    while i < exists.len()
        invariant
            0 <= i <= exists.len(),
            parent_components(path_components(dir@)) is Some,
            forall|k: int| 0 <= k < i ==> exists@[k] == false,
        decreases exists.len() - i,
    {
        if exists[i] {
            assert(exists@[i as int] == true);
            assert(exists@.contains(true));
            return true;
        }
        i = i + 1;
    }
    false
}

/// What the search for named directories does with one entry.
#[derive(Debug, PartialEq, Eq, Structural)]
pub enum NamedVisit {
    /// Not a directory we may walk into (a file or a symlink).
    Skip,
    /// An ordinary directory: walk into it.
    Descend,
    /// A match: report it, and do not descend into it.
    Collect,
    /// Named right, but only a match if a sibling marker exists: ask again
    /// with the answer.
    CheckSibling,
}

/// The decision for one entry of the search, given whether a required
/// sibling marker was found (when that was asked).
pub open spec fn spec_visit_named(
    entry_name: Seq<char>,
    is_dir: bool,
    is_symlink: bool,
    name: Seq<char>,
    needs_sibling: bool,
    sibling: Option<bool>,
) -> NamedVisit {
    if !is_dir || is_symlink {
        NamedVisit::Skip
    } else if entry_name == name {
        if !needs_sibling {
            NamedVisit::Collect
        } else {
            match sibling {
                None => NamedVisit::CheckSibling,
                Some(true) => NamedVisit::Collect,
                Some(false) => NamedVisit::Descend,
            }
        }
    } else {
        NamedVisit::Descend
    }
}

/// Find directories named `name`, pruning at the first match so nested
/// matches (node_modules inside node_modules) are not descended into.
/// When `requires_sibling` is non-empty, the name alone is not enough: one of
/// those files must sit beside the directory. When it is absent the directory
/// is walked into like any other, so a genuine project nested inside a data
/// tree is still found.
pub fn visit_named(
    entry_name: &str,
    is_dir: bool,
    is_symlink: bool,
    name: &str,
    requires_sibling: &Vec<String>,
    sibling: Option<bool>,
) -> (res: NamedVisit)
    ensures
        res == spec_visit_named(
            entry_name@,
            is_dir,
            is_symlink,
            name@,
            requires_sibling.len() > 0,
            sibling,
        ),
{
    if !is_dir || is_symlink {
        return NamedVisit::Skip;
    }
    if String::from_str(entry_name) == String::from_str(name) {
        if requires_sibling.len() == 0 {
            return NamedVisit::Collect;
        }
        match sibling {
            None => NamedVisit::CheckSibling,
            Some(true) => NamedVisit::Collect,
            Some(false) => NamedVisit::Descend,
        }
    } else {
        NamedVisit::Descend
    }
}

/// The volume whose free space the user actually means: on modern macOS the
/// data volume, since `/` there is the sealed system volume.
pub fn data_volume(macos_data_exists: bool) -> (res: String)
    ensures
        res@ == if macos_data_exists {
            "/System/Volumes/Data"@
        } else {
            "/"@
        },
{
    if macos_data_exists {
        String::from_str("/System/Volumes/Data")
    } else {
        String::from_str("/")
    }
}

#[verifier::external_type_specification]
#[verifier::external_body]
pub struct ExSystemTime(SystemTime);

/// Calls `SystemTime::now`: the current wall-clock time. Nothing is promised
/// of the value; it depends on the machine's clock.
#[verifier::external_body]
fn clock_now() -> SystemTime {
    SystemTime::now()
}

/// Calls `SystemTime::duration_since` with the Unix epoch: the time elapsed
/// since the epoch, or `None` when `t` lies before it. Nothing more is
/// promised of the result.
#[verifier::external_body]
fn since_epoch(t: &SystemTime) -> Option<Duration> {
    t.duration_since(UNIX_EPOCH).ok()
}

/// Calls `Duration::as_secs`: the whole seconds of `d`. `Duration` is opaque
/// here, so nothing is stated of the number.
#[verifier::external_body]
fn whole_secs(d: &Duration) -> u64 {
    d.as_secs()
}

/// Seconds since epoch, now; 0 when the clock reads before the epoch.
pub fn now_secs() -> u64 {
    match since_epoch(&clock_now()) {
        Some(d) => whole_secs(&d),
        None => 0,
    }
}

/// The available space `df -k` reports, in bytes (saturating): the fourth
/// field of its last line, counted in 1K blocks.
pub open spec fn spec_df_available(stdout: Seq<char>) -> Option<u64> {
    match last_line(stdout) {
        None => None,
        Some(line) => {
            let ws = words(line);
            if ws.len() < 4 {
                None
            } else {
                match spec_parse_u64(ws[3]) {
                    None => None,
                    Some(k) => Some(
                        if k * 1024 <= u64::MAX {
                            (k * 1024) as u64
                        } else {
                            u64::MAX
                        },
                    ),
                }
            }
        },
    }
}

/// Free bytes on a filesystem from the output of `df -k` for it. On modern
/// macOS the path asked about should be `data_volume()`, not `/`.
pub fn df_available_bytes(stdout: &str) -> (res: Option<u64>)
    ensures
        res == spec_df_available(stdout@),
{
    let line = match last_line_of(stdout) {
        Some(l) => l,
        None => {
            return None;
        },
    };
    let ws = split_words(line.as_str());
    if ws.len() < 4 {
        return None;
    }
    assert(ws.deep_view()[3] == ws@[3]@);
    let avail_k = match parse_u64(ws[3].as_str()) {
        Some(k) => k,
        None => {
            return None;
        },
    };
    match avail_k.checked_mul(1024) {
        Some(b) => Some(b),
        None => Some(u64::MAX),
    }
}

} // verus!
