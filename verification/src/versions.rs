//! Versioned installs that are safe to reclaim: every child of a versions
//! directory except the newest `keep` of each product group.
//!
//! Children are ordered newest first by directory mtime (install time in
//! practice), ties broken by the greater name, and then by the order the
//! directory listing gave them. The result is sorted the way paths sort:
//! component by component.
use vstd::prelude::*;
use vstd::seq_lib::to_multiset_insert;
use crate::path::{components, cur_comp, parent_comp, path_components, root_comp};

verus! {

/// `a` sorts before `b`, character by character (for UTF-8 strings this is
/// also their byte order).
pub open spec fn str_lt(a: Seq<char>, b: Seq<char>) -> bool
    decreases a.len(),
{
    if a.len() == 0 {
        b.len() > 0
    } else if b.len() == 0 {
        false
    } else if a[0] == b[0] {
        str_lt(a.drop_first(), b.drop_first())
    } else {
        (a[0] as u32) < (b[0] as u32)
    }
}

pub proof fn lemma_str_lt_transitive(a: Seq<char>, b: Seq<char>, c: Seq<char>)
    requires
        str_lt(a, b),
        str_lt(b, c),
    ensures
        str_lt(a, c),
    decreases a.len(),
{
    if a.len() > 0 && a[0] == b[0] && b[0] == c[0] {
        lemma_str_lt_transitive(a.drop_first(), b.drop_first(), c.drop_first());
    }
}

/// `a` sorts before `b`.
pub fn str_less(a: &str, b: &str) -> (res: bool)
    ensures
        res == str_lt(a@, b@),
{
    let na = a.unicode_len();
    let nb = b.unicode_len();
    let mut i: usize = 0;
    assert(a@.skip(0) =~= a@ && b@.skip(0) =~= b@);
    while i < na && i < nb
        invariant
            na == a@.len(),
            nb == b@.len(),
            0 <= i <= na,
            i <= nb,
            str_lt(a@, b@) == str_lt(a@.skip(i as int), b@.skip(i as int)),
        decreases na - i,
    {
        let ca = a.get_char(i);
        let cb = b.get_char(i);
        assert(a@.skip(i as int)[0] == ca && b@.skip(i as int)[0] == cb);
        if ca != cb {
            return (ca as u32) < (cb as u32);
        }
        assert(a@.skip(i as int).drop_first() =~= a@.skip(i as int + 1));
        assert(b@.skip(i as int).drop_first() =~= b@.skip(i as int + 1));
        i = i + 1;
    }
    assert(a@.skip(i as int).len() == na - i);
    i < nb && i == na
}

/// Where a component sorts among the kinds: root, `.`, `..`, then names.
pub open spec fn comp_rank(c: Seq<char>) -> int {
    if c == root_comp() {
        0
    } else if c == cur_comp() {
        1
    } else if c == parent_comp() {
        2
    } else {
        3
    }
}

/// Component order: by kind, and names by their characters.
pub open spec fn comp_lt(a: Seq<char>, b: Seq<char>) -> bool {
    comp_rank(a) < comp_rank(b) || (comp_rank(a) == 3 && comp_rank(b) == 3 && str_lt(a, b))
}

/// Path order on components: lexicographic, a proper prefix first.
pub open spec fn comps_lt(a: Seq<Seq<char>>, b: Seq<Seq<char>>) -> bool
    decreases a.len(),
{
    if a.len() == 0 {
        b.len() > 0
    } else if b.len() == 0 {
        false
    } else if a[0] == b[0] {
        comps_lt(a.drop_first(), b.drop_first())
    } else {
        comp_lt(a[0], b[0])
    }
}

/// `a` sorts before `b` as paths do.
pub open spec fn path_lt(a: Seq<char>, b: Seq<char>) -> bool {
    comps_lt(path_components(a), path_components(b))
}

pub proof fn lemma_comps_lt_transitive(a: Seq<Seq<char>>, b: Seq<Seq<char>>, c: Seq<Seq<char>>)
    requires
        comps_lt(a, b),
        comps_lt(b, c),
    ensures
        comps_lt(a, c),
    decreases a.len(),
{
    if a.len() > 0 {
        if a[0] == b[0] && b[0] == c[0] {
            lemma_comps_lt_transitive(a.drop_first(), b.drop_first(), c.drop_first());
        } else if a[0] != b[0] && b[0] != c[0] {
            if comp_rank(a[0]) == 3 && comp_rank(b[0]) == 3 && comp_rank(c[0]) == 3 {
                lemma_str_lt_transitive(a[0], b[0], c[0]);
            }
            if a[0] == c[0] {
                assert(comp_lt(a[0], b[0]) && comp_lt(b[0], a[0]));
                if comp_rank(a[0]) == 3 && comp_rank(b[0]) == 3 {
                    lemma_str_lt_transitive(a[0], b[0], a[0]);
                    lemma_str_lt_irreflexive(a[0]);
                }
            }
        }
    }
}

pub proof fn lemma_str_lt_irreflexive(a: Seq<char>)
    ensures
        !str_lt(a, a),
    decreases a.len(),
{
    if a.len() > 0 {
        lemma_str_lt_irreflexive(a.drop_first());
    }
}

fn comp_rank_of(c: &String) -> (res: u8)
    ensures
        res as int == comp_rank(c@),
{
    let n = c.as_str().unicode_len();
    if n == 1 {
        let c0 = c.as_str().get_char(0);
        if c0 == '/' {
            assert(c@ =~= root_comp());
            return 0;
        }
        if c0 == '.' {
            assert(c@ =~= cur_comp());
            return 1;
        }
    }
    if n == 2 && c.as_str().get_char(0) == '.' && c.as_str().get_char(1) == '.' {
        assert(c@ =~= parent_comp());
        return 2;
    }
    assert(c@ != root_comp() && c@ != cur_comp() && c@ != parent_comp()) by {
        if n == 1 {
            assert(c@[0] != '/' && c@[0] != '.');
        } else if n == 2 {
            assert(!(c@[0] == '.' && c@[1] == '.'));
        }
    }
    3
}

/// `a` sorts before `b` as paths do.
pub fn path_less(a: &str, b: &str) -> (res: bool)
    ensures
        res == path_lt(a@, b@),
{
    let ca = components(a);
    let cb = components(b);
    let ghost da = ca.deep_view();
    let ghost db = cb.deep_view();
    let mut i: usize = 0;
    assert(da.skip(0) =~= da && db.skip(0) =~= db);
    while i < ca.len() && i < cb.len()
        invariant
            da == ca.deep_view(),
            db == cb.deep_view(),
            da == path_components(a@),
            db == path_components(b@),
            0 <= i <= ca.len(),
            i <= cb.len(),
            comps_lt(da, db) == comps_lt(da.skip(i as int), db.skip(i as int)),
        decreases ca.len() - i,
    {
        assert(da.skip(i as int)[0] == ca@[i as int]@);
        assert(db.skip(i as int)[0] == cb@[i as int]@);
        assert(da.skip(i as int).len() > 0 && db.skip(i as int).len() > 0);
        if ca[i] != cb[i] {
            assert(da.skip(i as int)[0] != db.skip(i as int)[0]);
            assert(comps_lt(da.skip(i as int), db.skip(i as int)) == comp_lt(ca@[i as int]@, cb@[i as int]@));
            let ra = comp_rank_of(&ca[i]);
            let rb = comp_rank_of(&cb[i]);
            if ra != rb {
                return ra < rb;
            }
            return ra == 3 && str_less(ca[i].as_str(), cb[i].as_str());
        }
        assert(da.skip(i as int).drop_first() =~= da.skip(i as int + 1));
        assert(db.skip(i as int).drop_first() =~= db.skip(i as int + 1));
        i = i + 1;
    }
    assert(da.skip(i as int).len() == ca.len() - i);
    i < cb.len() && i == ca.len()
}

/// A child of a versions directory.
pub struct Version {
    /// The product it belongs to: each group keeps its own newest.
    pub group: String,
    /// Directory modification time, seconds since the epoch (0 when unknown).
    pub mtime: u64,
    pub name: String,
    pub path: String,
}

/// `x` is newer than `y`: a later mtime, or the same mtime and a greater name.
pub open spec fn key_newer(x: Version, y: Version) -> bool {
    x.mtime > y.mtime || (x.mtime == y.mtime && str_lt(y.name@, x.name@))
}

/// Child `j` comes before child `i` in their group's newest-first order;
/// children with the same mtime and name keep their listing order.
pub open spec fn ahead(vs: Seq<Version>, j: int, i: int) -> bool {
    &&& vs[j].group@ == vs[i].group@
    &&& (key_newer(vs[j], vs[i]) || (vs[j].mtime == vs[i].mtime && vs[j].name@ == vs[i].name@
        && j < i))
}

/// How many of the first `n` children come before child `i`.
pub open spec fn ahead_count(vs: Seq<Version>, i: int, n: int) -> nat
    decreases n,
{
    if n <= 0 {
        0
    } else {
        ahead_count(vs, i, n - 1) + if ahead(vs, n - 1, i) {
            1nat
        } else {
            0nat
        }
    }
}

/// Child `i` is reclaimable: at least `keep` children of its group come
/// before it, so it is not among the newest `keep`.
pub open spec fn is_stale(vs: Seq<Version>, i: int, keep: nat) -> bool {
    ahead_count(vs, i, vs.len() as int) >= keep
}

/// The paths of the reclaimable children among the first `n`, in listing order.
pub open spec fn stale_paths(vs: Seq<Version>, keep: nat, n: int) -> Seq<Seq<char>>
    decreases n,
{
    if n <= 0 {
        seq![]
    } else if is_stale(vs, n - 1, keep) {
        stale_paths(vs, keep, n - 1).push(vs[n - 1].path@)
    } else {
        stale_paths(vs, keep, n - 1)
    }
}

/// Sorted as paths: no later path sorts before an earlier one.
pub open spec fn sorted_paths(ps: Seq<Seq<char>>) -> bool {
    forall|i: int, j: int| 0 <= i < j < ps.len() ==> !path_lt(ps[j], ps[i])
}

fn ahead_exec(vs: &Vec<Version>, j: usize, i: usize) -> (res: bool)
    requires
        j < vs.len(),
        i < vs.len(),
    ensures
        res == ahead(vs@, j as int, i as int),
{
    let a = &vs[j];
    let b = &vs[i];
    if a.group != b.group {
        return false;
    }
    if a.mtime > b.mtime {
        return true;
    }
    if a.mtime < b.mtime {
        return false;
    }
    str_less(b.name.as_str(), a.name.as_str()) || (a.name == b.name && j < i)
}

fn count_ahead(vs: &Vec<Version>, i: usize) -> (res: usize)
    requires
        i < vs.len(),
    ensures
        res == ahead_count(vs@, i as int, vs.len() as int),
{
    let mut count: usize = 0;
    let mut j: usize = 0;
    while j < vs.len()
        invariant
            i < vs.len(),
            0 <= j <= vs.len(),
            count == ahead_count(vs@, i as int, j as int),
            count <= j,
        decreases vs.len() - j,
    {
        if ahead_exec(vs, j, i) {
            count = count + 1;
        }
        j = j + 1;
    }
    count
}

/// The paths of `ps` whose components are `c`, in their order in `ps`: paths
/// that sort as equal.
pub open spec fn paths_with(ps: Seq<Seq<char>>, c: Seq<Seq<char>>) -> Seq<Seq<char>>
    decreases ps.len(),
{
    if ps.len() == 0 {
        seq![]
    } else if path_components(ps.last()) == c {
        paths_with(ps.drop_last(), c).push(ps.last())
    } else {
        paths_with(ps.drop_last(), c)
    }
}

proof fn lemma_paths_with_push(ps: Seq<Seq<char>>, p: Seq<char>, c: Seq<Seq<char>>)
    ensures
        paths_with(ps.push(p), c) == if path_components(p) == c {
            paths_with(ps, c).push(p)
        } else {
            paths_with(ps, c)
        },
{
    assert(ps.push(p).drop_last() =~= ps);
}

proof fn lemma_paths_with_concat(a: Seq<Seq<char>>, b: Seq<Seq<char>>, c: Seq<Seq<char>>)
    ensures
        paths_with(a + b, c) == paths_with(a, c) + paths_with(b, c),
    decreases b.len(),
{
    if b.len() == 0 {
        assert(a + b =~= a);
        assert(paths_with(a, c) + paths_with(b, c) =~= paths_with(a, c));
    } else {
        lemma_paths_with_concat(a, b.drop_last(), c);
        assert((a + b).drop_last() =~= a + b.drop_last());
        assert((a + b).last() == b.last());
        if path_components(b.last()) == c {
            assert(paths_with(a, c) + paths_with(b.drop_last(), c).push(b.last()) =~= (paths_with(a, c)
                + paths_with(b.drop_last(), c)).push(b.last()));
        }
    }
}

proof fn lemma_paths_with_none(ps: Seq<Seq<char>>, c: Seq<Seq<char>>)
    requires
        forall|m: int| 0 <= m < ps.len() ==> path_components(#[trigger] ps[m]) != c,
    ensures
        paths_with(ps, c) == Seq::<Seq<char>>::empty(),
    decreases ps.len(),
{
    if ps.len() > 0 {
        let t = ps.drop_last();
        assert forall|m: int| 0 <= m < t.len() implies path_components(#[trigger] t[m]) != c by {
            assert(t[m] == ps[m]);
        }
        lemma_paths_with_none(t, c);
    }
}

/// Insert `p` into the sorted `sorted` after every path that does not sort
/// after it.
fn insert_sorted(sorted: &mut Vec<String>, p: String)
    requires
        sorted_paths(old(sorted).deep_view()),
    ensures
        sorted_paths(final(sorted).deep_view()),
        final(sorted).deep_view().to_multiset() == old(sorted).deep_view().to_multiset().insert(p@),
        forall|c: Seq<Seq<char>>|
            #[trigger] paths_with(final(sorted).deep_view(), c) == paths_with(
                old(sorted).deep_view().push(p@),
                c,
            ),
{
    let ghost s0 = sorted.deep_view();
    let mut k: usize = 0;
    while k < sorted.len() && !path_less(p.as_str(), sorted[k].as_str())
        invariant
            s0 == sorted.deep_view(),
            0 <= k <= sorted.len(),
            forall|m: int| 0 <= m < k ==> !path_lt(p@, #[trigger] s0[m]),
        decreases sorted.len() - k,
    {
        assert(s0[k as int] == sorted@[k as int]@);
        k = k + 1;
    }
    proof {
        if k < sorted.len() {
            assert(s0[k as int] == sorted@[k as int]@);
            assert(path_lt(p@, s0[k as int]));
        }
    }
    let ghost pv = p@;
    sorted.insert(k, p);
    let ghost s1 = sorted.deep_view();
    assert(s1 =~= s0.insert(k as int, pv));
    proof {
        to_multiset_insert(s0, k as int, pv);
        assert forall|i: int, j: int| 0 <= i < j < s1.len() implies !path_lt(s1[j], s1[i]) by {
            if i < k && j == k {
                assert(s1[i] == s0[i]);
            } else if i == k && j > k {
                assert(s1[j] == s0[j - 1]);
                if path_lt(s0[j - 1], pv) {
                    if j - 1 > k {
                        assert(!path_lt(s0[j - 1], s0[k as int]));
                    }
                    lemma_comps_lt_transitive(
                        path_components(s0[j - 1]),
                        path_components(pv),
                        path_components(s0[k as int]),
                    );
                    if j - 1 == k {
                        assert(path_lt(s0[k as int], s0[k as int]));
                    }
                    assert(false) by {
                        if j - 1 == k {
                            lemma_comps_lt_irreflexive(path_components(s0[k as int]));
                        }
                    }
                }
            } else if i < k && j > k {
                assert(s1[i] == s0[i] && s1[j] == s0[j - 1]);
            } else if j < k {
                assert(s1[i] == s0[i] && s1[j] == s0[j]);
            } else {
                assert(s1[i] == s0[i - 1] && s1[j] == s0[j - 1]);
            }
        }
        let head = s0.take(k as int);
        let tail = s0.skip(k as int);
        assert(s0 =~= head + tail);
        assert(s1 =~= head.push(pv) + tail);
        assert forall|c: Seq<Seq<char>>| #[trigger] paths_with(s1, c) == paths_with(s0.push(pv), c) by {
            lemma_paths_with_concat(head.push(pv), tail, c);
            lemma_paths_with_concat(head, tail, c);
            lemma_paths_with_push(head, pv, c);
            lemma_paths_with_push(s0, pv, c);
            if path_components(pv) == c {
                assert forall|m: int| 0 <= m < tail.len() implies path_components(#[trigger] tail[m])
                    != c by {
                    assert(tail[m] == s0[k + m]);
                    if path_components(s0[k + m]) == c {
                        assert(path_lt(pv, s0[k as int]));
                        if m == 0 {
                            lemma_comps_lt_irreflexive(c);
                        } else {
                            assert(!path_lt(s0[k + m], s0[k as int]));
                        }
                    }
                }
                lemma_paths_with_none(tail, c);
                assert(paths_with(s0, c) =~= paths_with(head, c));
                assert(paths_with(s1, c) =~= paths_with(head, c).push(pv));
            } else {
                assert(paths_with(s1, c) =~= paths_with(head, c) + paths_with(tail, c));
            }
        }
    }
}

pub proof fn lemma_comps_lt_irreflexive(a: Seq<Seq<char>>)
    ensures
        !comps_lt(a, a),
    decreases a.len(),
{
    if a.len() > 0 {
        lemma_comps_lt_irreflexive(a.drop_first());
    }
}

/// Add to `out` the paths of the children of a versions directory that are
/// safe to reclaim (every child except the newest `keep` of each group), and
/// sort all of `out` as paths sort. The sort is stable: paths that sort as
/// equal keep the order they had, `out` first, then the children in listing
/// order.
pub fn stale_versions(children: &Vec<Version>, keep: usize, out: &mut Vec<String>)
    ensures
        sorted_paths(final(out).deep_view()),
        final(out).deep_view().to_multiset() == (old(out).deep_view() + stale_paths(
            children@,
            keep as nat,
            children.len() as int,
        )).to_multiset(),
        forall|c: Seq<Seq<char>>|
            #[trigger] paths_with(final(out).deep_view(), c) == paths_with(
                old(out).deep_view() + stale_paths(children@, keep as nat, children.len() as int),
                c,
            ),
{
    let ghost start = out.deep_view();
    let mut res: Vec<String> = Vec::new();
    let mut i: usize = 0;
    assert(res.deep_view().to_multiset() =~= start.take(0).to_multiset()) by {
        assert(res.deep_view() =~= Seq::<Seq<char>>::empty());
        assert(start.take(0) =~= Seq::<Seq<char>>::empty());
    }
    while i < out.len()
        invariant
            start == out.deep_view(),
            0 <= i <= out.len(),
            sorted_paths(res.deep_view()),
            res.deep_view().to_multiset() == start.take(i as int).to_multiset(),
            forall|c: Seq<Seq<char>>|
                #[trigger] paths_with(res.deep_view(), c) == paths_with(start.take(i as int), c),
        decreases out.len() - i,
    {
        let ghost before = res.deep_view();
        insert_sorted(&mut res, out[i].clone());
        proof {
            assert(start.take(i as int + 1) =~= start.take(i as int).push(out@[i as int]@));
            vstd::seq_lib::to_multiset_build(start.take(i as int), out@[i as int]@);
            assert forall|c: Seq<Seq<char>>|
                #[trigger] paths_with(res.deep_view(), c) == paths_with(start.take(i as int + 1), c) by {
                lemma_paths_with_push(before, out@[i as int]@, c);
                lemma_paths_with_push(start.take(i as int), out@[i as int]@, c);
            }
        }
        i = i + 1;
    }
    assert(start.take(out.len() as int) =~= start);
    let mut c: usize = 0;
    while c < children.len()
        invariant
            sorted_paths(res.deep_view()),
            0 <= c <= children.len(),
            res.deep_view().to_multiset() == (start + stale_paths(children@, keep as nat, c as int)).to_multiset(),
            forall|cs: Seq<Seq<char>>|
                #[trigger] paths_with(res.deep_view(), cs) == paths_with(
                    start + stale_paths(children@, keep as nat, c as int),
                    cs,
                ),
        decreases children.len() - c,
    {
        let n = count_ahead(children, c);
        if n >= keep {
            let ghost before = res.deep_view();
            insert_sorted(&mut res, children[c].path.clone());
            proof {
                let sp = stale_paths(children@, keep as nat, c as int);
                assert(stale_paths(children@, keep as nat, c as int + 1) == sp.push(children@[c as int].path@));
                assert(start + sp.push(children@[c as int].path@) =~= (start + sp).push(children@[c as int].path@));
                vstd::seq_lib::to_multiset_build(start + sp, children@[c as int].path@);
                assert forall|cs: Seq<Seq<char>>|
                    #[trigger] paths_with(res.deep_view(), cs) == paths_with(
                        start + stale_paths(children@, keep as nat, c as int + 1),
                        cs,
                    ) by {
                    lemma_paths_with_push(before, children@[c as int].path@, cs);
                    lemma_paths_with_push(start + sp, children@[c as int].path@, cs);
                }
            }
        }
        c = c + 1;
    }
    *out = res;
}

/// How many of the first `n` children belong to group `g`.
pub open spec fn group_size(vs: Seq<Version>, g: Seq<char>, n: int) -> nat
    decreases n,
{
    if n <= 0 {
        0
    } else {
        group_size(vs, g, n - 1) + if vs[n - 1].group@ == g {
            1nat
        } else {
            0nat
        }
    }
}

proof fn lemma_ahead_within_group(vs: Seq<Version>, i: int, n: int)
    requires
        0 <= i < vs.len(),
        0 <= n <= vs.len(),
    ensures
        ahead_count(vs, i, n) + (if i < n {
            1nat
        } else {
            0nat
        }) <= group_size(vs, vs[i].group@, n),
    decreases n,
{
    if n > 0 {
        lemma_ahead_within_group(vs, i, n - 1);
        if n - 1 == i {
            lemma_str_lt_irreflexive(vs[i].name@);
        }
    }
}

/// Within a group, a later install comes first whatever the names: a child
/// with a later mtime is ahead of one with an earlier mtime, and never behind
/// it. Names only order children with equal mtimes.
pub proof fn lemma_later_mtime_ahead(vs: Seq<Version>, j: int, i: int)
    requires
        0 <= j < vs.len(),
        0 <= i < vs.len(),
        vs[j].group@ == vs[i].group@,
        vs[j].mtime > vs[i].mtime,
    ensures
        ahead(vs, j, i),
        !ahead(vs, i, j),
{
}

proof fn lemma_none_ahead(vs: Seq<Version>, i: int, n: int)
    requires
        0 <= i < vs.len(),
        0 <= n <= vs.len(),
        forall|j: int|
            0 <= j < vs.len() && j != i && (#[trigger] vs[j]).group@ == vs[i].group@ ==> vs[j].mtime
                < vs[i].mtime,
    ensures
        ahead_count(vs, i, n) == 0,
    decreases n,
{
    if n > 0 {
        lemma_none_ahead(vs, i, n - 1);
        if n - 1 == i {
            lemma_str_lt_irreflexive(vs[i].name@);
        } else {
            assert(vs[n - 1].group@ == vs[i].group@ ==> vs[n - 1].mtime < vs[i].mtime);
        }
    }
}

proof fn lemma_one_ahead(vs: Seq<Version>, i: int, j: int, n: int)
    requires
        0 <= i < vs.len(),
        0 <= j < n <= vs.len(),
        ahead(vs, j, i),
    ensures
        ahead_count(vs, i, n) >= 1,
    decreases n,
{
    if j < n - 1 {
        lemma_one_ahead(vs, i, j, n - 1);
    }
}

/// The install with the latest mtime of its group is never reclaimed while
/// at least one is kept, whatever the names.
pub proof fn lemma_latest_install_kept(vs: Seq<Version>, i: int, keep: nat)
    requires
        0 <= i < vs.len(),
        keep >= 1,
        forall|j: int|
            0 <= j < vs.len() && j != i && (#[trigger] vs[j]).group@ == vs[i].group@ ==> vs[j].mtime
                < vs[i].mtime,
    ensures
        !is_stale(vs, i, keep),
        !stale_paths(vs, keep, vs.len() as int).contains(vs[i].path@) || exists|j: int|
            0 <= j < vs.len() && j != i && (#[trigger] vs[j]).path@ == vs[i].path@,
{
    lemma_none_ahead(vs, i, vs.len() as int);
    lemma_stale_paths_members(vs, keep, vs.len() as int);
}

/// Keeping one per group, an install with a later one in its group is
/// reclaimed, whatever the names.
pub proof fn lemma_older_install_reclaimed(vs: Seq<Version>, i: int, j: int)
    requires
        0 <= i < vs.len(),
        0 <= j < vs.len(),
        vs[j].group@ == vs[i].group@,
        vs[j].mtime > vs[i].mtime,
    ensures
        is_stale(vs, i, 1),
        stale_paths(vs, 1, vs.len() as int).contains(vs[i].path@),
{
    lemma_one_ahead(vs, i, j, vs.len() as int);
    lemma_stale_paths_members(vs, 1, vs.len() as int);
}

/// The stale paths among the first `n` children are the paths of the stale
/// children among them.
proof fn lemma_stale_paths_members(vs: Seq<Version>, keep: nat, n: int)
    requires
        0 <= n <= vs.len(),
    ensures
        forall|k: int|
            0 <= k < n && is_stale(vs, k, keep) ==> stale_paths(vs, keep, n).contains(
                (#[trigger] vs[k]).path@,
            ),
        forall|p: Seq<char>|
            #[trigger] stale_paths(vs, keep, n).contains(p) ==> exists|k: int|
                0 <= k < n && is_stale(vs, k, keep) && (#[trigger] vs[k]).path@ == p,
    decreases n,
{
    if n > 0 {
        lemma_stale_paths_members(vs, keep, n - 1);
        let prev = stale_paths(vs, keep, n - 1);
        let cur = stale_paths(vs, keep, n);
        assert forall|k: int|
            0 <= k < n && is_stale(vs, k, keep) implies cur.contains((#[trigger] vs[k]).path@) by {
            if k < n - 1 {
                let idx = choose|idx: int| 0 <= idx < prev.len() && prev[idx] == vs[k].path@;
                if is_stale(vs, n - 1, keep) {
                    assert(cur[idx] == prev[idx]);
                }
            } else {
                assert(cur[prev.len() as int] == vs[k].path@);
            }
        }
        assert forall|p: Seq<char>| #[trigger] cur.contains(p) implies exists|k: int|
            0 <= k < n && is_stale(vs, k, keep) && (#[trigger] vs[k]).path@ == p by {
            let idx = choose|idx: int| 0 <= idx < cur.len() && cur[idx] == p;
            if idx < prev.len() {
                assert(prev[idx] == cur[idx]);
                assert(prev.contains(p));
            } else {
                assert(vs[n - 1].path@ == p);
            }
        }
    }
}

/// A group with no more than `keep` children keeps all of them.
pub proof fn lemma_small_group_kept(vs: Seq<Version>, i: int, keep: nat)
    requires
        0 <= i < vs.len(),
        group_size(vs, vs[i].group@, vs.len() as int) <= keep,
    ensures
        !is_stale(vs, i, keep),
{
    lemma_ahead_within_group(vs, i, vs.len() as int);
}

/// Keeping nothing reclaims every child.
pub proof fn lemma_keep_none_reclaims_all(vs: Seq<Version>, i: int)
    requires
        0 <= i < vs.len(),
    ensures
        is_stale(vs, i, 0),
{
}

} // verus!
