//! Unix path components, modelled on plain character sequences.
//!
//! A path is split at `/` separators. Empty pieces (repeated or trailing
//! separators) and `.` pieces are normalised away, except that a relative path
//! that starts with `.` keeps a leading current-directory component. A leading
//! `/` is the root component. Components are encoded as character sequences:
//! the root is `"/"`, the current directory `"."`, the parent `".."`, and every
//! other component is its name (which never contains `/` and is never `.`).
//! Two paths are equal, and one starts with another, by these components.
use vstd::prelude::*;

verus! {

/// The encoding of the root component.
pub open spec fn root_comp() -> Seq<char> {
    seq!['/']
}

/// The encoding of the leading current-directory component.
pub open spec fn cur_comp() -> Seq<char> {
    seq!['.']
}

/// The encoding of a parent-directory component.
pub open spec fn parent_comp() -> Seq<char> {
    seq!['.', '.']
}

/// Index of the last separator in `s`, or -1 when there is none.
pub open spec fn last_sep(s: Seq<char>) -> int
    decreases s.len(),
{
    if s.len() == 0 {
        -1
    } else if s.last() == '/' {
        s.len() - 1
    } else {
        last_sep(s.drop_last())
    }
}

pub proof fn lemma_last_sep_bounds(s: Seq<char>)
    ensures
        -1 <= last_sep(s) < s.len(),
        last_sep(s) >= 0 ==> s[last_sep(s)] == '/',
        forall|k: int| last_sep(s) < k < s.len() ==> s[k] != '/',
    decreases s.len(),
{
    if s.len() > 0 && s.last() != '/' {
        let t = s.drop_last();
        lemma_last_sep_bounds(t);
        assert forall|k: int| last_sep(s) < k < s.len() implies s[k] != '/' by {
            if k < t.len() {
                assert(s[k] == t[k]);
            }
        }
    }
}

/// A piece between separators survives normalisation unless it is empty or `.`.
pub open spec fn kept(piece: Seq<char>) -> bool {
    piece.len() > 0 && piece != cur_comp()
}

/// The components after the leading root or current-directory component:
/// every separator-delimited piece of `s` that is neither empty nor `.`.
pub open spec fn body_components(s: Seq<char>) -> Seq<Seq<char>>
    decreases s.len(),
{
    if s.len() == 0 {
        seq![]
    } else {
        let j = last_sep(s);
        let piece = s.subrange(j + 1, s.len() as int);
        let init = if j >= 0 {
            proof {
                lemma_last_sep_bounds(s);
            }
            body_components(s.take(j))
        } else {
            seq![]
        };
        if kept(piece) {
            init.push(piece)
        } else {
            init
        }
    }
}

/// The path starts at the filesystem root.
pub open spec fn has_root(s: Seq<char>) -> bool {
    s.len() > 0 && s[0] == '/'
}

/// A relative path that begins with a `.` piece keeps it as its first component.
pub open spec fn has_cur_dir(s: Seq<char>) -> bool {
    !has_root(s) && s.len() > 0 && s[0] == '.' && (s.len() == 1 || s[1] == '/')
}

/// The leading component, if any.
pub open spec fn lead_components(s: Seq<char>) -> Seq<Seq<char>> {
    if has_root(s) {
        seq![root_comp()]
    } else if has_cur_dir(s) {
        seq![cur_comp()]
    } else {
        seq![]
    }
}

/// The components of the path `s`.
pub open spec fn path_components(s: Seq<char>) -> Seq<Seq<char>> {
    lead_components(s) + body_components(s)
}

/// A component that names a directory entry (not root, `.` or `..`).
pub open spec fn is_normal(c: Seq<char>) -> bool {
    c != root_comp() && c != cur_comp() && c != parent_comp()
}

/// Number of named components.
pub open spec fn normal_count(cs: Seq<Seq<char>>) -> nat
    decreases cs.len(),
{
    if cs.len() == 0 {
        0
    } else {
        normal_count(cs.drop_last()) + if is_normal(cs.last()) {
            1nat
        } else {
            0nat
        }
    }
}

/// `prefix` is a component-wise prefix of `cs`.
pub open spec fn is_prefix(prefix: Seq<Seq<char>>, cs: Seq<Seq<char>>) -> bool {
    prefix.len() <= cs.len() && cs.take(prefix.len() as int) == prefix
}

/// The components joined back into a path string.
pub open spec fn join_pieces(cs: Seq<Seq<char>>) -> Seq<char>
    decreases cs.len(),
{
    if cs.len() == 0 {
        seq![]
    } else if cs.len() == 1 {
        cs[0]
    } else {
        join_pieces(cs.drop_last()) + seq!['/'] + cs.last()
    }
}

/// A path string whose components are `cs` (for `cs` that came from a path).
pub open spec fn render(cs: Seq<Seq<char>>) -> Seq<char> {
    if cs.len() > 0 && cs[0] == root_comp() {
        seq!['/'] + join_pieces(cs.skip(1))
    } else {
        join_pieces(cs)
    }
}

/// The body components of `s` when its last separator-free stretch starts at `start`.
pub proof fn lemma_body_split(s: Seq<char>, start: int)
    requires
        0 <= start <= s.len(),
        start == 0 || s[start - 1] == '/',
        forall|k: int| start <= k < s.len() ==> s[k] != '/',
    ensures
        last_sep(s) == start - 1,
        body_components(s) == (if start == 0 {
            seq![]
        } else {
            body_components(s.take(start - 1))
        }) + (if kept(s.skip(start)) {
            seq![s.skip(start)]
        } else {
            seq![]
        }),
    decreases s.len(),
{
    if s.len() > start {
        assert(s.last() != '/');
        let t = s.drop_last();
        assert forall|k: int| start <= k < t.len() implies t[k] != '/' by {
            assert(t[k] == s[k]);
        }
        lemma_body_split(t, start);
    }
    if s.len() == 0 {
        assert(s.skip(start) =~= seq![]);
    } else {
        assert(s.subrange(start, s.len() as int) =~= s.skip(start));
    }
}

/// Splitting a path string into its components.
pub fn components(p: &str) -> (res: Vec<String>)
    ensures
        res.deep_view() =~= path_components(p@),
{
    let n = p.unicode_len();
    let mut out: Vec<String> = Vec::new();
    if n > 0 {
        let c0 = p.get_char(0);
        if c0 == '/' {
            out.push(String::from_str("/"));
            proof {
                reveal_strlit("/");
                assert(out@[0]@ =~= root_comp());
                assert(out.deep_view() =~= seq![out@[0]@]);
            }
        } else if c0 == '.' && (n == 1 || p.get_char(1) == '/') {
            out.push(String::from_str("."));
            proof {
                reveal_strlit(".");
                assert(out@[0]@ =~= cur_comp());
                assert(out.deep_view() =~= seq![out@[0]@]);
            }
        }
    }
    let ghost lead = out.deep_view();
    assert(lead =~= lead_components(p@));
    let mut start: usize = 0;
    let mut i: usize = 0;
    while i < n
        invariant
            n == p@.len(),
            0 <= start <= i <= n,
            start == 0 || p@[start - 1] == '/',
            forall|k: int| start <= k < i ==> p@[k] != '/',
            lead == lead_components(p@),
            out.deep_view() =~= lead + (if start == 0 {
                seq![]
            } else {
                body_components(p@.take(start - 1))
            }),
        decreases n - i,
    {
        let c = p.get_char(i);
        if c == '/' {
            let ghost s = p@.take(i as int);
            proof {
                lemma_body_split(s, start as int);
                if start > 0 {
                    assert(s.take(start - 1) =~= p@.take(start - 1));
                }
                assert(s.skip(start as int) =~= p@.subrange(start as int, i as int));
            }
            let keep = i > start && !(i == start + 1 && p.get_char(start) == '.');
            if keep {
                let piece = p.substring_char(start, i);
                assert(piece@ != cur_comp()) by {
                    if i == start + 1 {
                        assert(piece@[0] == p@[start as int]);
                    } else {
                        assert(piece@.len() != 1);
                    }
                }
                let ghost before = out.deep_view();
                out.push(String::from_str(piece));
                assert(out.deep_view() =~= before.push(piece@));
            } else {
                assert(!kept(p@.subrange(start as int, i as int))) by {
                    if i == start + 1 {
                        assert(p@.subrange(start as int, i as int) =~= seq!['.']);
                    }
                }
            }
            start = i + 1;
        }
        i = i + 1;
    }
    proof {
        lemma_body_split(p@, start as int);
        assert(p@.skip(start as int) =~= p@.subrange(start as int, n as int));
    }
    let keep = n > start && !(n == start + 1 && p.get_char(start) == '.');
    if keep {
        let piece = p.substring_char(start, n);
        assert(piece@ != cur_comp()) by {
            if n == start + 1 {
                assert(piece@[0] == p@[start as int]);
            } else {
                assert(piece@.len() != 1);
            }
        }
        let ghost before = out.deep_view();
        out.push(String::from_str(piece));
        assert(out.deep_view() =~= before.push(piece@));
    } else {
        assert(!kept(p@.subrange(start as int, n as int))) by {
            if n == start + 1 {
                assert(p@.subrange(start as int, n as int) =~= seq!['.']);
            }
        }
    }
    out
}

/// Is this component a name (not the root, `.` or `..`)?
pub fn component_is_normal(c: &String) -> (res: bool)
    ensures
        res == is_normal(c@),
{
    let n = c.as_str().unicode_len();
    if n == 1 {
        let c0 = c.as_str().get_char(0);
        assert(c0 == '/' ==> c@ =~= root_comp());
        assert(c0 == '.' ==> c@ =~= cur_comp());
        c0 != '/' && c0 != '.'
    } else if n == 2 {
        let c0 = c.as_str().get_char(0);
        let c1 = c.as_str().get_char(1);
        assert(c0 == '.' && c1 == '.' ==> c@ =~= parent_comp());
        !(c0 == '.' && c1 == '.')
    } else {
        true
    }
}

/// Number of named components in `cs`.
pub fn count_normal(cs: &Vec<String>) -> (res: usize)
    ensures
        res == normal_count(cs.deep_view()),
{
    let mut count: usize = 0;
    let mut i: usize = 0;
    while i < cs.len()
        invariant
            0 <= i <= cs.len(),
            count == normal_count(cs.deep_view().take(i as int)),
            count <= i,
        decreases cs.len() - i,
    {
        let ghost t = cs.deep_view().take(i as int + 1);
        assert(t.drop_last() =~= cs.deep_view().take(i as int));
        assert(t.last() == cs@[i as int]@);
        if component_is_normal(&cs[i]) {
            count = count + 1;
        }
        i = i + 1;
    }
    assert(cs.deep_view().take(cs.len() as int) =~= cs.deep_view());
    count
}

/// Does `cs` start with the components `prefix`?
pub fn starts_with(cs: &Vec<String>, prefix: &Vec<String>) -> (res: bool)
    ensures
        res == is_prefix(prefix.deep_view(), cs.deep_view()),
{
    if prefix.len() > cs.len() {
        return false;
    }
    let mut i: usize = 0;
    while i < prefix.len()
        invariant
            prefix.len() <= cs.len(),
            0 <= i <= prefix.len(),
            forall|k: int| 0 <= k < i ==> cs@[k]@ == prefix@[k]@,
        decreases prefix.len() - i,
    {
        if cs[i] != prefix[i] {
            assert(cs.deep_view().take(prefix.len() as int)[i as int] != prefix.deep_view()[i as int]);
            return false;
        }
        i = i + 1;
    }
    assert(cs.deep_view().take(prefix.len() as int) =~= prefix.deep_view());
    true
}

/// Are `a` and `b` the same components?
pub fn same_components(a: &Vec<String>, b: &Vec<String>) -> (res: bool)
    ensures
        res == (a.deep_view() == b.deep_view()),
{
    if a.len() != b.len() {
        assert(a.deep_view().len() != b.deep_view().len());
        return false;
    }
    let r = starts_with(a, b);
    assert(a.deep_view().take(b.len() as int) =~= a.deep_view());
    r
}

/// The path string whose components are `cs`.
pub fn render_components(cs: &Vec<String>) -> (res: String)
    ensures
        res@ == render(cs.deep_view()),
{
    let ghost dv = cs.deep_view();
    let mut out = String::new();
    let mut first: usize = 0;
    proof {
        reveal_strlit("/");
        assert("/"@ =~= root_comp());
    }
    if cs.len() > 0 && cs[0] == String::from_str("/") {
        out.append("/");
        first = 1;
    }
    let ghost lead: Seq<char> = out@;
    assert(lead == (if first == 1 { seq!['/'] } else { Seq::<char>::empty() }));
    let mut i: usize = first;
    while i < cs.len()
        invariant
            dv == cs.deep_view(),
            first <= i <= cs.len(),
            first == 0 || first == 1,
            first == 1 ==> cs.len() > 0 && dv[0] == root_comp(),
            first == 0 ==> !(cs.len() > 0 && dv[0] == root_comp()),
            lead == (if first == 1 { seq!['/'] } else { Seq::<char>::empty() }),
            out@ == lead + join_pieces(dv.subrange(first as int, i as int)),
        decreases cs.len() - i,
    {
        let ghost prev = dv.subrange(first as int, i as int);
        let ghost next = dv.subrange(first as int, i as int + 1);
        assert(next.drop_last() =~= prev);
        assert(next.last() == cs@[i as int]@);
        proof {
            reveal_strlit("/");
            assert("/"@ =~= seq!['/']);
        }
        if i > first {
            out.append("/");
        }
        out.append(cs[i].as_str());
        proof {
            if i > first {
                assert(out@ =~= lead + (join_pieces(prev) + seq!['/'] + next.last()));
            } else {
                assert(prev.len() == 0);
                assert(out@ =~= lead + next.last());
            }
        }
        i = i + 1;
    }
    proof {
        if first == 1 {
            assert(dv.subrange(1, dv.len() as int) =~= dv.skip(1));
        } else {
            assert(dv.subrange(0, dv.len() as int) =~= dv);
        }
    }
    out
}

/// Append one component.
pub fn push_component(cs: &mut Vec<String>, c: String)
    ensures
        final(cs).deep_view() == old(cs).deep_view().push(c@),
{
    let ghost before = cs.deep_view();
    let ghost cv = c@;
    cs.push(c);
    assert(cs.deep_view() =~= before.push(cv));
}

/// The components of the filesystem root.
pub fn root_components() -> (res: Vec<String>)
    ensures
        res.deep_view() == seq![root_comp()],
{
    let mut res: Vec<String> = Vec::new();
    proof {
        reveal_strlit("/");
        assert("/"@ =~= root_comp());
    }
    push_component(&mut res, String::from_str("/"));
    assert(res.deep_view() =~= seq![root_comp()]);
    res
}

/// Joining two paths at a separator joins their body components.
pub proof fn lemma_body_concat(x: Seq<char>, y: Seq<char>)
    ensures
        body_components(x + seq!['/'] + y) == body_components(x) + body_components(y),
    decreases y.len(),
{
    let s = x + seq!['/'] + y;
    lemma_last_sep_bounds(y);
    let j = last_sep(y);
    if j < 0 {
        assert forall|k: int| x.len() + 1 <= k < s.len() implies s[k] != '/' by {
            assert(s[k] == y[k - x.len() - 1]);
        }
        lemma_body_split(s, x.len() as int + 1);
        lemma_body_split(y, 0);
        assert(s.take(x.len() as int) =~= x);
        assert(s.skip(x.len() as int + 1) =~= y);
        assert(y.skip(0) =~= y);
    } else {
        let y1 = y.take(j);
        let y2 = y.skip(j + 1);
        lemma_body_split(y, j + 1);
        let start = x.len() + 1 + j + 1;
        assert forall|k: int| start <= k < s.len() implies s[k] != '/' by {
            assert(s[k] == y[k - x.len() - 1]);
        }
        assert(s[start - 1] == y[j]);
        lemma_body_split(s, start);
        assert(s.take(start - 1) =~= x + seq!['/'] + y1);
        assert(s.skip(start) =~= y2);
        lemma_body_concat(x, y1);
    }
}

/// A path whose last character is neither `/` nor `.` ends in a named component.
pub proof fn lemma_body_ends_named(s: Seq<char>)
    requires
        s.len() > 0,
        s.last() != '/',
        s.last() != '.',
    ensures
        body_components(s).len() > 0,
        is_normal(body_components(s).last()),
{
    lemma_last_sep_bounds(s);
    let j = last_sep(s);
    let piece = s.subrange(j + 1, s.len() as int);
    assert(piece.last() == s.last());
    assert(piece != cur_comp());
    assert(piece != parent_comp());
    assert(piece != root_comp());
}

/// `PathBuf::push` on Unix: an absolute `rel` replaces `base`; otherwise
/// `rel` is appended, with a separator when `base` is non-empty and does not
/// already end in one.
pub open spec fn spec_join(base: Seq<char>, rel: Seq<char>) -> Seq<char> {
    if has_root(rel) {
        rel
    } else if base.len() > 0 && base.last() != '/' {
        base + seq!['/'] + rel
    } else {
        base + rel
    }
}

/// `base` joined with `rel`, as `PathBuf::push` does it.
pub fn join(base: &str, rel: &str) -> (res: String)
    ensures
        res@ == spec_join(base@, rel@),
{
    let rel_len = rel.unicode_len();
    if rel_len > 0 && rel.get_char(0) == '/' {
        return String::from_str(rel);
    }
    let base_len = base.unicode_len();
    let mut p = String::from_str(base);
    if base_len > 0 && base.get_char(base_len - 1) != '/' {
        proof {
            reveal_strlit("/");
            assert("/"@ =~= seq!['/']);
        }
        p.append("/");
    }
    p.append(rel);
    p
}

/// Pushing a relative path onto a non-empty base appends the relative path's
/// named pieces to the base's components.
pub proof fn lemma_join_components(base: Seq<char>, rel: Seq<char>)
    requires
        base.len() > 0,
        !has_root(rel),
    ensures
        path_components(spec_join(base, rel)) == path_components(base) + body_components(rel),
{
    let s = spec_join(base, rel);
    if base.last() != '/' {
        lemma_body_concat(base, rel);
        assert(s[0] == base[0]);
        if base.len() == 1 {
            assert(s[1] == '/');
        } else {
            assert(s[1] == base[1]);
        }
        assert(lead_components(s) == lead_components(base));
    } else {
        let b = base.drop_last();
        assert(s =~= b + seq!['/'] + rel);
        lemma_body_concat(b, rel);
        assert(base =~= b + seq!['/'] + Seq::<char>::empty());
        lemma_body_concat(b, Seq::<char>::empty());
        assert(body_components(Seq::<char>::empty()) =~= Seq::<Seq<char>>::empty());
        assert(s[0] == base[0]);
        if base.len() > 1 {
            assert(s[1] == base[1]);
        }
        assert(lead_components(s) == lead_components(base));
    }
    assert(path_components(s) =~= path_components(base) + body_components(rel));
}

/// Add one component as the filesystem resolves it: `.` changes nothing, `..`
/// steps back over the previous name (and stays at the root), anything else is
/// appended; a `..` with no name before it is kept.
pub open spec fn push_resolved(acc: Seq<Seq<char>>, c: Seq<char>) -> Seq<Seq<char>> {
    if c == cur_comp() {
        acc
    } else if c == parent_comp() {
        if acc.len() > 0 && is_normal(acc.last()) {
            acc.drop_last()
        } else if acc.len() > 0 && acc.last() == root_comp() {
            acc
        } else {
            acc.push(c)
        }
    } else {
        acc.push(c)
    }
}

/// Add the components `cs`, in order, onto `acc` as the filesystem resolves them.
pub open spec fn fold_resolved(acc: Seq<Seq<char>>, cs: Seq<Seq<char>>) -> Seq<Seq<char>>
    decreases cs.len(),
{
    if cs.len() == 0 {
        acc
    } else {
        fold_resolved(push_resolved(acc, cs[0]), cs.drop_first())
    }
}

/// The components with `.` removed and every `..` that follows a name
/// cancelled against it.
pub open spec fn normalized(cs: Seq<Seq<char>>) -> Seq<Seq<char>> {
    fold_resolved(seq![], cs)
}

/// Which kind of component `c` is: 0 root, 1 `.`, 2 `..`, 3 a name.
pub fn component_kind(c: &String) -> (res: u8)
    ensures
        res == 0 <==> c@ == root_comp(),
        res == 1 <==> c@ == cur_comp(),
        res == 2 <==> c@ == parent_comp(),
        res == 3 <==> is_normal(c@),
        res <= 3,
{
    let n = c.as_str().unicode_len();
    if n == 1 {
        let c0 = c.as_str().get_char(0);
        if c0 == '/' {
            assert(c@ =~= root_comp());
            return 0;
        }
        if c0 == '.' {
            assert(c@ =~= cur_comp());
            return 1;
        }
        assert(c@ != root_comp() && c@ != cur_comp() && c@ != parent_comp());
        return 3;
    }
    if n == 2 && c.as_str().get_char(0) == '.' && c.as_str().get_char(1) == '.' {
        assert(c@ =~= parent_comp());
        return 2;
    }
    assert(c@ != root_comp() && c@ != cur_comp() && c@ != parent_comp()) by {
        if n == 2 {
            assert(!(c@[0] == '.' && c@[1] == '.'));
        }
    }
    3
}

/// `acc` with the components `cs[start..]` added as the filesystem resolves them.
pub fn fold_components(acc: Vec<String>, cs: &Vec<String>, start: usize) -> (res: Vec<String>)
    requires
        start <= cs.len(),
    ensures
        res.deep_view() == fold_resolved(acc.deep_view(), cs.deep_view().skip(start as int)),
{
    let ghost dv = cs.deep_view();
    let ghost goal = fold_resolved(acc.deep_view(), dv.skip(start as int));
    let mut cur = acc;
    let mut j = start;
    while j < cs.len()
        invariant
            dv == cs.deep_view(),
            start <= j <= cs.len(),
            goal == fold_resolved(cur.deep_view(), dv.skip(j as int)),
        decreases cs.len() - j,
    {
        let ghost before = cur.deep_view();
        let ghost rest = dv.skip(j as int);
        assert(rest[0] == cs@[j as int]@);
        assert(rest.drop_first() =~= dv.skip(j as int + 1));
        let k = component_kind(&cs[j]);
        if k == 1 {
        } else if k == 2 {
            let n = cur.len();
            if n > 0 && component_kind(&cur[n - 1]) == 3 {
                assert(before.last() == cur@[n - 1]@);
                cur.pop();
                assert(cur.deep_view() =~= before.drop_last());
            } else if n > 0 && component_kind(&cur[n - 1]) == 0 {
                assert(before.last() == cur@[n - 1]@);
            } else {
                proof {
                    if n > 0 {
                        assert(before.last() == cur@[n - 1]@);
                    }
                }
                push_component(&mut cur, cs[j].clone());
            }
        } else {
            push_component(&mut cur, cs[j].clone());
        }
        assert(cur.deep_view() == push_resolved(before, rest[0]));
        j = j + 1;
    }
    assert(dv.skip(j as int).len() == 0);
    cur
}

/// The components of `cs`, normalized.
pub fn normalize_components(cs: &Vec<String>) -> (res: Vec<String>)
    ensures
        res.deep_view() == normalized(cs.deep_view()),
{
    let empty: Vec<String> = Vec::new();
    assert(empty.deep_view() =~= Seq::<Seq<char>>::empty());
    assert(cs.deep_view().skip(0) =~= cs.deep_view());
    fold_components(empty, cs, 0)
}

} // verus!
