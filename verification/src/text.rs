//! Small text utilities with exact specifications: Unicode whitespace,
//! trimming, decimal numbers.
use vstd::prelude::*;

verus! {

/// The characters with the Unicode `White_Space` property.
pub open spec fn is_ws(c: char) -> bool {
    let u = c as u32;
    ||| 0x9 <= u <= 0xD
    ||| u == 0x20
    ||| u == 0x85
    ||| u == 0xA0
    ||| u == 0x1680
    ||| 0x2000 <= u <= 0x200A
    ||| u == 0x2028
    ||| u == 0x2029
    ||| u == 0x202F
    ||| u == 0x205F
    ||| u == 0x3000
}

/// Is `c` whitespace?
pub fn char_is_ws(c: char) -> (res: bool)
    ensures
        res == is_ws(c),
{
    let u = c as u32;
    (0x9 <= u && u <= 0xD) || u == 0x20 || u == 0x85 || u == 0xA0 || u == 0x1680 || (0x2000 <= u
        && u <= 0x200A) || u == 0x2028 || u == 0x2029 || u == 0x202F || u == 0x205F || u == 0x3000
}

/// `s` without leading whitespace.
pub open spec fn trim_start(s: Seq<char>) -> Seq<char>
    decreases s.len(),
{
    if s.len() > 0 && is_ws(s[0]) {
        trim_start(s.drop_first())
    } else {
        s
    }
}

/// `s` without trailing whitespace.
pub open spec fn trim_end(s: Seq<char>) -> Seq<char>
    decreases s.len(),
{
    if s.len() > 0 && is_ws(s.last()) {
        trim_end(s.drop_last())
    } else {
        s
    }
}

/// `s` without leading or trailing whitespace.
pub open spec fn trim(s: Seq<char>) -> Seq<char> {
    trim_end(trim_start(s))
}

proof fn lemma_trim_start_at(s: Seq<char>, i: int)
    requires
        0 <= i <= s.len(),
        forall|k: int| 0 <= k < i ==> is_ws(s[k]),
        i == s.len() || !is_ws(s[i]),
    ensures
        trim_start(s) == s.skip(i),
    decreases i,
{
    if i > 0 {
        let t = s.drop_first();
        assert forall|k: int| 0 <= k < i - 1 implies is_ws(t[k]) by {
            assert(t[k] == s[k + 1]);
        }
        lemma_trim_start_at(t, i - 1);
        assert(t.skip(i - 1) =~= s.skip(i));
    } else {
        assert(s.skip(0) =~= s);
    }
}

proof fn lemma_trim_end_at(s: Seq<char>, j: int)
    requires
        0 <= j <= s.len(),
        forall|k: int| j <= k < s.len() ==> is_ws(s[k]),
        j == 0 || !is_ws(s[j - 1]),
    ensures
        trim_end(s) == s.take(j),
    decreases s.len() - j,
{
    if j < s.len() {
        let t = s.drop_last();
        assert forall|k: int| j <= k < t.len() implies is_ws(t[k]) by {
            assert(t[k] == s[k]);
        }
        if j > 0 {
            assert(t[j - 1] == s[j - 1]);
        }
        lemma_trim_end_at(t, j);
        assert(t.take(j) =~= s.take(j));
    } else {
        assert(s.take(j) =~= s);
    }
}

/// `s` with leading and trailing whitespace removed.
pub fn trim_str(s: &str) -> (res: String)
    ensures
        res@ == trim(s@),
{
    let n = s.unicode_len();
    let mut i: usize = 0;
    while i < n && char_is_ws(s.get_char(i))
        invariant
            n == s@.len(),
            0 <= i <= n,
            forall|k: int| 0 <= k < i ==> is_ws(s@[k]),
        decreases n - i,
    {
        i = i + 1;
    }
    proof {
        lemma_trim_start_at(s@, i as int);
    }
    let ghost t = s@.skip(i as int);
    let mut j: usize = n;
    while j > i && char_is_ws(s.get_char(j - 1))
        invariant
            n == s@.len(),
            t == s@.skip(i as int),
            0 <= i <= j <= n,
            forall|k: int| j <= k < n ==> is_ws(s@[k]),
        decreases j,
    {
        j = j - 1;
    }
    proof {
        assert forall|k: int| j - i <= k < t.len() implies is_ws(t[k]) by {
            assert(t[k] == s@[k + i]);
        }
        if j > i {
            assert(t[j - i - 1] == s@[j - 1]);
        }
        lemma_trim_end_at(t, j - i);
        assert(t.take(j - i) =~= s@.subrange(i as int, j as int));
    }
    String::from_str(s.substring_char(i, j))
}

/// Is `c` an ASCII decimal digit?
pub open spec fn is_digit(c: char) -> bool {
    '0' <= c <= '9'
}

/// The value of a string of decimal digits.
pub open spec fn digits_value(s: Seq<char>) -> nat
    decreases s.len(),
{
    if s.len() == 0 {
        0
    } else {
        digits_value(s.drop_last()) * 10 + ((s.last() as int) - ('0' as int)) as nat
    }
}

/// The digits of an unsigned number: `s` without one leading `+`.
pub open spec fn unsigned_digits(s: Seq<char>) -> Seq<char> {
    if s.len() > 0 && s[0] == '+' {
        s.drop_first()
    } else {
        s
    }
}

/// Every character of `d` is a decimal digit.
pub open spec fn all_digits(d: Seq<char>) -> bool {
    forall|k: int| 0 <= k < d.len() ==> is_digit(#[trigger] d[k])
}

/// Parsing a `u64` as `str::parse` does: an optional `+`, then one or more
/// ASCII digits whose value fits.
pub open spec fn spec_parse_u64(s: Seq<char>) -> Option<u64> {
    let d = unsigned_digits(s);
    if d.len() > 0 && all_digits(d) && digits_value(d) <= u64::MAX {
        Some(digits_value(d) as u64)
    } else {
        None
    }
}

proof fn lemma_digits_monotone(s: Seq<char>, i: int, j: int)
    requires
        0 <= i <= j <= s.len(),
        forall|k: int| 0 <= k < s.len() ==> is_digit(#[trigger] s[k]),
    ensures
        digits_value(s.take(i)) <= digits_value(s.take(j)),
    decreases j - i,
{
    if i < j {
        lemma_digits_monotone(s, i, j - 1);
        let t = s.take(j);
        assert(t.drop_last() =~= s.take(j - 1));
        assert(is_digit(s[j - 1]));
    }
}

/// Parse a decimal `u64` the way `str::parse::<u64>` does.
pub fn parse_u64(s: &str) -> (res: Option<u64>)
    ensures
        res == spec_parse_u64(s@),
{
    let n = s.unicode_len();
    let mut i: usize = 0;
    if n > 0 && s.get_char(0) == '+' {
        i = 1;
    }
    let first = i;
    let ghost d = s@.skip(first as int);
    assert(d =~= unsigned_digits(s@));
    if first == n {
        return None;
    }
    let mut value: u64 = 0;
    let mut overflow = false;
    while i < n
        invariant
            n == s@.len(),
            first <= i <= n,
            d == s@.skip(first as int),
            d == unsigned_digits(s@),
            forall|k: int| 0 <= k < i - first ==> is_digit(#[trigger] d[k]),
            !overflow ==> value == digits_value(d.take(i - first)),
            overflow ==> digits_value(d.take(i - first)) > u64::MAX,
        decreases n - i,
    {
        let c = s.get_char(i);
        if !('0' <= c && c <= '9') {
            assert(!is_digit(d[i - first]));
            return None;
        }
        let ghost t = d.take(i - first + 1);
        assert(t.drop_last() =~= d.take(i - first));
        assert(t.last() == c);
        let digit = (c as u32 - '0' as u32) as u64;
        if !overflow {
            match value.checked_mul(10) {
                Some(v10) => match v10.checked_add(digit) {
                    Some(v) => {
                        value = v;
                    },
                    None => {
                        overflow = true;
                    },
                },
                None => {
                    overflow = true;
                },
            }
        }
        i = i + 1;
    }
    assert(d.take(n - first) =~= d);
    if overflow {
        None
    } else {
        Some(value)
    }
}

/// The decimal digit character for `d < 10`.
pub open spec fn digit_char(d: int) -> char {
    if d == 0 {
        '0'
    } else if d == 1 {
        '1'
    } else if d == 2 {
        '2'
    } else if d == 3 {
        '3'
    } else if d == 4 {
        '4'
    } else if d == 5 {
        '5'
    } else if d == 6 {
        '6'
    } else if d == 7 {
        '7'
    } else if d == 8 {
        '8'
    } else {
        '9'
    }
}

/// The decimal rendering of `n`, without leading zeros.
pub open spec fn decimal(n: nat) -> Seq<char>
    decreases n,
{
    if n < 10 {
        seq![digit_char(n as int)]
    } else {
        decimal(n / 10).push(digit_char((n % 10) as int))
    }
}

fn digit_str(d: u64) -> (res: &'static str)
    requires
        d < 10,
    ensures
        res@ == seq![digit_char(d as int)],
{
    proof {
        reveal_strlit("0");
        reveal_strlit("1");
        reveal_strlit("2");
        reveal_strlit("3");
        reveal_strlit("4");
        reveal_strlit("5");
        reveal_strlit("6");
        reveal_strlit("7");
        reveal_strlit("8");
        reveal_strlit("9");
    }
    let r = if d == 0 {
        "0"
    } else if d == 1 {
        "1"
    } else if d == 2 {
        "2"
    } else if d == 3 {
        "3"
    } else if d == 4 {
        "4"
    } else if d == 5 {
        "5"
    } else if d == 6 {
        "6"
    } else if d == 7 {
        "7"
    } else if d == 8 {
        "8"
    } else {
        "9"
    };
    assert(r@ =~= seq![digit_char(d as int)]);
    r
}

/// `n` written in decimal, as `Display` for `u64` writes it.
pub fn decimal_string(n: u64) -> (res: String)
    ensures
        res@ == decimal(n as nat),
    decreases n,
{
    if n < 10 {
        String::from_str(digit_str(n))
    } else {
        let mut s = decimal_string(n / 10);
        s.append(digit_str(n % 10));
        s
    }
}

/// Index of the last whitespace character of `s`, or -1.
pub open spec fn last_ws(s: Seq<char>) -> int
    decreases s.len(),
{
    if s.len() == 0 {
        -1
    } else if is_ws(s.last()) {
        s.len() - 1
    } else {
        last_ws(s.drop_last())
    }
}

pub proof fn lemma_last_ws_bounds(s: Seq<char>)
    ensures
        -1 <= last_ws(s) < s.len(),
    decreases s.len(),
{
    if s.len() > 0 && !is_ws(s.last()) {
        lemma_last_ws_bounds(s.drop_last());
    }
}

/// The words of `s` as `str::split_whitespace` gives them: the non-empty runs
/// between whitespace.
pub open spec fn words(s: Seq<char>) -> Seq<Seq<char>>
    decreases s.len(),
{
    if s.len() == 0 {
        seq![]
    } else {
        let j = last_ws(s);
        let word = s.subrange(j + 1, s.len() as int);
        let init = if j >= 0 {
            proof {
                lemma_last_ws_bounds(s);
            }
            words(s.take(j))
        } else {
            seq![]
        };
        if word.len() > 0 {
            init.push(word)
        } else {
            init
        }
    }
}

proof fn lemma_last_ws_at(s: Seq<char>, start: int)
    requires
        0 <= start <= s.len(),
        start == 0 || is_ws(s[start - 1]),
        forall|k: int| start <= k < s.len() ==> !is_ws(s[k]),
    ensures
        last_ws(s) == start - 1,
    decreases s.len(),
{
    if s.len() > start {
        let t = s.drop_last();
        assert forall|k: int| start <= k < t.len() implies !is_ws(t[k]) by {
            assert(t[k] == s[k]);
        }
        lemma_last_ws_at(t, start);
    }
}

proof fn lemma_words_split(s: Seq<char>, start: int)
    requires
        0 <= start <= s.len(),
        start == 0 || is_ws(s[start - 1]),
        forall|k: int| start <= k < s.len() ==> !is_ws(s[k]),
    ensures
        words(s) == (if start == 0 {
            seq![]
        } else {
            words(s.take(start - 1))
        }) + (if s.len() > start {
            seq![s.skip(start)]
        } else {
            seq![]
        }),
{
    lemma_last_ws_at(s, start);
    if s.len() > 0 {
        assert(s.subrange(start, s.len() as int) =~= s.skip(start));
    }
}

/// The whitespace-separated words of `s`.
pub fn split_words(s: &str) -> (res: Vec<String>)
    ensures
        res.deep_view() =~= words(s@),
{
    let n = s.unicode_len();
    let mut out: Vec<String> = Vec::new();
    let mut start: usize = 0;
    let mut i: usize = 0;
    while i < n
        invariant
            n == s@.len(),
            0 <= start <= i <= n,
            start == 0 || is_ws(s@[start - 1]),
            forall|k: int| start <= k < i ==> !is_ws(s@[k]),
            out.deep_view() =~= (if start == 0 {
                seq![]
            } else {
                words(s@.take(start - 1))
            }),
        decreases n - i,
    {
        let c = s.get_char(i);
        if char_is_ws(c) {
            let ghost t = s@.take(i as int);
            proof {
                lemma_words_split(t, start as int);
                if start > 0 {
                    assert(t.take(start - 1) =~= s@.take(start - 1));
                }
                assert(t.skip(start as int) =~= s@.subrange(start as int, i as int));
            }
            if i > start {
                let w = String::from_str(s.substring_char(start, i));
                let ghost before = out.deep_view();
                let ghost wv = w@;
                out.push(w);
                assert(out.deep_view() =~= before.push(wv));
            }
            start = i + 1;
        }
        i = i + 1;
    }
    proof {
        lemma_words_split(s@, start as int);
        assert(s@.skip(start as int) =~= s@.subrange(start as int, n as int));
    }
    if n > start {
        let w = String::from_str(s.substring_char(start, n));
        let ghost before = out.deep_view();
        let ghost wv = w@;
        out.push(w);
        assert(out.deep_view() =~= before.push(wv));
    }
    out
}

/// Index of the last newline of `s`, or -1.
pub open spec fn last_newline(s: Seq<char>) -> int
    decreases s.len(),
{
    if s.len() == 0 {
        -1
    } else if s.last() == '\n' {
        s.len() - 1
    } else {
        last_newline(s.drop_last())
    }
}

proof fn lemma_last_newline(s: Seq<char>)
    ensures
        -1 <= last_newline(s) < s.len(),
        last_newline(s) >= 0 ==> s[last_newline(s)] == '\n',
        forall|k: int| last_newline(s) < k < s.len() ==> s[k] != '\n',
    decreases s.len(),
{
    if s.len() > 0 && s.last() != '\n' {
        let t = s.drop_last();
        lemma_last_newline(t);
        assert forall|k: int| last_newline(s) < k < s.len() implies s[k] != '\n' by {
            if k < t.len() {
                assert(s[k] == t[k]);
            }
        }
    }
}

/// The last line of `s` as `str::lines` gives it: lines end at `\n`, the last
/// one may lack it, and a `\r` just before a `\n` is dropped. `None` when
/// `s` is empty.
pub open spec fn last_line(s: Seq<char>) -> Option<Seq<char>> {
    if s.len() == 0 {
        None
    } else {
        let terminated = s.last() == '\n';
        let body = if terminated {
            s.drop_last()
        } else {
            s
        };
        let line = body.skip(last_newline(body) + 1);
        if terminated && line.len() > 0 && line.last() == '\r' {
            Some(line.drop_last())
        } else {
            Some(line)
        }
    }
}

/// The last line of `s`.
pub fn last_line_of(s: &str) -> (res: Option<String>)
    ensures
        match last_line(s@) {
            None => res is None,
            Some(l) => res matches Some(r) && r@ == l,
        },
{
    let n = s.unicode_len();
    if n == 0 {
        return None;
    }
    let terminated = s.get_char(n - 1) == '\n';
    let end: usize = if terminated {
        n - 1
    } else {
        n
    };
    let ghost body = s@.take(end as int);
    assert(body =~= if terminated { s@.drop_last() } else { s@ });
    let mut j: usize = end;
    while j > 0 && s.get_char(j - 1) != '\n'
        invariant
            n == s@.len(),
            end <= n,
            body == s@.take(end as int),
            0 <= j <= end,
            forall|k: int| j <= k < end ==> s@[k] != '\n',
        decreases j,
    {
        j = j - 1;
    }
    proof {
        lemma_last_newline(body);
        let ln = last_newline(body);
        if j > 0 {
            assert(body[j - 1] == '\n');
            assert(ln >= j - 1) by {
                if ln < j - 1 {
                    assert(body[j - 1] != '\n');
                }
            }
        }
        assert(ln < j) by {
            if ln >= j {
                assert(body[ln] == s@[ln]);
            }
        }
        assert(body.skip(ln + 1) =~= s@.subrange(j as int, end as int));
    }
    let mut stop = end;
    if terminated && end > j && s.get_char(end - 1) == '\r' {
        stop = end - 1;
    }
    let line = s.substring_char(j, stop);
    proof {
        if stop < end {
            assert(s@.subrange(j as int, end as int).drop_last() =~= s@.subrange(
                j as int,
                stop as int,
            ));
        }
    }
    Some(String::from_str(line))
}

} // verus!
