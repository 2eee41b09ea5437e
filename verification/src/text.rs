//! Character-level helpers shared by the HTML and OPML scanners.
//!
//! Text is handled as a sequence of `char`s. Case-insensitive matching folds
//! ASCII letters only, which is what every pattern of this crate needs (the
//! patterns themselves are ASCII).
use vstd::prelude::*;

verus! {

/// The characters of `s`, in order.
pub fn chars_of(s: &str) -> (v: Vec<char>)
    ensures
        v@ == s@,
{
    let mut v: Vec<char> = Vec::new();
    for c in it: s.chars()
        invariant
            v@ == it.seq().take(it.index() as int),
            it.seq() == s@,
    {
        v.push(c);
    }
    v
}

/// Appends one character (std's `String::push`).
#[verifier::external_body]
pub(crate) fn push_char(s: &mut String, c: char)
    ensures
        final(s)@ == old(s)@.push(c),
{
    s.push(c);
}

/// A `String` holding exactly the characters of `v`.
pub fn string_of(v: &[char]) -> (s: String)
    ensures
        s@ == v@,
{
    let mut s = String::new();
    let mut i: usize = 0;
    while i < v.len()
        invariant
            i <= v@.len(),
            s@ == v@.take(i as int),
        decreases v@.len() - i,
    {
        push_char(&mut s, v[i]);
        assert(v@.take(i + 1) == v@.take(i as int).push(v@[i as int]));
        i += 1;
    }
    assert(v@.take(v@.len() as int) == v@);
    s
}

/// ASCII upper-case letters map to lower case; every other char is kept.
pub open spec fn ascii_lower(c: char) -> char {
    if 'A' <= c && c <= 'Z' {
        ((c as u32) + 32) as char
    } else {
        c
    }
}

pub fn lower_char(c: char) -> (r: char)
    ensures
        r == ascii_lower(c),
{
    if 'A' <= c && c <= 'Z' {
        ((c as u8) + 32) as char
    } else {
        c
    }
}

/// Two chars are equal, folding ASCII case when `fold` holds.
pub open spec fn same_char(a: char, b: char, fold: bool) -> bool {
    if fold {
        ascii_lower(a) == ascii_lower(b)
    } else {
        a == b
    }
}

/// `pat` occurs in `s` starting at index `i`.
pub open spec fn occurs_at(s: Seq<char>, i: int, pat: Seq<char>, fold: bool) -> bool {
    &&& 0 <= i
    &&& i + pat.len() <= s.len()
    &&& forall|k: int| 0 <= k < pat.len() ==> same_char(#[trigger] s[i + k], pat[k], fold)
}

/// Index of the first occurrence of `pat` in `s` at or after `from`.
pub open spec fn find_from(s: Seq<char>, from: int, pat: Seq<char>, fold: bool) -> Option<int>
    decreases s.len() - from,
{
    if from < 0 || from + pat.len() > s.len() {
        None
    } else if occurs_at(s, from, pat, fold) {
        Some(from)
    } else {
        find_from(s, from + 1, pat, fold)
    }
}

/// What `find_from` returns is an occurrence, and none comes before it.
pub proof fn lemma_find_from(s: Seq<char>, from: int, pat: Seq<char>, fold: bool)
    requires
        0 <= from,
    ensures
        find_from(s, from, pat, fold) matches Some(k) ==> {
            &&& from <= k
            &&& occurs_at(s, k, pat, fold)
            &&& forall|j: int| from <= j < k ==> !occurs_at(s, j, pat, fold)
        },
        find_from(s, from, pat, fold) is None ==> forall|j: int|
            from <= j ==> !occurs_at(s, j, pat, fold),
    decreases s.len() - from,
{
    if from + pat.len() > s.len() {
    } else if occurs_at(s, from, pat, fold) {
    } else {
        lemma_find_from(s, from + 1, pat, fold);
    }
}

/// A search result moved `d` places to the right.
pub open spec fn shifted(r: Option<int>, d: int) -> Option<int> {
    match r {
        Some(k) => Some(k + d),
        None => None,
    }
}

/// Searching `x + y` past `x` is searching `y`, moved by the length of `x`.
pub proof fn lemma_find_shift(x: Seq<char>, y: Seq<char>, j: int, pat: Seq<char>, fold: bool)
    requires
        0 <= j,
    ensures
        find_from(x + y, x.len() + j, pat, fold) == shifted(find_from(y, j, pat, fold), x.len() as int),
    decreases y.len() - j,
{
    if j + pat.len() <= y.len() {
        if occurs_at(y, j, pat, fold) {
            assert forall|k: int| 0 <= k < pat.len() implies same_char(
                #[trigger] (x + y)[x.len() + j + k],
                pat[k],
                fold,
            ) by {
                assert(same_char(y[j + k], pat[k], fold));
            }
        }
        if occurs_at(x + y, x.len() + j, pat, fold) {
            assert forall|k: int| 0 <= k < pat.len() implies same_char(#[trigger] y[j + k], pat[k], fold) by {
                assert(same_char((x + y)[x.len() + j + k], pat[k], fold));
            }
        }
        if !occurs_at(y, j, pat, fold) {
            lemma_find_shift(x, y, j + 1, pat, fold);
        }
    }
}

/// An occurrence that fits in `a` is the same in `a + b`.
pub proof fn lemma_occurs_prefix(a: Seq<char>, b: Seq<char>, i: int, pat: Seq<char>, fold: bool)
    requires
        0 <= i,
        i + pat.len() <= a.len(),
    ensures
        occurs_at(a + b, i, pat, fold) == occurs_at(a, i, pat, fold),
{
    if occurs_at(a, i, pat, fold) {
        assert forall|k: int| 0 <= k < pat.len() implies same_char(#[trigger] (a + b)[i + k], pat[k], fold) by {
            assert(same_char(a[i + k], pat[k], fold));
        }
    }
    if occurs_at(a + b, i, pat, fold) {
        assert forall|k: int| 0 <= k < pat.len() implies same_char(#[trigger] a[i + k], pat[k], fold) by {
            assert(same_char((a + b)[i + k], pat[k], fold));
        }
    }
}

/// Positions where `pat` does not occur can be skipped.
pub proof fn lemma_find_skip(s: Seq<char>, from: int, to: int, pat: Seq<char>, fold: bool)
    requires
        0 <= from <= to,
        forall|k: int| from <= k < to ==> !occurs_at(s, k, pat, fold),
    ensures
        find_from(s, from, pat, fold) == find_from(s, to, pat, fold),
    decreases to - from,
{
    if from < to && from + pat.len() <= s.len() {
        lemma_find_skip(s, from + 1, to, pat, fold);
    }
}

/// The first occurrence at or after `from` is at `at`.
pub proof fn lemma_find_at(s: Seq<char>, from: int, at: int, pat: Seq<char>, fold: bool)
    requires
        0 <= from <= at,
        occurs_at(s, at, pat, fold),
        forall|k: int| from <= k < at ==> !occurs_at(s, k, pat, fold),
    ensures
        find_from(s, from, pat, fold) == Some(at),
{
    lemma_find_skip(s, from, at, pat, fold);
}

/// A pattern that occurs nowhere is not found.
pub proof fn lemma_find_none(s: Seq<char>, pat: Seq<char>, fold: bool)
    requires
        pat.len() > 0,
        forall|k: int| 0 <= k < s.len() ==> !occurs_at(s, k, pat, fold),
    ensures
        find_from(s, 0, pat, fold) is None,
{
    lemma_find_skip(s, 0, s.len() as int, pat, fold);
}

/// An occurrence found in `a` is the first one in `a + b` too.
pub proof fn lemma_find_in_prefix(a: Seq<char>, b: Seq<char>, pat: Seq<char>, fold: bool)
    requires
        find_from(a, 0, pat, fold) is Some,
    ensures
        find_from(a + b, 0, pat, fold) == find_from(a, 0, pat, fold),
{
    lemma_find_from(a, 0, pat, fold);
    let k = find_from(a, 0, pat, fold)->0;
    lemma_occurs_prefix(a, b, k, pat, fold);
    assert forall|j: int| 0 <= j < k implies !occurs_at(a + b, j, pat, fold) by {
        lemma_occurs_prefix(a, b, j, pat, fold);
    }
    lemma_find_at(a + b, 0, k, pat, fold);
}

/// An occurrence found in `a` from `from` on is the first one in `a + b`
/// from there too.
pub proof fn lemma_find_in_prefix_from(a: Seq<char>, b: Seq<char>, from: int, pat: Seq<char>, fold: bool)
    requires
        0 <= from,
        find_from(a, from, pat, fold) is Some,
    ensures
        find_from(a + b, from, pat, fold) == find_from(a, from, pat, fold),
{
    lemma_find_from(a, from, pat, fold);
    let k = find_from(a, from, pat, fold)->0;
    lemma_occurs_prefix(a, b, k, pat, fold);
    assert forall|j: int| from <= j < k implies !occurs_at(a + b, j, pat, fold) by {
        lemma_occurs_prefix(a, b, j, pat, fold);
    }
    lemma_find_at(a + b, from, k, pat, fold);
}

/// When `pat` is not in `a` and cannot match the first char of `b`, its
/// first occurrence in `a + b` is its first occurrence in `b`.
pub proof fn lemma_find_past(a: Seq<char>, b: Seq<char>, pat: Seq<char>, fold: bool)
    requires
        find_from(a, 0, pat, fold) is None,
        b.len() > 0,
        forall|i: int| 0 <= i < pat.len() ==> !same_char(b[0], #[trigger] pat[i], fold),
    ensures
        find_from(a + b, 0, pat, fold) == shifted(find_from(b, 0, pat, fold), a.len() as int),
{
    lemma_find_from(a, 0, pat, fold);
    assert forall|k: int| 0 <= k < a.len() implies !occurs_at(a + b, k, pat, fold) by {
        if occurs_at(a + b, k, pat, fold) {
            if k + pat.len() <= a.len() {
                assert forall|i: int| 0 <= i < pat.len() implies same_char(#[trigger] a[k + i], pat[i], fold) by {
                    assert(same_char((a + b)[k + i], pat[i], fold));
                }
                assert(occurs_at(a, k, pat, fold));
            } else {
                let i = a.len() - k;
                assert(same_char((a + b)[k + i], pat[i], fold));
            }
        }
    }
    lemma_find_skip(a + b, 0, a.len() as int, pat, fold);
    lemma_find_shift(a, b, 0, pat, fold);
}

/// Lower-casing goes char by char.
pub proof fn lemma_lower_concat(a: Seq<char>, b: Seq<char>)
    ensures
        lower_seq(a + b) == lower_seq(a) + lower_seq(b),
{
    assert(lower_seq(a + b) =~= lower_seq(a) + lower_seq(b));
}

/// Whether `pat` occurs in `v` at index `i`.
pub fn matches_at(v: &[char], i: usize, pat: &[char], fold: bool) -> (r: bool)
    ensures
        r == occurs_at(v@, i as int, pat@, fold),
{
    if i > v.len() || pat.len() > v.len() - i {
        return false;
    }
    let mut k: usize = 0;
    while k < pat.len()
        invariant
            i + pat@.len() <= v@.len(),
            v@.len() == v.len(),
            pat@.len() == pat.len(),
            k <= pat@.len(),
            forall|j: int| 0 <= j < k ==> same_char(#[trigger] v@[i + j], pat@[j], fold),
        decreases pat@.len() - k,
    {
        let a = v[i + k];
        let b = pat[k];
        let eq = if fold {
            lower_char(a) == lower_char(b)
        } else {
            a == b
        };
        if !eq {
            assert(!same_char(v@[i + k], pat@[k as int], fold));
            return false;
        }
        k += 1;
    }
    true
}

/// First index at or after `from` where `pat` occurs in `v`.
pub fn find(v: &[char], from: usize, pat: &[char], fold: bool) -> (r: Option<usize>)
    ensures
        r matches Some(k) ==> find_from(v@, from as int, pat@, fold) == Some(k as int),
        r is None ==> find_from(v@, from as int, pat@, fold) is None,
{
    let mut i = from;
    if i > v.len() || pat.len() > v.len() - i {
        return None;
    }
    while pat.len() <= v.len() - i
        invariant
            from <= i <= v@.len(),
            find_from(v@, from as int, pat@, fold) == find_from(v@, i as int, pat@, fold),
        decreases v@.len() - i,
    {
        if matches_at(v, i, pat, fold) {
            return Some(i);
        }
        i += 1;
    }
    None
}

/// Appends the chars of `w` to `v`.
pub fn push_all(v: &mut Vec<char>, w: &[char])
    ensures
        final(v)@ == old(v)@ + w@,
{
    let mut i: usize = 0;
    while i < w.len()
        invariant
            i <= w@.len(),
            v@ == old(v)@ + w@.take(i as int),
        decreases w@.len() - i,
    {
        v.push(w[i]);
        assert(w@.take(i + 1) == w@.take(i as int).push(w@[i as int]));
        i += 1;
    }
    assert(w@.take(w@.len() as int) == w@);
}

/// `s` with every occurrence of `pat` replaced by `rep`, scanning from the
/// left and resuming after each replaced occurrence (std's `str::replace`).
pub open spec fn replace_all(s: Seq<char>, pat: Seq<char>, rep: Seq<char>) -> Seq<char>
    decreases s.len(),
{
    if pat.len() == 0 || s.len() < pat.len() {
        s
    } else if s.take(pat.len() as int) == pat {
        rep + replace_all(s.skip(pat.len() as int), pat, rep)
    } else {
        seq![s[0]] + replace_all(s.skip(1), pat, rep)
    }
}

/// Replaces every occurrence of `pat` (not empty) by `rep`.
pub fn replace(s: &[char], pat: &[char], rep: &[char]) -> (r: Vec<char>)
    requires
        pat@.len() > 0,
    ensures
        r@ == replace_all(s@, pat@, rep@),
{
    let mut out: Vec<char> = Vec::new();
    let mut i: usize = 0;
    assert(s@.skip(0) =~= s@);
    while i < s.len()
        invariant
            i <= s@.len(),
            pat@.len() > 0,
            replace_all(s@, pat@, rep@) == out@ + replace_all(s@.skip(i as int), pat@, rep@),
        decreases s@.len() - i,
    {
        let ghost rest = s@.skip(i as int);
        if matches_at(s, i, pat, false) {
            assert forall|k: int| 0 <= k < pat@.len() implies rest.take(pat@.len() as int)[k]
                == pat@[k] by {
                assert(same_char(s@[i + k], pat@[k], false));
            }
            assert(rest.take(pat@.len() as int) =~= pat@);
            assert(rest.skip(pat@.len() as int) =~= s@.skip(i + pat@.len()));
            push_all(&mut out, rep);
            i = i + pat.len();
        } else {
            assert(rest.len() >= pat@.len() ==> rest.take(pat@.len() as int) != pat@) by {
                if rest.len() >= pat@.len() {
                    if rest.take(pat@.len() as int) == pat@ {
                        assert forall|k: int| 0 <= k < pat@.len() implies same_char(
                            #[trigger] s@[i + k],
                            pat@[k],
                            false,
                        ) by {
                            assert(rest.take(pat@.len() as int)[k] == s@[i + k]);
                        }
                    }
                }
            }
            assert(rest.skip(1) =~= s@.skip(i + 1));
            out.push(s[i]);
            i = i + 1;
        }
    }
    assert(s@.skip(s@.len() as int) =~= Seq::<char>::empty());
    out
}

/// The Unicode `White_Space` property, which `char::is_whitespace` tests.
pub open spec fn is_ws(c: char) -> bool {
    let u = c as u32;
    ||| 0x09 <= u <= 0x0d
    ||| u == 0x20
    ||| u == 0x85
    ||| u == 0xa0
    ||| u == 0x1680
    ||| 0x2000 <= u <= 0x200a
    ||| u == 0x2028
    ||| u == 0x2029
    ||| u == 0x202f
    ||| u == 0x205f
    ||| u == 0x3000
}

/// Whether `c` has the `White_Space` property (what std's
/// `char::is_whitespace` tests).
pub(crate) fn is_whitespace(c: char) -> (r: bool)
    ensures
        r == is_ws(c),
{
    let u = c as u32;
    (0x09 <= u && u <= 0x0d) || u == 0x20 || u == 0x85 || u == 0xa0 || u == 0x1680 || (0x2000 <= u
        && u <= 0x200a) || u == 0x2028 || u == 0x2029 || u == 0x202f || u == 0x205f || u == 0x3000
}

/// `s` without its leading whitespace.
pub open spec fn trim_start(s: Seq<char>) -> Seq<char>
    decreases s.len(),
{
    if s.len() > 0 && is_ws(s[0]) {
        trim_start(s.skip(1))
    } else {
        s
    }
}

/// `s` without its trailing whitespace.
pub open spec fn trim_end(s: Seq<char>) -> Seq<char>
    decreases s.len(),
{
    if s.len() > 0 && is_ws(s.last()) {
        trim_end(s.drop_last())
    } else {
        s
    }
}

/// `s` without leading and trailing whitespace (std's `str::trim`).
pub open spec fn trim(s: Seq<char>) -> Seq<char> {
    trim_end(trim_start(s))
}

/// Trims whitespace at both ends.
pub fn trim_chars(s: &[char]) -> (r: Vec<char>)
    ensures
        r@ == trim(s@),
{
    let mut a: usize = 0;
    assert(s@.skip(0) =~= s@);
    while a < s.len() && is_whitespace(s[a])
        invariant
            a <= s@.len(),
            trim_start(s@) == trim_start(s@.skip(a as int)),
        decreases s@.len() - a,
    {
        assert(s@.skip(a as int).skip(1) =~= s@.skip(a + 1));
        a += 1;
    }
    let ghost t = s@.skip(a as int);
    assert(trim_start(s@) == t);
    let mut b: usize = s.len();
    while b > a && is_whitespace(s[b - 1])
        invariant
            a <= b <= s@.len(),
            t == s@.skip(a as int),
            trim_end(t) == trim_end(s@.subrange(a as int, b as int)),
        decreases b,
    {
        assert(s@.subrange(a as int, b as int).drop_last() =~= s@.subrange(a as int, b - 1));
        b -= 1;
    }
    assert(s@.skip(a as int) =~= s@.subrange(a as int, s@.len() as int));
    let mut r: Vec<char> = Vec::new();
    let mut i = a;
    while i < b
        invariant
            a <= i <= b <= s@.len(),
            r@ == s@.subrange(a as int, i as int),
        decreases b - i,
    {
        r.push(s[i]);
        assert(s@.subrange(a as int, i + 1) =~= s@.subrange(a as int, i as int).push(s@[i as int]));
        i += 1;
    }
    r
}

/// Whitespace runs collapsed: the words of `s` joined by single spaces
/// (std's `split_whitespace` followed by `join(" ")`), scanning with the
/// state `pending` (a separator is owed before the next word) and `started`
/// (a word was already emitted).
pub open spec fn collapse_from(s: Seq<char>, pending: bool, started: bool) -> Seq<char>
    decreases s.len(),
{
    if s.len() == 0 {
        seq![]
    } else if is_ws(s[0]) {
        collapse_from(s.skip(1), started, started)
    } else {
        (if pending {
            seq![' ']
        } else {
            seq![]
        }) + seq![s[0]] + collapse_from(s.skip(1), false, true)
    }
}

pub open spec fn collapse_ws(s: Seq<char>) -> Seq<char> {
    collapse_from(s, false, false)
}

/// Text whose only whitespace is single spaces, each followed by a
/// non-whitespace char.
pub open spec fn spaced(y: Seq<char>) -> bool {
    forall|i: int|
        0 <= i < y.len() && is_ws(#[trigger] y[i]) ==> y[i] == ' ' && i + 1 < y.len() && !is_ws(
            y[i + 1],
        )
}

/// What the collapse writes is spaced, and starts with no whitespace until
/// a word was written.
pub proof fn lemma_collapse_spaced(s: Seq<char>, pending: bool, started: bool)
    requires
        pending ==> started,
    ensures
        spaced(collapse_from(s, pending, started)),
        !started ==> collapse_from(s, pending, started).len() == 0 || !is_ws(
            collapse_from(s, pending, started)[0],
        ),
    decreases s.len(),
{
    if s.len() > 0 {
        if is_ws(s[0]) {
            lemma_collapse_spaced(s.skip(1), started, started);
        } else {
            lemma_collapse_spaced(s.skip(1), false, true);
            let y1 = collapse_from(s.skip(1), false, true);
            let head = (if pending {
                seq![' ']
            } else {
                seq![]
            }) + seq![s[0]];
            let y = head + y1;
            assert(y == collapse_from(s, pending, started));
            assert forall|i: int| 0 <= i < y.len() && is_ws(#[trigger] y[i]) implies y[i] == ' ' && i
                + 1 < y.len() && !is_ws(y[i + 1]) by {
                if i >= head.len() {
                    assert(y[i] == y1[i - head.len()]);
                    assert(y[i + 1] == y1[i + 1 - head.len()]);
                }
            }
        }
    }
}

/// Collapsing a spaced text that (before any word was written) starts
/// with a word changes nothing.
pub proof fn lemma_collapse_of_spaced(y: Seq<char>, started: bool)
    requires
        spaced(y),
        !started ==> y.len() == 0 || !is_ws(y[0]),
    ensures
        collapse_from(y, false, started) == y,
    decreases y.len(),
{
    if y.len() > 0 {
        let rest = y.skip(1);
        assert(spaced(rest)) by {
            assert forall|i: int| 0 <= i < rest.len() && is_ws(#[trigger] rest[i]) implies rest[i]
                == ' ' && i + 1 < rest.len() && !is_ws(rest[i + 1]) by {
                assert(rest[i] == y[i + 1]);
            }
        }
        if is_ws(y[0]) {
            assert(y[0] == ' ' && 1 < y.len() && !is_ws(y[1]));
            let rest2 = rest.skip(1);
            assert(spaced(rest2)) by {
                assert forall|i: int| 0 <= i < rest2.len() && is_ws(#[trigger] rest2[i]) implies rest2[i]
                    == ' ' && i + 1 < rest2.len() && !is_ws(rest2[i + 1]) by {
                    assert(rest2[i] == y[i + 2]);
                }
            }
            lemma_collapse_of_spaced(rest2, true);
            assert(started);
            assert(collapse_from(y, false, started) == collapse_from(rest, true, true));
            assert(!is_ws(rest[0]));
            assert(collapse_from(rest, true, true) == seq![' '] + seq![rest[0]] + collapse_from(
                rest.skip(1),
                false,
                true,
            ));
            assert(seq![' '] + seq![rest[0]] + rest2 =~= y);
        } else {
            lemma_collapse_of_spaced(rest, true);
            assert(seq![y[0]] + rest =~= y);
        }
    }
}

/// Collapsing twice is collapsing once.
pub proof fn lemma_collapse_idempotent(s: Seq<char>)
    ensures
        collapse_ws(collapse_ws(s)) == collapse_ws(s),
{
    lemma_collapse_spaced(s, false, false);
    lemma_collapse_of_spaced(collapse_ws(s), false);
}

/// The collapse writes only spaces and chars of its input.
pub proof fn lemma_collapse_chars(s: Seq<char>, pending: bool, started: bool, c: char)
    requires
        c != ' ',
        !s.contains(c),
    ensures
        !collapse_from(s, pending, started).contains(c),
    decreases s.len(),
{
    if s.len() > 0 {
        let rest = s.skip(1);
        assert(!rest.contains(c)) by {
            if rest.contains(c) {
                let k = choose|k: int| 0 <= k < rest.len() && #[trigger] rest[k] == c;
                assert(s[k + 1] == c);
            }
        }
        assert(s[0] != c) by {
            if s[0] == c {
                assert(s.contains(c));
            }
        }
        if is_ws(s[0]) {
            lemma_collapse_chars(rest, started, started, c);
        } else {
            lemma_collapse_chars(rest, false, true, c);
            let y1 = collapse_from(rest, false, true);
            let head = (if pending {
                seq![' ']
            } else {
                seq![]
            }) + seq![s[0]];
            assert(!head.contains(c)) by {
                if head.contains(c) {
                    let k = choose|k: int| 0 <= k < head.len() && #[trigger] head[k] == c;
                }
            }
            lemma_concat_contains(head, y1, c);
        }
    }
}

/// Collapses whitespace runs into single spaces and drops it at both ends.
pub fn collapse_whitespace(s: &[char]) -> (r: Vec<char>)
    ensures
        r@ == collapse_ws(s@),
{
    let mut out: Vec<char> = Vec::new();
    let mut pending = false;
    let mut started = false;
    let mut i: usize = 0;
    assert(s@.skip(0) =~= s@);
    while i < s.len()
        invariant
            i <= s@.len(),
            collapse_ws(s@) == out@ + collapse_from(s@.skip(i as int), pending, started),
        decreases s@.len() - i,
    {
        let c = s[i];
        assert(s@.skip(i as int).skip(1) =~= s@.skip(i + 1));
        if is_whitespace(c) {
            pending = started;
        } else {
            if pending {
                out.push(' ');
            }
            out.push(c);
            pending = false;
            started = true;
        }
        i += 1;
    }
    assert(s@.skip(s@.len() as int) =~= Seq::<char>::empty());
    out
}

/// `s` with ASCII letters in lower case.
pub open spec fn lower_seq(s: Seq<char>) -> Seq<char> {
    Seq::new(s.len(), |i: int| ascii_lower(s[i]))
}

pub fn lower_all(s: &[char]) -> (r: Vec<char>)
    ensures
        r@ == lower_seq(s@),
{
    let mut r: Vec<char> = Vec::new();
    let mut i: usize = 0;
    while i < s.len()
        invariant
            i <= s@.len(),
            r@ == lower_seq(s@).take(i as int),
        decreases s@.len() - i,
    {
        r.push(lower_char(s[i]));
        assert(lower_seq(s@).take(i + 1) =~= lower_seq(s@).take(i as int).push(ascii_lower(s@[i as int])));
        i += 1;
    }
    assert(lower_seq(s@).take(s@.len() as int) =~= lower_seq(s@));
    r
}

/// The chars of `s` from `a` to `b`.
pub fn slice_chars(s: &[char], a: usize, b: usize) -> (r: Vec<char>)
    requires
        a <= b <= s@.len(),
    ensures
        r@ == s@.subrange(a as int, b as int),
{
    let mut r: Vec<char> = Vec::new();
    let mut i = a;
    while i < b
        invariant
            a <= i <= b <= s@.len(),
            r@ == s@.subrange(a as int, i as int),
        decreases b - i,
    {
        r.push(s[i]);
        assert(s@.subrange(a as int, i + 1) =~= s@.subrange(a as int, i as int).push(s@[i as int]));
        i += 1;
    }
    r
}

/// Whether `pat` occurs anywhere in `s`.
pub open spec fn contains_seq(s: Seq<char>, pat: Seq<char>, fold: bool) -> bool {
    find_from(s, 0, pat, fold) is Some
}

pub fn contains(s: &[char], pat: &str, fold: bool) -> (r: bool)
    ensures
        r == contains_seq(s@, pat@, fold),
{
    let p = chars_of(pat);
    find(s, 0, p.as_slice(), fold).is_some()
}

/// `s` begins with `p`.
pub open spec fn has_prefix(s: Seq<char>, p: Seq<char>) -> bool {
    p.len() <= s.len() && s.take(p.len() as int) == p
}

pub fn starts_with(s: &[char], p: &str) -> (r: bool)
    ensures
        r == has_prefix(s@, p@),
{
    let q = chars_of(p);
    let r = matches_at(s, 0, q.as_slice(), false);
    assert(r ==> s@.take(q@.len() as int) =~= q@) by {
        if r {
            assert forall|k: int| 0 <= k < q@.len() implies s@.take(q@.len() as int)[k] == q@[k] by {
                assert(same_char(s@[0 + k], q@[k], false));
            }
        }
    }
    assert(has_prefix(s@, p@) ==> occurs_at(s@, 0, q@, false)) by {
        if has_prefix(s@, p@) {
            assert forall|k: int| 0 <= k < q@.len() implies same_char(#[trigger] s@[0 + k], q@[k], false) by {
                assert(s@.take(q@.len() as int)[k] == s@[k]);
            }
        }
    }
    r
}

/// The texts of a list of strings.
pub open spec fn views(v: Seq<String>) -> Seq<Seq<char>> {
    v.map_values(|x: String| x@)
}

/// Pushing a string pushes its text.
pub proof fn lemma_views_push(v: Seq<String>, x: String)
    ensures
        views(v.push(x)) == views(v).push(x@),
{
    assert(views(v.push(x)) =~= views(v).push(x@));
}

/// Index of the first char at or after `from` that is not whitespace.
pub fn skip_ws(s: &[char], from: usize) -> (r: usize)
    requires
        from <= s@.len(),
    ensures
        from <= r <= s@.len(),
        s@.skip(r as int) == trim_start(s@.skip(from as int)),
{
    let mut i = from;
    while i < s.len() && is_whitespace(s[i])
        invariant
            from <= i <= s@.len(),
            trim_start(s@.skip(from as int)) == trim_start(s@.skip(i as int)),
        decreases s@.len() - i,
    {
        assert(s@.skip(i as int).skip(1) =~= s@.skip(i + 1));
        i += 1;
    }
    i
}

/// A char found in a concatenation is found in one of its parts.
pub proof fn lemma_concat_contains(a: Seq<char>, b: Seq<char>, c: char)
    ensures
        (a + b).contains(c) ==> a.contains(c) || b.contains(c),
{
    if (a + b).contains(c) {
        let k = choose|k: int| 0 <= k < (a + b).len() && #[trigger] (a + b)[k] == c;
        if k < a.len() {
            assert(a[k] == c);
        } else {
            assert(b[k - a.len()] == c);
        }
    }
}

/// Replacing a pattern that does not occur changes nothing.
pub proof fn lemma_replace_absent(s: Seq<char>, pat: Seq<char>, rep: Seq<char>)
    requires
        pat.len() > 0,
        forall|j: int| 0 <= j ==> !occurs_at(s, j, pat, false),
    ensures
        replace_all(s, pat, rep) == s,
    decreases s.len(),
{
    if s.len() >= pat.len() {
        assert(s.take(pat.len() as int) != pat) by {
            if s.take(pat.len() as int) == pat {
                assert forall|k: int| 0 <= k < pat.len() implies same_char(#[trigger] s[0 + k], pat[k], false) by {
                    assert(s.take(pat.len() as int)[k] == s[k]);
                }
                assert(occurs_at(s, 0, pat, false));
            }
        }
        let rest = s.skip(1);
        assert forall|j: int| 0 <= j implies !occurs_at(rest, j, pat, false) by {
            if occurs_at(rest, j, pat, false) {
                assert forall|k: int| 0 <= k < pat.len() implies same_char(#[trigger] s[(j + 1) + k], pat[k], false) by {
                    assert(same_char(rest[j + k], pat[k], false));
                }
                assert(occurs_at(s, j + 1, pat, false));
            }
        }
        lemma_replace_absent(rest, pat, rep);
        assert(seq![s[0]] + rest =~= s);
    }
}

/// Replacing a single char works piece by piece.
pub proof fn lemma_replace_char_concat(a: Seq<char>, b: Seq<char>, c: char, rep: Seq<char>)
    ensures
        replace_all(a + b, seq![c], rep) == replace_all(a, seq![c], rep) + replace_all(b, seq![c], rep),
    decreases a.len(),
{
    if a.len() == 0 {
        assert(a + b =~= b);
        assert(replace_all(a, seq![c], rep) =~= Seq::<char>::empty());
    } else {
        lemma_replace_char_concat(a.skip(1), b, c, rep);
        assert((a + b).skip(1) =~= a.skip(1) + b);
        assert((a + b).take(1) =~= a.take(1));
    }
}

/// A piece that holds no first char of the pattern is copied as is.
pub proof fn lemma_replace_prefix_free(a: Seq<char>, b: Seq<char>, pat: Seq<char>, rep: Seq<char>)
    requires
        pat.len() > 0,
        !a.contains(pat[0]),
    ensures
        replace_all(a + b, pat, rep) == a + replace_all(b, pat, rep),
    decreases a.len(),
{
    if a.len() == 0 {
        assert(a + b =~= b);
    } else {
        assert(a[0] != pat[0]);
        if (a + b).len() < pat.len() {
            assert(b.len() < pat.len());
        } else {
            assert((a + b).take(pat.len() as int)[0] == a[0]);
            let rest = a.skip(1);
            assert(!rest.contains(pat[0])) by {
                if rest.contains(pat[0]) {
                    let k = choose|k: int| 0 <= k < rest.len() && #[trigger] rest[k] == pat[0];
                    assert(a[k + 1] == pat[0]);
                }
            }
            lemma_replace_prefix_free(rest, b, pat, rep);
            assert((a + b).skip(1) =~= rest + b);
            assert(seq![a[0]] + (rest + replace_all(b, pat, rep)) =~= a + replace_all(b, pat, rep));
        }
    }
}

/// A char that is not in `s` occurs nowhere in it.
pub proof fn lemma_char_absent(s: Seq<char>, c: char)
    requires
        !s.contains(c),
    ensures
        forall|j: int| 0 <= j ==> !occurs_at(s, j, seq![c], false),
{
    assert forall|j: int| 0 <= j implies !occurs_at(s, j, seq![c], false) by {
        if occurs_at(s, j, seq![c], false) {
            assert(same_char(s[j + 0], seq![c][0], false));
        }
    }
}

/// Replacing a pattern by a text no longer than it never lengthens.
pub proof fn lemma_replace_not_longer(s: Seq<char>, pat: Seq<char>, rep: Seq<char>)
    requires
        rep.len() <= pat.len(),
    ensures
        replace_all(s, pat, rep).len() <= s.len(),
    decreases s.len(),
{
    if pat.len() > 0 && s.len() >= pat.len() {
        if s.take(pat.len() as int) == pat {
            lemma_replace_not_longer(s.skip(pat.len() as int), pat, rep);
        } else {
            lemma_replace_not_longer(s.skip(1), pat, rep);
        }
    }
}

/// Trimming leading whitespace keeps a suffix.
pub proof fn lemma_trim_start_len(s: Seq<char>)
    ensures
        trim_start(s).len() <= s.len(),
    decreases s.len(),
{
    if s.len() > 0 && is_ws(s[0]) {
        lemma_trim_start_len(s.skip(1));
    }
}

/// Trimming trailing whitespace keeps a prefix.
pub proof fn lemma_trim_end_len(s: Seq<char>)
    ensures
        trim_end(s).len() <= s.len(),
    decreases s.len(),
{
    if s.len() > 0 && is_ws(s.last()) {
        lemma_trim_end_len(s.drop_last());
    }
}

/// Trimming never lengthens.
pub proof fn lemma_trim_len(s: Seq<char>)
    ensures
        trim(s).len() <= s.len(),
{
    lemma_trim_start_len(s);
    lemma_trim_end_len(trim_start(s));
}

/// Replacing every `c` by a text without `c` leaves no `c`.
pub proof fn lemma_replace_removes(s: Seq<char>, c: char, rep: Seq<char>)
    requires
        !rep.contains(c),
    ensures
        !replace_all(s, seq![c], rep).contains(c),
    decreases s.len(),
{
    if s.len() >= 1 {
        lemma_replace_removes(s.skip(1), c, rep);
        let rest = replace_all(s.skip(1), seq![c], rep);
        if s.take(1) == seq![c] {
            lemma_concat_contains(rep, rest, c);
        } else {
            assert(s.take(1)[0] == s[0]);
            assert(s[0] != c) by {
                if s[0] == c {
                    assert(s.take(1) =~= seq![c]);
                }
            }
            lemma_concat_contains(seq![s[0]], rest, c);
        }
    }
}

/// Replacing anything by a text without `c` adds no `c`.
pub proof fn lemma_replace_keeps_out(s: Seq<char>, pat: Seq<char>, rep: Seq<char>, c: char)
    requires
        !s.contains(c),
        !rep.contains(c),
    ensures
        !replace_all(s, pat, rep).contains(c),
    decreases s.len(),
{
    if pat.len() == 0 || s.len() < pat.len() {
    } else {
        if s.take(pat.len() as int) == pat {
            let rest = s.skip(pat.len() as int);
            assert(!rest.contains(c)) by {
                if rest.contains(c) {
                    let k = choose|k: int| 0 <= k < rest.len() && #[trigger] rest[k] == c;
                    assert(s[k + pat.len()] == c);
                }
            }
            lemma_replace_keeps_out(rest, pat, rep, c);
            lemma_concat_contains(rep, replace_all(rest, pat, rep), c);
        } else {
            let rest = s.skip(1);
            assert(!rest.contains(c)) by {
                if rest.contains(c) {
                    let k = choose|k: int| 0 <= k < rest.len() && #[trigger] rest[k] == c;
                    assert(s[k + 1] == c);
                }
            }
            assert(s[0] != c) by {
                if s[0] == c {
                    assert(s.contains(c));
                }
            }
            lemma_replace_keeps_out(rest, pat, rep, c);
            lemma_concat_contains(seq![s[0]], replace_all(rest, pat, rep), c);
        }
    }
}

} // verus!
