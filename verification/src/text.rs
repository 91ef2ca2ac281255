//! Character-level models of the string operations that the protocol code
//! relies on (trimming, searching, ASCII case, decimal numbers), with
//! executable versions proved against them.
use vstd::prelude::*;
use vstd::utf8::{decode_utf8, valid_utf8};

verus! {

// ---------------------------------------------------------------------------
// Whitespace and trimming
// ---------------------------------------------------------------------------

/// `char::is_whitespace`: the characters with the Unicode `White_Space` property.
pub open spec fn is_ws(c: char) -> bool {
    ||| ('\t' <= c && c <= '\r')
    ||| c == ' '
    ||| c == '\u{85}'
    ||| c == '\u{a0}'
    ||| c == '\u{1680}'
    ||| ('\u{2000}' <= c && c <= '\u{200a}')
    ||| c == '\u{2028}'
    ||| c == '\u{2029}'
    ||| c == '\u{202f}'
    ||| c == '\u{205f}'
    ||| c == '\u{3000}'
}

/// `s` with its leading whitespace removed.
pub open spec fn trim_start(s: Seq<char>) -> Seq<char>
    decreases s.len(),
{
    if s.len() > 0 && is_ws(s[0]) {
        trim_start(s.drop_first())
    } else {
        s
    }
}

/// `s` with its trailing whitespace removed.
pub open spec fn trim_end(s: Seq<char>) -> Seq<char>
    decreases s.len(),
{
    if s.len() > 0 && is_ws(s.last()) {
        trim_end(s.drop_last())
    } else {
        s
    }
}

/// `str::trim`: `s` with leading and trailing whitespace removed.
pub open spec fn trim(s: Seq<char>) -> Seq<char> {
    trim_end(trim_start(s))
}

pub open spec fn all_ws(s: Seq<char>) -> bool {
    forall|i: int| 0 <= i < s.len() ==> #[trigger] is_ws(s[i])
}

/// Whether `c` has the `White_Space` property (`char::is_whitespace`).
pub(crate) fn is_whitespace(c: char) -> (b: bool)
    ensures
        b == is_ws(c),
{
    ('\t' <= c && c <= '\r') || c == ' ' || c == '\u{85}' || c == '\u{a0}' || c == '\u{1680}'
        || ('\u{2000}' <= c && c <= '\u{200a}') || c == '\u{2028}' || c == '\u{2029}' || c
        == '\u{202f}' || c == '\u{205f}' || c == '\u{3000}'
}

/// The bounds of the trimmed part of `v[lo..hi]`.
pub(crate) fn trim_bounds(v: &Vec<char>, lo: usize, hi: usize) -> (r: (usize, usize))
    requires
        lo <= hi <= v@.len(),
    ensures
        lo <= r.0 <= r.1 <= hi,
        v@.subrange(r.0 as int, r.1 as int) == trim(v@.subrange(lo as int, hi as int)),
{
    let a = trim_start_bound(v, lo, hi);
    let mut b = hi;
    while b > a && is_whitespace(v[b - 1])
        invariant
            lo <= a <= b <= hi <= v@.len(),
            trim(v@.subrange(lo as int, hi as int)) == trim_end(v@.subrange(a as int, b as int)),
        decreases b - a,
    {
        assert(v@.subrange(a as int, b as int).drop_last() =~= v@.subrange(
            a as int,
            b - 1,
        ));
        b = b - 1;
    }
    (a, b)
}

/// Where the text `v[lo..hi]` begins once its leading whitespace is dropped.
pub(crate) fn trim_start_bound(v: &Vec<char>, lo: usize, hi: usize) -> (a: usize)
    requires
        lo <= hi <= v@.len(),
    ensures
        lo <= a <= hi,
        v@.subrange(a as int, hi as int) == trim_start(v@.subrange(lo as int, hi as int)),
{
    let mut a = lo;
    while a < hi && is_whitespace(v[a])
        invariant
            lo <= a <= hi <= v@.len(),
            trim_start(v@.subrange(lo as int, hi as int)) == trim_start(
                v@.subrange(a as int, hi as int),
            ),
        decreases hi - a,
    {
        assert(v@.subrange(a as int, hi as int).drop_first() =~= v@.subrange(
            a + 1,
            hi as int,
        ));
        a = a + 1;
    }
    a
}

/// Whitespace at the front of `w + y` is dropped with `w`.
pub proof fn lemma_trim_start_ws_prefix(w: Seq<char>, y: Seq<char>)
    requires
        all_ws(w),
    ensures
        trim_start(w + y) == trim_start(y),
    decreases w.len(),
{
    if w.len() > 0 {
        assert(is_ws(w[0]));
        assert((w + y)[0] == w[0]);
        assert((w + y).drop_first() =~= w.drop_first() + y);
        assert forall|i: int| 0 <= i < w.drop_first().len() implies #[trigger] is_ws(
            w.drop_first()[i],
        ) by {
            assert(is_ws(w[i + 1]));
        }
        lemma_trim_start_ws_prefix(w.drop_first(), y);
    } else {
        assert(w + y =~= y);
    }
}

/// Whitespace at the end of `y + w` is dropped with `w`.
pub proof fn lemma_trim_end_ws_suffix(y: Seq<char>, w: Seq<char>)
    requires
        all_ws(w),
    ensures
        trim_end(y + w) == trim_end(y),
    decreases w.len(),
{
    if w.len() > 0 {
        assert(is_ws(w[w.len() - 1]));
        assert((y + w).last() == w.last());
        assert((y + w).drop_last() =~= y + w.drop_last());
        assert forall|i: int| 0 <= i < w.drop_last().len() implies #[trigger] is_ws(
            w.drop_last()[i],
        ) by {
            assert(is_ws(w[i]));
        }
        lemma_trim_end_ws_suffix(y, w.drop_last());
    } else {
        assert(y + w =~= y);
    }
}

/// A string of whitespace trims to nothing from either end.
pub proof fn lemma_trim_all_ws(s: Seq<char>)
    requires
        all_ws(s),
    ensures
        trim_start(s) == Seq::<char>::empty(),
        trim_end(s) == Seq::<char>::empty(),
        trim(s) == Seq::<char>::empty(),
{
    lemma_trim_start_ws_prefix(s, Seq::empty());
    lemma_trim_end_ws_suffix(Seq::empty(), s);
    assert(s + Seq::<char>::empty() =~= s);
    assert(Seq::<char>::empty() + s =~= s);
}

/// Trimming the front of `x + y` only reaches into `x` when `x` has a
/// non-whitespace character.
pub proof fn lemma_trim_start_append(x: Seq<char>, y: Seq<char>)
    requires
        !all_ws(x),
    ensures
        trim_start(x + y) == trim_start(x) + y,
    decreases x.len(),
{
    assert((x + y)[0] == x[0]);
    if is_ws(x[0]) {
        assert((x + y).drop_first() =~= x.drop_first() + y);
        assert(!all_ws(x.drop_first())) by {
            let i = choose|i: int| 0 <= i < x.len() && !#[trigger] is_ws(x[i]);
            assert(i > 0);
            assert(x.drop_first()[i - 1] == x[i]);
        }
        lemma_trim_start_append(x.drop_first(), y);
    }
}

/// Trimming the end of `x + y` does not reach into `x` when `x` ends with a
/// non-whitespace character.
pub proof fn lemma_trim_end_after(x: Seq<char>, y: Seq<char>)
    requires
        x.len() > 0,
        !is_ws(x.last()),
    ensures
        trim_end(x + y) == x + trim_end(y),
    decreases y.len(),
{
    if y.len() == 0 {
        assert(x + y =~= x);
        assert(x + trim_end(y) =~= x);
    } else {
        assert((x + y).last() == y.last());
        assert((x + y).drop_last() =~= x + y.drop_last());
        if is_ws(y.last()) {
            lemma_trim_end_after(x, y.drop_last());
        }
    }
}

/// Padding with whitespace on both sides does not change the trimmed text.
pub proof fn lemma_trim_pad(w1: Seq<char>, x: Seq<char>, w2: Seq<char>)
    requires
        all_ws(w1),
        all_ws(w2),
    ensures
        trim(w1 + x + w2) == trim(x),
{
    assert(w1 + x + w2 =~= w1 + (x + w2));
    lemma_trim_start_ws_prefix(w1, x + w2);
    if all_ws(x) {
        assert(all_ws(x + w2)) by {
            assert forall|i: int| 0 <= i < (x + w2).len() implies #[trigger] is_ws((x + w2)[i]) by {
                if i < x.len() {
                    assert(is_ws(x[i]));
                } else {
                    assert(is_ws(w2[i - x.len()]));
                }
            }
        }
        lemma_trim_all_ws(x + w2);
        lemma_trim_all_ws(x);
    } else {
        lemma_trim_start_append(x, w2);
        lemma_trim_end_ws_suffix(trim_start(x), w2);
    }
}

/// A text that begins and ends with non-whitespace is its own trim.
pub proof fn lemma_trim_exact(s: Seq<char>)
    requires
        s.len() > 0,
        !is_ws(s[0]),
        !is_ws(s.last()),
    ensures
        trim(s) == s,
{
}

/// `trim_end(v)` is a prefix of `v`, followed only by whitespace.
pub proof fn lemma_trim_end_prefix(v: Seq<char>)
    ensures
        trim_end(v).len() <= v.len(),
        v == trim_end(v) + v.skip(trim_end(v).len() as int),
        all_ws(v.skip(trim_end(v).len() as int)),
    decreases v.len(),
{
    if v.len() > 0 && is_ws(v.last()) {
        let d = v.drop_last();
        lemma_trim_end_prefix(d);
        let t = trim_end(d);
        assert(trim_end(v) == t);
        assert forall|i: int| 0 <= i < t.len() implies v[i] == t[i] by {
            assert(d[i] == (t + d.skip(t.len() as int))[i]);
        }
        assert(v =~= t + v.skip(t.len() as int));
        assert forall|i: int| 0 <= i < v.skip(t.len() as int).len() implies #[trigger] is_ws(
            v.skip(t.len() as int)[i],
        ) by {
            if t.len() + i < d.len() {
                assert(v.skip(t.len() as int)[i] == d.skip(t.len() as int)[i]);
            }
        }
    } else {
        assert(v =~= v + v.skip(v.len() as int));
    }
}

/// Trimming after trimming the end is trimming.
pub proof fn lemma_trim_trim_end(v: Seq<char>)
    ensures
        trim(trim_end(v)) == trim(v),
{
    lemma_trim_end_prefix(v);
    let t = trim_end(v);
    let w = v.skip(t.len() as int);
    lemma_trim_pad(Seq::empty(), t, w);
    assert(Seq::<char>::empty() + t + w =~= v);
}

/// A text with a non-whitespace character trims to a nonempty text.
pub proof fn lemma_trim_nonempty(s: Seq<char>)
    requires
        !all_ws(s),
    ensures
        trim(s).len() > 0,
    decreases s.len(),
{
    lemma_trim_start_append(s, Seq::empty());
    assert(s + Seq::<char>::empty() =~= s);
    lemma_trim_start_front(s);
    let t = trim_start(s);
    lemma_trim_end_keeps_front(t);
}

proof fn lemma_trim_start_front(s: Seq<char>)
    requires
        !all_ws(s),
    ensures
        trim_start(s).len() > 0,
        !is_ws(trim_start(s)[0]),
    decreases s.len(),
{
    if is_ws(s[0]) {
        assert(!all_ws(s.drop_first())) by {
            let i = choose|i: int| 0 <= i < s.len() && !#[trigger] is_ws(s[i]);
            assert(i > 0);
            assert(s.drop_first()[i - 1] == s[i]);
        }
        lemma_trim_start_front(s.drop_first());
    }
}

proof fn lemma_trim_end_keeps_front(t: Seq<char>)
    requires
        t.len() > 0,
        !is_ws(t[0]),
    ensures
        trim_end(t).len() > 0,
    decreases t.len(),
{
    if is_ws(t.last()) {
        assert(t.len() > 1);
        assert(t.drop_last()[0] == t[0]);
        lemma_trim_end_keeps_front(t.drop_last());
    }
}

// ---------------------------------------------------------------------------
// Searching
// ---------------------------------------------------------------------------

/// The first position of `c` in `s`.
pub open spec fn index_of(s: Seq<char>, c: char) -> Option<int>
    decreases s.len(),
{
    if s.len() == 0 {
        None
    } else if s[0] == c {
        Some(0)
    } else {
        match index_of(s.drop_first(), c) {
            Some(k) => Some(k + 1),
            None => None,
        }
    }
}

/// The last position of `c` in `s`.
pub open spec fn last_index_of(s: Seq<char>, c: char) -> Option<int>
    decreases s.len(),
{
    if s.len() == 0 {
        None
    } else if s.last() == c {
        Some(s.len() - 1)
    } else {
        last_index_of(s.drop_last(), c)
    }
}

/// `p` occurs in `s` at position `i`.
pub open spec fn matches_at(s: Seq<char>, p: Seq<char>, i: int) -> bool {
    0 <= i && i + p.len() <= s.len() && s.subrange(i, i + p.len()) == p
}

/// The first position, not before `i`, at which `p` occurs in `s`.
pub open spec fn first_match_from(s: Seq<char>, p: Seq<char>, i: int) -> Option<int>
    decreases s.len() - i,
{
    if i < 0 || i + p.len() > s.len() {
        None
    } else if matches_at(s, p, i) {
        Some(i)
    } else if i < s.len() {
        first_match_from(s, p, i + 1)
    } else {
        None
    }
}

/// `str::find` with a string pattern: the first position at which `p` occurs in `s`.
pub open spec fn find(s: Seq<char>, p: Seq<char>) -> Option<int> {
    first_match_from(s, p, 0)
}

/// `str::contains` with a string pattern.
pub open spec fn contains(s: Seq<char>, p: Seq<char>) -> bool {
    find(s, p) is Some
}

/// `str::starts_with` with a string pattern.
pub open spec fn starts_with(s: Seq<char>, p: Seq<char>) -> bool {
    p.len() <= s.len() && s.take(p.len() as int) == p
}

pub proof fn lemma_index_of(s: Seq<char>, c: char)
    ensures
        match index_of(s, c) {
            Some(k) => 0 <= k < s.len() && s[k] == c && forall|j: int| 0 <= j < k ==> s[j] != c,
            None => forall|j: int| 0 <= j < s.len() ==> s[j] != c,
        },
    decreases s.len(),
{
    if s.len() > 0 && s[0] != c {
        lemma_index_of(s.drop_first(), c);
        assert forall|j: int| 0 < j < s.len() implies s[j] == s.drop_first()[j - 1] by {}
    }
}

pub proof fn lemma_last_index_of(s: Seq<char>, c: char)
    ensures
        match last_index_of(s, c) {
            Some(k) => 0 <= k < s.len() && s[k] == c && forall|j: int| k < j < s.len() ==> s[j]
                != c,
            None => forall|j: int| 0 <= j < s.len() ==> s[j] != c,
        },
    decreases s.len(),
{
    if s.len() > 0 && s.last() != c {
        lemma_last_index_of(s.drop_last(), c);
        assert forall|j: int| 0 <= j < s.len() - 1 implies s[j] == s.drop_last()[j] by {}
    }
}

/// `index_of` is the first position of `c`.
pub proof fn lemma_index_of_is(s: Seq<char>, c: char, k: int)
    requires
        0 <= k < s.len(),
        s[k] == c,
        forall|j: int| 0 <= j < k ==> s[j] != c,
    ensures
        index_of(s, c) == Some(k),
{
    lemma_index_of(s, c);
}

/// `last_index_of` is the last position of `c`.
pub proof fn lemma_last_index_of_is(s: Seq<char>, c: char, k: int)
    requires
        0 <= k < s.len(),
        s[k] == c,
        forall|j: int| k < j < s.len() ==> s[j] != c,
    ensures
        last_index_of(s, c) == Some(k),
{
    lemma_last_index_of(s, c);
}

/// `index_of` finds nothing when `c` does not occur.
pub proof fn lemma_index_of_none(s: Seq<char>, c: char)
    requires
        forall|j: int| 0 <= j < s.len() ==> s[j] != c,
    ensures
        index_of(s, c) is None,
{
    lemma_index_of(s, c);
}

pub proof fn lemma_first_match_from(s: Seq<char>, p: Seq<char>, i: int)
    requires
        0 <= i,
    ensures
        match first_match_from(s, p, i) {
            Some(k) => i <= k && matches_at(s, p, k) && forall|j: int|
                i <= j < k ==> !#[trigger] matches_at(s, p, j),
            None => forall|j: int| i <= j ==> !#[trigger] matches_at(s, p, j),
        },
    decreases s.len() - i,
{
    if i + p.len() > s.len() {
    } else if matches_at(s, p, i) {
    } else if i < s.len() {
        lemma_first_match_from(s, p, i + 1);
    } else {
        assert(p.len() == 0);
        assert(s.subrange(i, i + p.len()) =~= p);
    }
}

/// `find` is the first position at which `p` occurs.
pub proof fn lemma_find(s: Seq<char>, p: Seq<char>)
    ensures
        match find(s, p) {
            Some(k) => matches_at(s, p, k) && forall|j: int|
                0 <= j < k ==> !#[trigger] matches_at(s, p, j),
            None => forall|j: int| !#[trigger] matches_at(s, p, j),
        },
{
    lemma_first_match_from(s, p, 0);
}

pub proof fn lemma_find_is(s: Seq<char>, p: Seq<char>, k: int)
    requires
        matches_at(s, p, k),
        forall|j: int| 0 <= j < k ==> !#[trigger] matches_at(s, p, j),
    ensures
        find(s, p) == Some(k),
{
    lemma_find(s, p);
    match find(s, p) {
        Some(m) => {
            if m < k {
                assert(!matches_at(s, p, m));
            } else if m > k {
                assert(!matches_at(s, p, k));
            }
        },
        None => {
            assert(!matches_at(s, p, k));
        },
    }
}

pub proof fn lemma_find_none(s: Seq<char>, p: Seq<char>)
    requires
        forall|j: int| !#[trigger] matches_at(s, p, j),
    ensures
        find(s, p) is None,
{
    lemma_find(s, p);
    if let Some(m) = find(s, p) {
        assert(!matches_at(s, p, m));
    }
}

/// `o` moved `n` places on.
pub open spec fn shift(o: Option<int>, n: int) -> Option<int> {
    match o {
        Some(k) => Some(k + n),
        None => None,
    }
}

pub proof fn lemma_matches_shift(a: Seq<char>, b: Seq<char>, p: Seq<char>, j: int)
    requires
        0 <= j,
    ensures
        matches_at(a + b, p, j + a.len()) == matches_at(b, p, j),
{
    if j + p.len() <= b.len() {
        assert((a + b).subrange(j + a.len(), j + a.len() + p.len()) =~= b.subrange(j, j + p.len()));
    }
}

/// When `p` does not occur within `a + b` at a position inside `a`, the
/// first occurrence in `a + b` is the first occurrence in `b`, moved on.
pub proof fn lemma_find_shift(a: Seq<char>, b: Seq<char>, p: Seq<char>)
    requires
        forall|j: int| 0 <= j < a.len() ==> !#[trigger] matches_at(a + b, p, j),
    ensures
        find(a + b, p) == shift(find(b, p), a.len() as int),
{
    lemma_find(b, p);
    match find(b, p) {
        Some(k) => {
            lemma_matches_shift(a, b, p, k);
            assert forall|j: int| 0 <= j < k + a.len() implies !#[trigger] matches_at(
                a + b,
                p,
                j,
            ) by {
                if j >= a.len() {
                    lemma_matches_shift(a, b, p, j - a.len());
                    assert(!matches_at(b, p, j - a.len()));
                }
            }
            lemma_find_is(a + b, p, k + a.len());
        },
        None => {
            assert forall|j: int| !#[trigger] matches_at(a + b, p, j) by {
                if j >= a.len() {
                    lemma_matches_shift(a, b, p, j - a.len());
                    assert(!matches_at(b, p, j - a.len()));
                }
            }
            lemma_find_none(a + b, p);
        },
    }
}

/// `p` cannot occur within `a + b` at a position inside `a` when `a` lacks
/// the first character of `p`.
pub proof fn lemma_no_match_without(a: Seq<char>, b: Seq<char>, p: Seq<char>)
    requires
        p.len() > 0,
        forall|i: int| 0 <= i < a.len() ==> a[i] != p[0],
    ensures
        forall|j: int| 0 <= j < a.len() ==> !#[trigger] matches_at(a + b, p, j),
{
    assert forall|j: int| 0 <= j < a.len() implies !#[trigger] matches_at(a + b, p, j) by {
        if matches_at(a + b, p, j) {
            assert((a + b).subrange(j, j + p.len())[0] == p[0]);
            assert((a + b)[j] == a[j]);
        }
    }
}

/// The first position at or after `lo` of `c` in `v[..hi]`, relative to the start of `v`.
pub(crate) fn find_char(v: &Vec<char>, lo: usize, hi: usize, c: char) -> (r: Option<usize>)
    requires
        lo <= hi <= v@.len(),
    ensures
        match index_of(v@.subrange(lo as int, hi as int), c) {
            Some(k) => r == Some((k + lo) as usize),
            None => r is None,
        },
{
    let ghost w = v@.subrange(lo as int, hi as int);
    proof {
        lemma_index_of(w, c);
    }
    let mut i = lo;
    while i < hi
        invariant
            lo <= i <= hi <= v@.len(),
            w == v@.subrange(lo as int, hi as int),
            forall|j: int| lo <= j < i ==> v@[j] != c,
        decreases hi - i,
    {
        if v[i] == c {
            proof {
                assert(w[i - lo] == c);
                assert forall|j: int| 0 <= j < i - lo implies w[j] != c by {
                    assert(w[j] == v@[j + lo]);
                }
                lemma_index_of_is(w, c, i - lo);
            }
            return Some(i);
        }
        i = i + 1;
    }
    proof {
        assert forall|j: int| 0 <= j < w.len() implies w[j] != c by {
            assert(w[j] == v@[j + lo]);
        }
        lemma_index_of_none(w, c);
    }
    None
}

/// The last position of `c` in `v[lo..hi]`, relative to the start of `v`.
pub(crate) fn rfind_char(v: &Vec<char>, lo: usize, hi: usize, c: char) -> (r: Option<usize>)
    requires
        lo <= hi <= v@.len(),
    ensures
        match last_index_of(v@.subrange(lo as int, hi as int), c) {
            Some(k) => r == Some((k + lo) as usize),
            None => r is None,
        },
{
    let ghost w = v@.subrange(lo as int, hi as int);
    let mut i = hi;
    while i > lo
        invariant
            lo <= i <= hi <= v@.len(),
            w == v@.subrange(lo as int, hi as int),
            last_index_of(w, c) == last_index_of(v@.subrange(lo as int, i as int), c),
        decreases i - lo,
    {
        let ghost cur = v@.subrange(lo as int, i as int);
        if v[i - 1] == c {
            return Some(i - 1);
        }
        assert(cur.drop_last() =~= v@.subrange(lo as int, i - 1));
        i = i - 1;
    }
    None
}

/// Whether `pat` occurs in `hay` at position `i`.
pub(crate) fn matches_at_exec(hay: &Vec<char>, pat: &Vec<char>, i: usize) -> (b: bool)
    ensures
        b == matches_at(hay@, pat@, i as int),
{
    if pat.len() > hay.len() || i > hay.len() - pat.len() {
        return false;
    }
    let hl = hay.len();
    let mut k: usize = 0;
    while k < pat.len()
        invariant
            hl == hay@.len(),
            i + pat@.len() <= hay@.len(),
            k <= pat@.len(),
            forall|j: int| 0 <= j < k ==> hay@[i + j] == pat@[j],
        decreases pat@.len() - k,
    {
        if hay[i + k] != pat[k] {
            proof {
                assert(hay@.subrange(i as int, i + pat@.len())[k as int] != pat@[k as int]);
            }
            return false;
        }
        k = k + 1;
    }
    assert(hay@.subrange(i as int, i + pat@.len()) =~= pat@);
    true
}

/// The first position at or after `lo` at which `pat` occurs in `hay`.
pub(crate) fn find_from_exec(hay: &Vec<char>, pat: &Vec<char>, lo: usize) -> (r: Option<usize>)
    requires
        lo <= hay@.len(),
    ensures
        match r {
            Some(i) => first_match_from(hay@, pat@, lo as int) == Some(i as int) && matches_at(
                hay@,
                pat@,
                i as int,
            ),
            None => first_match_from(hay@, pat@, lo as int) is None,
        },
{
    proof {
        lemma_first_match_from(hay@, pat@, lo as int);
    }
    let n = hay.len();
    let mut i = lo;
    loop
        invariant
            lo <= i <= n,
            n == hay@.len(),
            forall|j: int| lo <= j < i ==> !#[trigger] matches_at(hay@, pat@, j),
        decreases n - i,
    {
        if matches_at_exec(hay, pat, i) {
            proof {
                lemma_first_match_from(hay@, pat@, lo as int);
                let m = first_match_from(hay@, pat@, lo as int);
                match m {
                    Some(k) => {
                        if k < i {
                            assert(!matches_at(hay@, pat@, k));
                        } else if k > i {
                            assert(!matches_at(hay@, pat@, i as int));
                        }
                    },
                    None => {
                        assert(!matches_at(hay@, pat@, i as int));
                    },
                }
            }
            return Some(i);
        }
        if i == n {
            proof {
                lemma_first_match_from(hay@, pat@, lo as int);
                if let Some(k) = first_match_from(hay@, pat@, lo as int) {
                    assert(matches_at(hay@, pat@, k));
                    if k < i {
                        assert(!matches_at(hay@, pat@, k));
                    }
                }
            }
            return None;
        }
        i = i + 1;
    }
}

/// Whether `s` starts with `p`.
pub(crate) fn starts_with_exec(s: &Vec<char>, p: &Vec<char>) -> (b: bool)
    ensures
        b == starts_with(s@, p@),
{
    let b = matches_at_exec(s, p, 0);
    proof {
        if p@.len() <= s@.len() {
            assert(s@.take(p@.len() as int) =~= s@.subrange(0, p@.len() as int));
        }
    }
    b
}

/// Whether `p` occurs in `s`.
pub(crate) fn contains_exec(s: &Vec<char>, p: &Vec<char>) -> (b: bool)
    ensures
        b == contains(s@, p@),
{
    find_from_exec(s, p, 0).is_some()
}

// ---------------------------------------------------------------------------
// Ordering
// ---------------------------------------------------------------------------

/// `a` comes before `b` in the order of `str`'s `Ord`: character by
/// character by code point, a proper prefix first.
pub open spec fn lex_less(a: Seq<char>, b: Seq<char>) -> bool
    decreases a.len(),
{
    if b.len() == 0 {
        false
    } else if a.len() == 0 {
        true
    } else if a[0] != b[0] {
        a[0] < b[0]
    } else {
        lex_less(a.drop_first(), b.drop_first())
    }
}

/// No text comes before itself.
pub proof fn lemma_lex_less_irreflexive(a: Seq<char>)
    ensures
        !lex_less(a, a),
    decreases a.len(),
{
    if a.len() > 0 {
        lemma_lex_less_irreflexive(a.drop_first());
    }
}

/// Of two different texts, one comes before the other, and not both ways.
pub proof fn lemma_lex_less_total(a: Seq<char>, b: Seq<char>)
    ensures
        a != b ==> lex_less(a, b) || lex_less(b, a),
        !(lex_less(a, b) && lex_less(b, a)),
    decreases a.len(),
{
    if a.len() > 0 && b.len() > 0 && a[0] == b[0] {
        lemma_lex_less_total(a.drop_first(), b.drop_first());
        if a.drop_first() == b.drop_first() {
            assert(a =~= b) by {
                assert forall|i: int| 0 < i < a.len() implies a[i] == b[i] by {
                    assert(a[i] == a.drop_first()[i - 1]);
                    assert(b[i] == b.drop_first()[i - 1]);
                }
            }
        }
    } else if a.len() == 0 && b.len() == 0 {
        assert(a =~= b);
    }
}

/// The order is transitive.
pub proof fn lemma_lex_less_transitive(a: Seq<char>, b: Seq<char>, c: Seq<char>)
    requires
        lex_less(a, b),
        lex_less(b, c),
    ensures
        lex_less(a, c),
    decreases a.len(),
{
    if a.len() > 0 && a[0] == b[0] && b[0] == c[0] {
        lemma_lex_less_transitive(a.drop_first(), b.drop_first(), c.drop_first());
    }
}

/// Whether `a` comes before `b` (`str`'s `<`).
pub(crate) fn lex_less_chars(a: &Vec<char>, b: &Vec<char>) -> (r: bool)
    ensures
        r == lex_less(a@, b@),
{
    let mut i: usize = 0;
    assert(a@.skip(0) =~= a@);
    assert(b@.skip(0) =~= b@);
    while i < a.len() && i < b.len()
        invariant
            i <= a@.len(),
            i <= b@.len(),
            lex_less(a@, b@) == lex_less(a@.skip(i as int), b@.skip(i as int)),
        decreases a@.len() - i,
    {
        let x = a[i];
        let y = b[i];
        assert(a@.skip(i as int)[0] == x);
        assert(b@.skip(i as int)[0] == y);
        if x != y {
            return x < y;
        }
        assert(a@.skip(i as int).drop_first() =~= a@.skip(i + 1));
        assert(b@.skip(i as int).drop_first() =~= b@.skip(i + 1));
        i = i + 1;
    }
    i < b.len()
}

// ---------------------------------------------------------------------------
// ASCII case
// ---------------------------------------------------------------------------

/// `char::to_ascii_uppercase`.
pub open spec fn upper_char(c: char) -> char {
    if 'a' <= c && c <= 'z' {
        ((c as u32) - 32) as char
    } else {
        c
    }
}

/// `char::to_ascii_lowercase`.
pub open spec fn lower_char(c: char) -> char {
    if 'A' <= c && c <= 'Z' {
        ((c as u32) + 32) as char
    } else {
        c
    }
}

/// `str::to_ascii_uppercase`.
pub open spec fn upper(s: Seq<char>) -> Seq<char> {
    s.map_values(|c: char| upper_char(c))
}

/// `str::to_ascii_lowercase`.
pub open spec fn lower(s: Seq<char>) -> Seq<char> {
    s.map_values(|c: char| lower_char(c))
}

/// `str::eq_ignore_ascii_case`.
pub open spec fn eq_ignore_case(a: Seq<char>, b: Seq<char>) -> bool {
    lower(a) == lower(b)
}

pub(crate) fn to_upper_char(c: char) -> (r: char)
    ensures
        r == upper_char(c),
{
    if 'a' <= c && c <= 'z' {
        let b = (c as u32) - 32;
        assert(0x41 <= b <= 0x5a);
        char_from_ascii(b as u8)
    } else {
        c
    }
}

pub(crate) fn to_lower_char(c: char) -> (r: char)
    ensures
        r == lower_char(c),
{
    if 'A' <= c && c <= 'Z' {
        let b = (c as u32) + 32;
        assert(0x61 <= b <= 0x7a);
        char_from_ascii(b as u8)
    } else {
        c
    }
}

/// The character with ASCII code `b`.
pub(crate) fn char_from_ascii(b: u8) -> (c: char)
    requires
        b < 128,
    ensures
        c == (b as u32) as char,
        c as u32 == b as u32,
{
    b as char
}

/// Whether `a` and `b` are equal ignoring ASCII case.
pub(crate) fn eq_ignore_case_exec(a: &Vec<char>, b: &Vec<char>) -> (r: bool)
    ensures
        r == eq_ignore_case(a@, b@),
{
    if a.len() != b.len() {
        proof {
            assert(lower(a@).len() != lower(b@).len());
        }
        return false;
    }
    let mut i: usize = 0;
    while i < a.len()
        invariant
            a@.len() == b@.len(),
            i <= a@.len(),
            forall|j: int| 0 <= j < i ==> lower_char(a@[j]) == lower_char(b@[j]),
        decreases a@.len() - i,
    {
        if to_lower_char(a[i]) != to_lower_char(b[i]) {
            proof {
                assert(lower(a@)[i as int] != lower(b@)[i as int]);
            }
            return false;
        }
        i = i + 1;
    }
    assert(lower(a@) =~= lower(b@));
    true
}

// ---------------------------------------------------------------------------
// Decimal numbers
// ---------------------------------------------------------------------------

/// The ASCII digit for `d < 10`.
pub open spec fn digit_char(d: nat) -> char {
    (('0' as u32) + d) as char
}

/// The decimal representation of `n`, as `u64`'s `Display` writes it.
pub open spec fn decimal(n: nat) -> Seq<char>
    decreases n,
{
    if n < 10 {
        seq![digit_char(n)]
    } else {
        decimal(n / 10).push(digit_char(n % 10))
    }
}

pub open spec fn is_digit(c: char) -> bool {
    '0' <= c && c <= '9'
}

/// The value of a string of decimal digits.
pub open spec fn digits_value(s: Seq<char>) -> nat
    decreases s.len(),
{
    if s.len() == 0 {
        0
    } else {
        digits_value(s.drop_last()) * 10 + ((s.last() as u32) - ('0' as u32)) as nat
    }
}

/// The decimal representation is a nonempty string of digits without leading zero.
pub proof fn lemma_decimal_digits(n: nat)
    ensures
        decimal(n).len() > 0,
        forall|i: int| 0 <= i < decimal(n).len() ==> #[trigger] is_digit(decimal(n)[i]),
        digits_value(decimal(n)) == n,
    decreases n,
{
    let d = n % 10;
    assert((digit_char(d) as u32) == ('0' as u32) + d);
    if n >= 10 {
        lemma_decimal_digits(n / 10);
        assert(decimal(n).drop_last() =~= decimal(n / 10));
        assert(decimal(n).last() == digit_char(d));
        assert((n / 10) * 10 + d == n);
    } else {
        assert(decimal(n).drop_last() =~= Seq::<char>::empty());
    }
    assert(digits_value(decimal(n)) == digits_value(decimal(n).drop_last()) * 10 + ((
    decimal(n).last() as u32) - ('0' as u32)) as nat);
}

/// Appends the decimal representation of `n` to `out`.
pub(crate) fn push_decimal(out: &mut String, n: u64)
    ensures
        final(out)@ == old(out)@ + decimal(n as nat),
    decreases n,
{
    if n >= 10 {
        push_decimal(out, n / 10);
    }
    let d = (n % 10) as u8;
    let c = char_from_ascii(48 + d);
    push_char(out, c);
    proof {
        if n >= 10 {
            assert(decimal(n as nat) == decimal((n / 10) as nat).push(digit_char((n % 10) as nat)));
        }
    }
    assert(final(out)@ =~= old(out)@ + decimal(n as nat)) by {
        if n < 10 {
            assert(decimal(n as nat) =~= seq![digit_char(n as nat)]);
        }
    }
}

// ---------------------------------------------------------------------------
// Building strings
// ---------------------------------------------------------------------------

/// Appends `c` to `s` (`String::push`).
///
/// Trusted: the contract says that `String::push` appends exactly the one
/// character to the string's contents, as its documentation states.
#[verifier::external_body]
pub(crate) fn push_char(s: &mut String, c: char)
    ensures
        final(s)@ == old(s)@.push(c),
{
    s.push(c)
}

/// The text that `String::from_utf8_lossy` makes of `bytes`: their UTF-8
/// decoding, with each invalid sequence replaced by U+FFFD.
pub uninterp spec fn utf8_lossy(bytes: Seq<u8>) -> Seq<char>;

/// Decodes `bytes` as UTF-8, replacing invalid sequences
/// (`String::from_utf8_lossy`).
///
/// Trusted: the contract names the result `utf8_lossy(bytes)`, and states the
/// documented fact that bytes that are valid UTF-8 decode to exactly their
/// characters. How invalid sequences are replaced is left unsaid.
#[verifier::external_body]
pub(crate) fn decode_utf8_lossy(bytes: &[u8]) -> (s: String)
    ensures
        s@ == utf8_lossy(bytes@),
        valid_utf8(bytes@) ==> s@ == decode_utf8(bytes@),
{
    String::from_utf8_lossy(bytes).into_owned()
}

/// The characters of a string slice, in order.
pub(crate) fn chars_of(s: &str) -> (res: Vec<char>)
    ensures
        res@ == s@,
{
    let mut out: Vec<char> = Vec::new();
    for c in it: s.chars()
        invariant
            out@ == it.seq().take(it.index() as int),
            it.seq() == s@,
    {
        out.push(c);
    }
    out
}

/// A string made of `v[lo..hi]`.
pub(crate) fn string_of(v: &Vec<char>, lo: usize, hi: usize) -> (s: String)
    requires
        lo <= hi <= v@.len(),
    ensures
        s@ == v@.subrange(lo as int, hi as int),
{
    let mut s = String::new();
    let mut i = lo;
    while i < hi
        invariant
            lo <= i <= hi <= v@.len(),
            s@ == v@.subrange(lo as int, i as int),
        decreases hi - i,
    {
        push_char(&mut s, v[i]);
        assert(s@ =~= v@.subrange(lo as int, i + 1));
        i = i + 1;
    }
    s
}

/// A string made of `v[lo..hi]` in ASCII upper case.
pub(crate) fn upper_string_of(v: &Vec<char>, lo: usize, hi: usize) -> (s: String)
    requires
        lo <= hi <= v@.len(),
    ensures
        s@ == upper(v@.subrange(lo as int, hi as int)),
{
    let mut s = String::new();
    let mut i = lo;
    while i < hi
        invariant
            lo <= i <= hi <= v@.len(),
            s@ == upper(v@.subrange(lo as int, i as int)),
        decreases hi - i,
    {
        let c = to_upper_char(v[i]);
        push_char(&mut s, c);
        assert(s@ =~= upper(v@.subrange(lo as int, i + 1)));
        i = i + 1;
    }
    s
}

/// Whether two character vectors hold the same characters.
pub(crate) fn same_chars(a: &Vec<char>, b: &Vec<char>) -> (r: bool)
    ensures
        r == (a@ == b@),
{
    if a.len() != b.len() {
        return false;
    }
    let mut i: usize = 0;
    while i < a.len()
        invariant
            a@.len() == b@.len(),
            i <= a@.len(),
            forall|j: int| 0 <= j < i ==> a@[j] == b@[j],
        decreases a@.len() - i,
    {
        if a[i] != b[i] {
            return false;
        }
        i = i + 1;
    }
    assert(a@ =~= b@);
    true
}

} // verus!
