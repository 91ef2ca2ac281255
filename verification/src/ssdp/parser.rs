//! Parsing of SSDP messages: a start line followed by `Name: value` header
//! lines, up to the first empty line.
use vstd::prelude::*;

use crate::text::{
    chars_of, find_char, index_of, lemma_index_of, lemma_lex_less_irreflexive,
    lemma_lex_less_total, lemma_lex_less_transitive, lex_less, lex_less_chars, same_chars,
    string_of, trim, trim_bounds, upper, upper_string_of,
};

verus! {

// ---------------------------------------------------------------------------
// The model
// ---------------------------------------------------------------------------

/// What a parsed message holds: its start line and its headers, keyed by
/// upper-case name.
pub struct MessageView {
    pub start_line: Seq<char>,
    pub headers: Map<Seq<char>, Seq<char>>,
}

/// Why a message was refused.
pub enum ParseFailure {
    EmptyMessage,
    MissingStartLine,
    InvalidHeaderLine(Seq<char>),
}

/// The first line of `s`: everything before the first `'\n'`.
pub open spec fn line_of(s: Seq<char>) -> Seq<char> {
    match index_of(s, '\n') {
        Some(k) => s.take(k),
        None => s,
    }
}

/// Everything after the first `'\n'` of `s` (empty when there is none).
pub open spec fn after_line(s: Seq<char>) -> Seq<char> {
    match index_of(s, '\n') {
        Some(k) => s.skip(k + 1),
        None => Seq::empty(),
    }
}

/// `s` has no line break.
pub open spec fn single_line(s: Seq<char>) -> bool {
    forall|i: int| 0 <= i < s.len() ==> s[i] != '\n'
}

/// A token character of an HTTP header name (RFC 9110 `tchar`).
pub open spec fn is_tchar(c: char) -> bool {
    ||| ('0' <= c && c <= '9')
    ||| ('a' <= c && c <= 'z')
    ||| ('A' <= c && c <= 'Z')
    ||| c == '!'
    ||| c == '#'
    ||| c == '$'
    ||| c == '%'
    ||| c == '&'
    ||| c == '\''
    ||| c == '*'
    ||| c == '+'
    ||| c == '-'
    ||| c == '.'
    ||| c == '^'
    ||| c == '_'
    ||| c == '`'
    ||| c == '|'
    ||| c == '~'
}

/// A header name is a nonempty string of token characters.
pub open spec fn valid_header_name(s: Seq<char>) -> bool {
    s.len() > 0 && forall|i: int| 0 <= i < s.len() ==> #[trigger] is_tchar(s[i])
}

/// The (upper-case name, value) pair that a trimmed, nonempty header line
/// gives, if it is well formed: a valid name, a colon, then the value.
pub open spec fn header_entry(line: Seq<char>) -> Option<(Seq<char>, Seq<char>)> {
    match index_of(line, ':') {
        None => None,
        Some(j) => {
            let name = trim(line.take(j));
            if valid_header_name(name) {
                Some((upper(name), trim(line.skip(j + 1))))
            } else {
                None
            }
        },
    }
}

/// The headers that the lines of `rest` add to `acc`, up to the first blank
/// line or the end; or the first malformed line (trimmed).
pub open spec fn header_lines(rest: Seq<char>, acc: Map<Seq<char>, Seq<char>>) -> Result<
    Map<Seq<char>, Seq<char>>,
    Seq<char>,
>
    decreases rest.len(),
{
    if rest.len() == 0 {
        Ok(acc)
    } else {
        let line = trim(line_of(rest));
        if line.len() == 0 {
            Ok(acc)
        } else {
            match header_entry(line) {
                None => Err(line),
                Some(e) => {
                    proof {
                        lemma_index_of(rest, '\n');
                    }
                    header_lines(after_line(rest), acc.insert(e.0, e.1))
                },
            }
        }
    }
}

/// What `parse_message` gives for a message text `raw`.
pub open spec fn spec_parse_message(raw: Seq<char>) -> Result<MessageView, ParseFailure> {
    if trim(raw).len() == 0 {
        Err(ParseFailure::EmptyMessage)
    } else {
        let start = trim(line_of(raw));
        if start.len() == 0 {
            Err(ParseFailure::MissingStartLine)
        } else {
            match header_lines(after_line(raw), Map::empty()) {
                Ok(h) => Ok(MessageView { start_line: start, headers: h }),
                Err(line) => Err(ParseFailure::InvalidHeaderLine(line)),
            }
        }
    }
}

// ---------------------------------------------------------------------------
// Header map
// ---------------------------------------------------------------------------

/// The map that a list of (name, value) entries stands for.
pub open spec fn entries_map(es: Seq<(String, String)>) -> Map<Seq<char>, Seq<char>>
    decreases es.len(),
{
    if es.len() == 0 {
        Map::empty()
    } else {
        entries_map(es.drop_last()).insert(es.last().0@, es.last().1@)
    }
}

/// No two entries have the same name.
pub open spec fn distinct_names(es: Seq<(String, String)>) -> bool {
    forall|i: int, j: int| 0 <= i < j < es.len() ==> es[i].0@ != es[j].0@
}

proof fn lemma_entries_map_lookup(es: Seq<(String, String)>, i: int)
    requires
        distinct_names(es),
        0 <= i < es.len(),
    ensures
        entries_map(es).contains_key(es[i].0@),
        entries_map(es)[es[i].0@] == es[i].1@,
    decreases es.len(),
{
    if i < es.len() - 1 {
        let d = es.drop_last();
        assert(d[i] == es[i]);
        assert(distinct_names(d));
        lemma_entries_map_lookup(d, i);
        assert(es.last().0@ != es[i].0@);
    }
}

proof fn lemma_entries_map_absent(es: Seq<(String, String)>, k: Seq<char>)
    requires
        forall|i: int| 0 <= i < es.len() ==> es[i].0@ != k,
    ensures
        !entries_map(es).contains_key(k),
    decreases es.len(),
{
    if es.len() > 0 {
        let d = es.drop_last();
        assert forall|i: int| 0 <= i < d.len() implies d[i].0@ != k by {
            assert(d[i] == es[i]);
        }
        lemma_entries_map_absent(d, k);
    }
}

proof fn lemma_entries_map_update(es: Seq<(String, String)>, i: int, e: (String, String))
    requires
        distinct_names(es),
        0 <= i < es.len(),
        e.0@ == es[i].0@,
    ensures
        entries_map(es.update(i, e)) == entries_map(es).insert(e.0@, e.1@),
    decreases es.len(),
{
    let u = es.update(i, e);
    if i == es.len() - 1 {
        assert(u.drop_last() =~= es.drop_last());
        lemma_entries_map_absent(es.drop_last(), e.0@);
        assert(entries_map(u) =~= entries_map(es).insert(e.0@, e.1@));
    } else {
        let d = es.drop_last();
        assert(distinct_names(d));
        lemma_entries_map_update(d, i, e);
        assert(u.drop_last() =~= d.update(i, e));
        assert(es.last().0@ != e.0@);
        assert(entries_map(u) =~= entries_map(es).insert(e.0@, e.1@));
    }
}

proof fn lemma_entries_map_same_views(a: Seq<(String, String)>, b: Seq<(String, String)>)
    requires
        a.len() == b.len(),
        forall|i: int| 0 <= i < a.len() ==> a[i].0@ == b[i].0@ && a[i].1@ == b[i].1@,
    ensures
        entries_map(a) == entries_map(b),
    decreases a.len(),
{
    if a.len() > 0 {
        lemma_entries_map_same_views(a.drop_last(), b.drop_last());
    }
}

/// The entries are in strictly increasing order of name.
pub open spec fn sorted_names(es: Seq<(String, String)>) -> bool {
    forall|i: int, j: int| 0 <= i < j < es.len() ==> lex_less(es[i].0@, es[j].0@)
}

proof fn lemma_sorted_distinct(es: Seq<(String, String)>)
    requires
        sorted_names(es),
    ensures
        distinct_names(es),
{
    assert forall|i: int, j: int| 0 <= i < j < es.len() implies es[i].0@ != es[j].0@ by {
        lemma_lex_less_irreflexive(es[i].0@);
    }
}

proof fn lemma_entries_map_insert(es: Seq<(String, String)>, p: int, e: (String, String))
    requires
        0 <= p <= es.len(),
        forall|i: int| 0 <= i < es.len() ==> es[i].0@ != e.0@,
    ensures
        entries_map(es.insert(p, e)) == entries_map(es).insert(e.0@, e.1@),
    decreases es.len(),
{
    let s = es.insert(p, e);
    if p == es.len() {
        assert(s.drop_last() =~= es);
    } else {
        let d = es.drop_last();
        assert(s.drop_last() =~= d.insert(p, e));
        assert(s.last() == es.last());
        assert forall|i: int| 0 <= i < d.len() implies d[i].0@ != e.0@ by {
            assert(d[i] == es[i]);
        }
        lemma_entries_map_insert(d, p, e);
        assert(es.last().0@ != e.0@);
        assert(entries_map(s) =~= entries_map(es).insert(e.0@, e.1@));
    }
}

proof fn lemma_entries_map_len(es: Seq<(String, String)>)
    requires
        distinct_names(es),
    ensures
        entries_map(es).dom().finite(),
        entries_map(es).dom().len() == es.len(),
    decreases es.len(),
{
    if es.len() > 0 {
        let d = es.drop_last();
        assert(distinct_names(d));
        lemma_entries_map_len(d);
        assert forall|i: int| 0 <= i < d.len() implies d[i].0@ != es.last().0@ by {
            assert(d[i] == es[i]);
        }
        lemma_entries_map_absent(d, es.last().0@);
    }
}

/// Header values keyed by header name; a name occurs at most once, and the
/// entries are kept in increasing order of name.
#[derive(Debug)]
pub struct HeaderMap {
    entries: Vec<(String, String)>,
}

impl View for HeaderMap {
    type V = Map<Seq<char>, Seq<char>>;

    closed spec fn view(&self) -> Map<Seq<char>, Seq<char>> {
        entries_map(self.entries@)
    }
}

impl HeaderMap {
    #[verifier::type_invariant]
    spec fn names_sorted(self) -> bool {
        sorted_names(self.entries@)
    }

    /// An empty map.
    pub fn new() -> (m: HeaderMap)
        ensures
            m@ == Map::<Seq<char>, Seq<char>>::empty(),
    {
        HeaderMap { entries: Vec::new() }
    }

    /// The position of the entry named `name`.
    fn position(&self, name: &Vec<char>) -> (r: Option<usize>)
        ensures
            match r {
                Some(i) => i < self.entries@.len() && self.entries@[i as int].0@ == name@,
                None => forall|i: int| 0 <= i < self.entries@.len() ==> self.entries@[i].0@ != name@,
            },
    {
        let mut i: usize = 0;
        while i < self.entries.len()
            invariant
                i <= self.entries@.len(),
                forall|j: int| 0 <= j < i ==> self.entries@[j].0@ != name@,
            decreases self.entries@.len() - i,
        {
            let key = chars_of(self.entries[i].0.as_str());
            if same_chars(&key, name) {
                return Some(i);
            }
            i = i + 1;
        }
        None
    }

    /// The first position whose name does not come before `name`.
    fn lower_bound(&self, name: &Vec<char>) -> (p: usize)
        ensures
            p <= self.entries@.len(),
            forall|j: int| 0 <= j < p ==> lex_less(#[trigger] self.entries@[j].0@, name@),
            p < self.entries@.len() ==> !lex_less(self.entries@[p as int].0@, name@),
    {
        let mut p: usize = 0;
        while p < self.entries.len()
            invariant
                p <= self.entries@.len(),
                forall|j: int| 0 <= j < p ==> lex_less(#[trigger] self.entries@[j].0@, name@),
            decreases self.entries@.len() - p,
        {
            let k = chars_of(self.entries[p].0.as_str());
            if !lex_less_chars(&k, name) {
                return p;
            }
            p = p + 1;
        }
        p
    }

    /// Sets the value of `name` to `value`, replacing any earlier value.
    pub fn insert(&mut self, name: String, value: String)
        ensures
            final(self)@ == old(self)@.insert(name@, value@),
    {
        proof {
            use_type_invariant(&*self);
            lemma_sorted_distinct(self.entries@);
        }
        let key = chars_of(name.as_str());
        let p = self.lower_bound(&key);
        let mut es: Vec<(String, String)> = Vec::new();
        std::mem::swap(&mut es, &mut self.entries);
        let ghost old_es = es@;
        let found = p < es.len() && same_chars(&chars_of(es[p].0.as_str()), &key);
        if found {
            proof {
                lemma_entries_map_update(old_es, p as int, (name, value));
            }
            es.set(p, (name, value));
            assert(es@ == old_es.update(p as int, (name, value)));
            assert(sorted_names(es@)) by {
                assert forall|i: int, j: int| 0 <= i < j < es@.len() implies lex_less(
                    es@[i].0@,
                    es@[j].0@,
                ) by {
                    assert(es@[i].0@ == old_es[i].0@);
                    assert(es@[j].0@ == old_es[j].0@);
                }
            }
        } else {
            let e = (name, value);
            proof {
                assert forall|j: int| p <= j < old_es.len() implies lex_less(
                    key@,
                    #[trigger] old_es[j].0@,
                ) by {
                    lemma_lex_less_total(old_es[p as int].0@, key@);
                    if j > p {
                        lemma_lex_less_transitive(key@, old_es[p as int].0@, old_es[j].0@);
                    }
                }
                assert forall|j: int| 0 <= j < old_es.len() implies old_es[j].0@ != e.0@ by {
                    lemma_lex_less_irreflexive(key@);
                }
                lemma_entries_map_insert(old_es, p as int, e);
                old_es.insert_ensures(p as int, e);
            }
            es.insert(p, e);
            assert(sorted_names(es@)) by {
                assert forall|i: int, j: int| 0 <= i < j < es@.len() implies lex_less(
                    es@[i].0@,
                    es@[j].0@,
                ) by {
                    if j < p {
                    } else if j == p {
                    } else if i < p {
                        assert(es@[j] == old_es[j - 1]);
                    } else if i == p {
                        assert(es@[j] == old_es[j - 1]);
                    } else {
                        assert(es@[i] == old_es[i - 1]);
                        assert(es@[j] == old_es[j - 1]);
                    }
                }
            }
        }
        self.entries = es;
    }

    /// The value of the header `name`, if there is one.
    pub fn get(&self, name: &str) -> (r: Option<&String>)
        ensures
            match r {
                Some(v) => self@.contains_key(name@) && self@[name@] == v@,
                None => !self@.contains_key(name@),
            },
    {
        proof {
            use_type_invariant(self);
            lemma_sorted_distinct(self.entries@);
        }
        let key = chars_of(name);
        match self.position(&key) {
            Some(i) => {
                proof {
                    lemma_entries_map_lookup(self.entries@, i as int);
                }
                Some(&self.entries[i].1)
            },
            None => {
                proof {
                    lemma_entries_map_absent(self.entries@, name@);
                }
                None
            },
        }
    }

    /// Whether there is a header `name`.
    pub fn contains_key(&self, name: &str) -> (r: bool)
        ensures
            r == self@.contains_key(name@),
    {
        self.get(name).is_some()
    }

    /// The number of headers.
    pub fn len(&self) -> (r: usize)
        ensures
            r == self@.len(),
    {
        proof {
            use_type_invariant(self);
            lemma_sorted_distinct(self.entries@);
            lemma_entries_map_len(self.entries@);
        }
        self.entries.len()
    }

    /// Whether there are no headers.
    pub fn is_empty(&self) -> (r: bool)
        ensures
            r == (self@.len() == 0),
    {
        self.len() == 0
    }

    /// The headers as (name, value) pairs, in increasing order of name: each
    /// header exactly once.
    pub fn entries(&self) -> (r: Vec<(String, String)>)
        ensures
            sorted_names(r@),
            forall|i: int|
                0 <= i < r@.len() ==> self@.contains_key(#[trigger] r@[i].0@) && self@[r@[i].0@]
                    == r@[i].1@,
            forall|k: Seq<char>|
                #[trigger] self@.contains_key(k) ==> exists|i: int|
                    0 <= i < r@.len() && r@[i].0@ == k,
    {
        proof {
            use_type_invariant(self);
            lemma_sorted_distinct(self.entries@);
        }
        let mut out: Vec<(String, String)> = Vec::new();
        let mut i: usize = 0;
        while i < self.entries.len()
            invariant
                i <= self.entries@.len(),
                out@.len() == i,
                forall|j: int|
                    0 <= j < i ==> out@[j].0@ == self.entries@[j].0@ && out@[j].1@
                        == self.entries@[j].1@,
            decreases self.entries@.len() - i,
        {
            let k = self.entries[i].0.clone();
            let v = self.entries[i].1.clone();
            out.push((k, v));
            i = i + 1;
        }
        proof {
            assert forall|a: int, b: int| 0 <= a < b < out@.len() implies lex_less(
                out@[a].0@,
                out@[b].0@,
            ) by {
                assert(lex_less(self.entries@[a].0@, self.entries@[b].0@));
            }
            assert forall|j: int| 0 <= j < out@.len() implies self@.contains_key(
                #[trigger] out@[j].0@,
            ) && self@[out@[j].0@] == out@[j].1@ by {
                lemma_entries_map_lookup(self.entries@, j);
            }
            assert forall|k: Seq<char>| #[trigger] self@.contains_key(k) implies exists|j: int|
                0 <= j < out@.len() && out@[j].0@ == k by {
                let j = lemma_entries_map_has(self.entries@, k);
                assert(out@[j].0@ == k);
            }
        }
        out
    }
}

impl Clone for HeaderMap {
    fn clone(&self) -> (r: HeaderMap)
        ensures
            r@ == self@,
    {
        proof {
            use_type_invariant(self);
            lemma_sorted_distinct(self.entries@);
        }
        let mut out: Vec<(String, String)> = Vec::new();
        let mut i: usize = 0;
        while i < self.entries.len()
            invariant
                i <= self.entries@.len(),
                distinct_names(self.entries@),
                sorted_names(self.entries@),
                out@.len() == i,
                forall|j: int|
                    0 <= j < i ==> out@[j].0@ == self.entries@[j].0@ && out@[j].1@
                        == self.entries@[j].1@,
            decreases self.entries@.len() - i,
        {
            let k = self.entries[i].0.clone();
            let v = self.entries[i].1.clone();
            out.push((k, v));
            i = i + 1;
        }
        proof {
            lemma_entries_map_same_views(out@, self.entries@);
            assert forall|a: int, b: int| 0 <= a < b < out@.len() implies lex_less(
                out@[a].0@,
                out@[b].0@,
            ) by {
                assert(lex_less(self.entries@[a].0@, self.entries@[b].0@));
            }
        }
        HeaderMap { entries: out }
    }
}

proof fn lemma_entries_map_has(es: Seq<(String, String)>, k: Seq<char>) -> (i: int)
    requires
        entries_map(es).contains_key(k),
    ensures
        0 <= i < es.len(),
        es[i].0@ == k,
{
    if forall|i: int| 0 <= i < es.len() ==> es[i].0@ != k {
        lemma_entries_map_absent(es, k);
    }
    choose|i: int| 0 <= i < es.len() && es[i].0@ == k
}

impl HeaderMap {
    /// Whether every entry of `self` is in `other` with the same value.
    fn entries_within(&self, other: &HeaderMap) -> (r: bool)
        ensures
            r == forall|k: Seq<char>| #[trigger]
                self@.contains_key(k) ==> other@.contains_key(k) && other@[k] == self@[k],
    {
        proof {
            use_type_invariant(self);
            use_type_invariant(other);
            lemma_sorted_distinct(self.entries@);
            lemma_sorted_distinct(other.entries@);
        }
        let mut i: usize = 0;
        while i < self.entries.len()
            invariant
                i <= self.entries@.len(),
                distinct_names(self.entries@),
                distinct_names(other.entries@),
                forall|j: int|
                    0 <= j < i ==> other@.contains_key(#[trigger] self.entries@[j].0@)
                        && other@[self.entries@[j].0@] == self.entries@[j].1@,
            decreases self.entries@.len() - i,
        {
            let key = chars_of(self.entries[i].0.as_str());
            proof {
                lemma_entries_map_lookup(self.entries@, i as int);
            }
            match other.position(&key) {
                None => {
                    proof {
                        lemma_entries_map_absent(other.entries@, key@);
                        assert(self@.contains_key(key@) && !other@.contains_key(key@));
                    }
                    return false;
                },
                Some(j) => {
                    proof {
                        lemma_entries_map_lookup(other.entries@, j as int);
                    }
                    let mine = chars_of(self.entries[i].1.as_str());
                    let theirs = chars_of(other.entries[j].1.as_str());
                    if !same_chars(&mine, &theirs) {
                        assert(self@.contains_key(key@) && other@[key@] != self@[key@]);
                        return false;
                    }
                },
            }
            i = i + 1;
        }
        proof {
            assert forall|k: Seq<char>| #[trigger]
                self@.contains_key(k) implies other@.contains_key(k) && other@[k] == self@[k] by {
                let j = lemma_entries_map_has(self.entries@, k);
                lemma_entries_map_lookup(self.entries@, j);
                assert(other@.contains_key(self.entries@[j].0@));
            }
        }
        true
    }
}

impl PartialEq for HeaderMap {
    fn eq(&self, other: &Self) -> (r: bool) {
        let r = self.entries_within(other) && other.entries_within(self);
        proof {
            if r {
                assert(self@ =~= other@);
            }
        }
        r
    }
}

impl vstd::std_specs::cmp::PartialEqSpecImpl for HeaderMap {
    open spec fn obeys_eq_spec() -> bool {
        true
    }

    open spec fn eq_spec(&self, other: &HeaderMap) -> bool {
        self@ == other@
    }
}

impl Eq for HeaderMap {

}

// ---------------------------------------------------------------------------
// Messages
// ---------------------------------------------------------------------------

/// A parsed SSDP message.
#[derive(Debug, Clone, PartialEq, Eq)]
pub struct ParsedMessage {
    pub start_line: String,
    pub headers: HeaderMap,
}

impl View for ParsedMessage {
    type V = MessageView;

    open spec fn view(&self) -> MessageView {
        MessageView { start_line: self.start_line@, headers: self.headers@ }
    }
}

/// Why a message could not be parsed.
#[derive(Debug, Clone, PartialEq, Eq)]
pub enum ParseError {
    EmptyMessage,
    MissingStartLine,
    InvalidHeaderLine(String),
}

impl View for ParseError {
    type V = ParseFailure;

    open spec fn view(&self) -> ParseFailure {
        match self {
            ParseError::EmptyMessage => ParseFailure::EmptyMessage,
            ParseError::MissingStartLine => ParseFailure::MissingStartLine,
            ParseError::InvalidHeaderLine(l) => ParseFailure::InvalidHeaderLine(l@),
        }
    }
}

/// Whether `v[lo..hi]` is a valid header name.
fn is_valid_header_name(v: &Vec<char>, lo: usize, hi: usize) -> (b: bool)
    requires
        lo <= hi <= v@.len(),
    ensures
        b == valid_header_name(v@.subrange(lo as int, hi as int)),
{
    if lo == hi {
        return false;
    }
    let ghost w = v@.subrange(lo as int, hi as int);
    let mut i = lo;
    while i < hi
        invariant
            lo <= i <= hi <= v@.len(),
            w == v@.subrange(lo as int, hi as int),
            forall|j: int| lo <= j < i ==> is_tchar(v@[j]),
        decreases hi - i,
    {
        let c = v[i];
        let ok = ('0' <= c && c <= '9') || ('a' <= c && c <= 'z') || ('A' <= c && c <= 'Z') || c
            == '!' || c == '#' || c == '$' || c == '%' || c == '&' || c == '\'' || c == '*' || c
            == '+' || c == '-' || c == '.' || c == '^' || c == '_' || c == '`' || c == '|' || c
            == '~';
        if !ok {
            assert(!is_tchar(w[i - lo]));
            return false;
        }
        i = i + 1;
    }
    assert forall|j: int| 0 <= j < w.len() implies #[trigger] is_tchar(w[j]) by {
        assert(w[j] == v@[j + lo]);
    }
    true
}

/// Parses an SSDP message: a start line, then `Name: value` header lines up
/// to the first blank line. Lines end at `'\n'` (a `"\r\n"` ending is trimmed
/// with the rest of the line's surrounding whitespace); header names are
/// stored in ASCII upper case and a later header of the same name replaces an
/// earlier one.
pub fn parse_message(raw: &str) -> (res: Result<ParsedMessage, ParseError>)
    ensures
        match res {
            Ok(m) => spec_parse_message(raw@) == Ok::<MessageView, ParseFailure>(m@),
            Err(e) => spec_parse_message(raw@) == Err::<MessageView, ParseFailure>(e@),
        },
{
    let r = chars_of(raw);
    let n = r.len();
    assert(r@.subrange(0, n as int) =~= r@);
    let (a, b) = trim_bounds(&r, 0, n);
    if a == b {
        return Err(ParseError::EmptyMessage);
    }
    proof {
        lemma_index_of(r@, '\n');
    }
    let first_end = match find_char(&r, 0, n, '\n') {
        Some(k) => k,
        None => n,
    };
    assert(line_of(r@) =~= r@.subrange(0, first_end as int));
    let (sa, sb) = trim_bounds(&r, 0, first_end);
    if sa == sb {
        return Err(ParseError::MissingStartLine);
    }
    let start_line = string_of(&r, sa, sb);
    let mut headers = HeaderMap::new();
    let mut pos = if first_end < n {
        first_end + 1
    } else {
        n
    };
    assert(after_line(r@) =~= r@.skip(pos as int));
    while pos < n
        invariant
            n == r@.len(),
            pos <= n,
            r@ == raw@,
            trim(r@).len() != 0,
            start_line@ == trim(line_of(r@)),
            start_line@.len() != 0,
            header_lines(after_line(r@), Map::empty()) == header_lines(
                r@.skip(pos as int),
                headers@,
            ),
        decreases n - pos,
    {
        let ghost rest = r@.skip(pos as int);
        proof {
            assert(rest =~= r@.subrange(pos as int, n as int));
            lemma_index_of(rest, '\n');
        }
        let le = match find_char(&r, pos, n, '\n') {
            Some(k) => k,
            None => n,
        };
        assert(line_of(rest) =~= r@.subrange(pos as int, le as int));
        let (la, lb) = trim_bounds(&r, pos, le);
        if la == lb {
            return Ok(ParsedMessage { start_line, headers });
        }
        let ghost line = r@.subrange(la as int, lb as int);
        proof {
            lemma_index_of(line, ':');
        }
        match find_char(&r, la, lb, ':') {
            None => {
                return Err(ParseError::InvalidHeaderLine(string_of(&r, la, lb)));
            },
            Some(j) => {
                assert(line.take(j - la) =~= r@.subrange(la as int, j as int));
                assert(line.skip(j - la + 1) =~= r@.subrange(j + 1, lb as int));
                let (na, nb) = trim_bounds(&r, la, j);
                if !is_valid_header_name(&r, na, nb) {
                    return Err(ParseError::InvalidHeaderLine(string_of(&r, la, lb)));
                }
                let (va, vb) = trim_bounds(&r, j + 1, lb);
                let name = upper_string_of(&r, na, nb);
                let value = string_of(&r, va, vb);
                headers.insert(name, value);
            },
        }
        let next = if le < n {
            le + 1
        } else {
            n
        };
        assert(after_line(rest) =~= r@.skip(next as int));
        pos = next;
    }
    assert(r@.skip(pos as int) =~= Seq::<char>::empty());
    Ok(ParsedMessage { start_line, headers })
}

} // verus!
