//! The computing parts of a minimal HTTP/1.1 GET client: reading an
//! `http://` URL, writing the request, and taking the body out of the response.
use vstd::prelude::*;

use crate::text::{
    chars_of, decimal, digits_value, find, find_char, find_from_exec, index_of, is_digit,
    last_index_of, lemma_first_match_from, lemma_index_of, lemma_last_index_of, push_decimal,
    rfind_char, starts_with, starts_with_exec, string_of,
};

verus! {

// ---------------------------------------------------------------------------
// URLs
// ---------------------------------------------------------------------------

/// Why a URL was refused.
pub enum UrlFailure {
    UnsupportedScheme,
    InvalidPort,
}

/// The text after an optional leading `+`.
pub open spec fn unsigned_digits(s: Seq<char>) -> Seq<char> {
    if s.len() > 0 && s[0] == '+' {
        s.drop_first()
    } else {
        s
    }
}

/// Every character of `d` is an ASCII digit.
pub open spec fn all_digits(d: Seq<char>) -> bool {
    forall|i: int| 0 <= i < d.len() ==> #[trigger] is_digit(d[i])
}

/// `u16::from_str`: an optional `+`, then one or more ASCII digits whose value
/// is at most 65535.
pub open spec fn spec_parse_u16(s: Seq<char>) -> Option<u16> {
    let d = unsigned_digits(s);
    if d.len() > 0 && all_digits(d) && digits_value(d) <= 65535 {
        Some(digits_value(d) as u16)
    } else {
        None
    }
}

/// What `parse_http_url` gives for `url`: the host, the port (80 when none is
/// written) and the path (from the first `/` after the scheme, or `/`).
/// The port is what follows the last `:` of the authority.
pub open spec fn spec_parse_http_url(url: Seq<char>) -> Result<
    (Seq<char>, u16, Seq<char>),
    UrlFailure,
> {
    if !starts_with(url, "http://"@) {
        Err(UrlFailure::UnsupportedScheme)
    } else {
        let rest = url.skip(7);
        let authority = match index_of(rest, '/') {
            Some(i) => rest.take(i),
            None => rest,
        };
        let path = match index_of(rest, '/') {
            Some(i) => rest.skip(i),
            None => "/"@,
        };
        match last_index_of(authority, ':') {
            Some(j) => match spec_parse_u16(authority.skip(j + 1)) {
                Some(port) => Ok((authority.take(j), port, path)),
                None => Err(UrlFailure::InvalidPort),
            },
            None => Ok((authority, 80u16, path)),
        }
    }
}

/// Why a URL was refused.
#[derive(Debug, Clone, PartialEq, Eq)]
pub enum UrlError {
    UnsupportedScheme,
    InvalidPort,
}

impl View for UrlError {
    type V = UrlFailure;

    open spec fn view(&self) -> UrlFailure {
        match self {
            UrlError::UnsupportedScheme => UrlFailure::UnsupportedScheme,
            UrlError::InvalidPort => UrlFailure::InvalidPort,
        }
    }
}

impl UrlError {
    /// The error message.
    pub fn message(&self) -> (s: String)
        ensures
            s@ == match self@ {
                UrlFailure::UnsupportedScheme => "only http:// URLs are supported"@,
                UrlFailure::InvalidPort => "invalid port in URL"@,
            },
    {
        match self {
            UrlError::UnsupportedScheme => String::from_str("only http:// URLs are supported"),
            UrlError::InvalidPort => String::from_str("invalid port in URL"),
        }
    }
}

proof fn lemma_digits_value_prefix(s: Seq<char>, i: int)
    requires
        0 <= i <= s.len(),
    ensures
        digits_value(s.take(i)) <= digits_value(s),
    decreases s.len(),
{
    if i < s.len() {
        lemma_digits_value_prefix(s.drop_last(), i);
        assert(s.drop_last().take(i) =~= s.take(i));
    } else {
        assert(s.take(i) =~= s);
    }
}

/// `u16::from_str` on `v[lo..hi]`.
fn parse_u16(v: &Vec<char>, lo: usize, hi: usize) -> (r: Option<u16>)
    requires
        lo <= hi <= v@.len(),
    ensures
        r == spec_parse_u16(v@.subrange(lo as int, hi as int)),
{
    let ghost s = v@.subrange(lo as int, hi as int);
    let mut start = lo;
    if lo < hi && v[lo] == '+' {
        start = lo + 1;
    }
    let ghost d = v@.subrange(start as int, hi as int);
    assert(d =~= unsigned_digits(s));
    if start == hi {
        return None;
    }
    let mut acc: u32 = 0;
    let mut i = start;
    while i < hi
        invariant
            lo <= start <= i <= hi <= v@.len(),
            start < hi,
            s == v@.subrange(lo as int, hi as int),
            d == v@.subrange(start as int, hi as int),
            d == unsigned_digits(s),
            forall|j: int| 0 <= j < i - start ==> #[trigger] is_digit(d[j]),
            acc as nat == digits_value(d.take(i - start)),
            acc <= 65535,
        decreases hi - i,
    {
        let c = v[i];
        if !('0' <= c && c <= '9') {
            assert(!is_digit(d[i - start]));
            return None;
        }
        let digit = (c as u32) - ('0' as u32);
        assert(d.take(i - start + 1).drop_last() =~= d.take(i - start));
        let next = acc * 10 + digit;
        if next > 65535 {
            proof {
                lemma_digits_value_prefix(d, i - start + 1);
            }
            return None;
        }
        acc = next;
        i = i + 1;
    }
    assert(d.take(i - start) =~= d);
    Some(acc as u16)
}

/// Reads an `http://host[:port][/path]` URL into its host, port (80 when none
/// is written) and path (`/` when none is written).
pub fn parse_http_url(url: &str) -> (r: Result<(String, u16, String), UrlError>)
    ensures
        match r {
            Ok((host, port, path)) => spec_parse_http_url(url@) == Ok::<
                (Seq<char>, u16, Seq<char>),
                UrlFailure,
            >((host@, port, path@)),
            Err(e) => spec_parse_http_url(url@) == Err::<(Seq<char>, u16, Seq<char>), UrlFailure>(
                e@,
            ),
        },
{
    let u = chars_of(url);
    let n = u.len();
    if !starts_with_exec(&u, &chars_of("http://")) {
        return Err(UrlError::UnsupportedScheme);
    }
    proof {
        reveal_strlit("http://");
    }
    let ghost rest = u@.skip(7);
    proof {
        assert(rest =~= u@.subrange(7, n as int));
        lemma_index_of(rest, '/');
    }
    let (auth_end, path) = match find_char(&u, 7, n, '/') {
        Some(i) => (i, string_of(&u, i, n)),
        None => (n, String::from_str("/")),
    };
    let ghost authority = u@.subrange(7, auth_end as int);
    proof {
        match index_of(rest, '/') {
            Some(i) => {
                assert(rest.take(i) =~= authority);
                assert(rest.skip(i) =~= u@.subrange(auth_end as int, n as int));
            },
            None => {
                assert(rest =~= authority);
            },
        }
        lemma_last_index_of(authority, ':');
    }
    match rfind_char(&u, 7, auth_end, ':') {
        Some(j) => {
            assert(authority.skip(j - 7 + 1) =~= u@.subrange(j + 1, auth_end as int));
            assert(authority.take(j - 7) =~= u@.subrange(7, j as int));
            match parse_u16(&u, j + 1, auth_end) {
                Some(port) => Ok((string_of(&u, 7, j), port, path)),
                None => Err(UrlError::InvalidPort),
            }
        },
        None => Ok((string_of(&u, 7, auth_end), 80, path)),
    }
}

// ---------------------------------------------------------------------------
// Requests and responses
// ---------------------------------------------------------------------------

/// The text of a `GET` request for `path` on `host:port` that closes the
/// connection after the response.
pub open spec fn get_request_text(host: Seq<char>, port: u16, path: Seq<char>) -> Seq<char> {
    "GET "@ + path + " HTTP/1.1\r\nHost: "@ + host + ":"@ + decimal(port as nat)
        + "\r\nConnection: close\r\n\r\n"@
}

/// Builds the `GET` request for `path` on `host:port`.
pub fn build_get_request(host: &str, port: u16, path: &str) -> (s: String)
    ensures
        s@ == get_request_text(host@, port, path@),
{
    let mut s = String::from_str("GET ");
    s.append(path);
    s.append(" HTTP/1.1\r\nHost: ");
    s.append(host);
    s.append(":");
    push_decimal(&mut s, port as u64);
    s.append("\r\nConnection: close\r\n\r\n");
    s
}

/// Why a response was refused.
pub enum HttpFailure {
    MissingBodySeparator,
    MissingStatusLine,
    UnexpectedStatus(Seq<char>),
}

/// The first line of a header block (`str::lines().next()`): none for an
/// empty block; otherwise the text before the first `'\n'`, without a `'\r'`
/// just before it, or the whole block when it has no `'\n'`.
pub open spec fn status_line(headers: Seq<char>) -> Option<Seq<char>> {
    if headers.len() == 0 {
        None
    } else {
        match index_of(headers, '\n') {
            Some(k) => {
                let l = headers.take(k);
                if l.len() > 0 && l.last() == '\r' {
                    Some(l.drop_last())
                } else {
                    Some(l)
                }
            },
            None => Some(headers),
        }
    }
}

/// What `split_http_response` gives for `response`: the status line and the
/// body, split at the first blank line (`"\r\n\r\n"`).
pub open spec fn spec_split_http_response(response: Seq<char>) -> Result<
    (Seq<char>, Seq<char>),
    HttpFailure,
> {
    match find(response, "\r\n\r\n"@) {
        None => Err(HttpFailure::MissingBodySeparator),
        Some(i) => match status_line(response.take(i)) {
            None => Err(HttpFailure::MissingStatusLine),
            Some(s) => Ok((s, response.skip(i + 4))),
        },
    }
}

/// What `response_body` gives for `response`: its body, when the status line
/// starts with `HTTP/1.1 200`.
pub open spec fn spec_response_body(response: Seq<char>) -> Result<Seq<char>, HttpFailure> {
    match spec_split_http_response(response) {
        Err(e) => Err(e),
        Ok((status, body)) => if starts_with(status, "HTTP/1.1 200"@) {
            Ok(body)
        } else {
            Err(HttpFailure::UnexpectedStatus(status))
        },
    }
}

/// Why an HTTP response was refused.
#[derive(Debug, Clone, PartialEq, Eq)]
pub enum HttpError {
    MissingBodySeparator,
    MissingStatusLine,
    UnexpectedStatus(String),
}

impl View for HttpError {
    type V = HttpFailure;

    open spec fn view(&self) -> HttpFailure {
        match self {
            HttpError::MissingBodySeparator => HttpFailure::MissingBodySeparator,
            HttpError::MissingStatusLine => HttpFailure::MissingStatusLine,
            HttpError::UnexpectedStatus(s) => HttpFailure::UnexpectedStatus(s@),
        }
    }
}

impl HttpError {
    /// The error message.
    pub fn message(&self) -> (s: String)
        ensures
            s@ == match self@ {
                HttpFailure::MissingBodySeparator => "HTTP response was missing a body separator"@,
                HttpFailure::MissingStatusLine => "HTTP response was missing a status line"@,
                HttpFailure::UnexpectedStatus(l) => "unexpected HTTP response: "@ + l,
            },
    {
        match self {
            HttpError::MissingBodySeparator => String::from_str(
                "HTTP response was missing a body separator",
            ),
            HttpError::MissingStatusLine => String::from_str(
                "HTTP response was missing a status line",
            ),
            HttpError::UnexpectedStatus(l) => {
                let mut s = String::from_str("unexpected HTTP response: ");
                s.append(l.as_str());
                s
            },
        }
    }
}

/// Splits an HTTP response into its status line and its body.
pub fn split_http_response(response: &str) -> (r: Result<(String, String), HttpError>)
    ensures
        match r {
            Ok((status, body)) => spec_split_http_response(response@) == Ok::<
                (Seq<char>, Seq<char>),
                HttpFailure,
            >((status@, body@)),
            Err(e) => spec_split_http_response(response@) == Err::<
                (Seq<char>, Seq<char>),
                HttpFailure,
            >(e@),
        },
{
    let v = chars_of(response);
    let n = v.len();
    let sep = chars_of("\r\n\r\n");
    proof {
        reveal_strlit("\r\n\r\n");
    }
    let i = match find_from_exec(&v, &sep, 0) {
        Some(i) => i,
        None => return Err(HttpError::MissingBodySeparator),
    };
    let ghost headers = v@.take(i as int);
    assert(headers =~= v@.subrange(0, i as int));
    if i == 0 {
        return Err(HttpError::MissingStatusLine);
    }
    proof {
        lemma_index_of(headers, '\n');
    }
    let status = match find_char(&v, 0, i, '\n') {
        Some(k) => {
            assert(headers.take(k as int) =~= v@.subrange(0, k as int));
            if k > 0 && v[k - 1] == '\r' {
                assert(headers.take(k as int).drop_last() =~= v@.subrange(0, k - 1));
                string_of(&v, 0, k - 1)
            } else {
                string_of(&v, 0, k)
            }
        },
        None => string_of(&v, 0, i),
    };
    assert(v@.skip(i + 4) =~= v@.subrange(i + 4, n as int));
    Ok((status, string_of(&v, i + 4, n)))
}

/// The body of an HTTP response whose status line starts with `HTTP/1.1 200`.
pub fn response_body(response: &str) -> (r: Result<String, HttpError>)
    ensures
        match r {
            Ok(body) => spec_response_body(response@) == Ok::<Seq<char>, HttpFailure>(body@),
            Err(e) => spec_response_body(response@) == Err::<Seq<char>, HttpFailure>(e@),
        },
{
    let (status, body) = match split_http_response(response) {
        Ok(parts) => parts,
        Err(e) => return Err(e),
    };
    let status_chars = chars_of(status.as_str());
    if starts_with_exec(&status_chars, &chars_of("HTTP/1.1 200")) {
        Ok(body)
    } else {
        Err(HttpError::UnexpectedStatus(status))
    }
}

} // verus!
