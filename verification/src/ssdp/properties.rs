//! What the SSDP messages of this library guarantee each other: the
//! responder's parser reads back what the client's builder wrote, and the
//! client's parser reads back the responder's reply.
use vstd::prelude::*;

use crate::ssdp::client::{is_discovery_reply, spec_accept_reply};
use crate::ssdp::message::{discovery_response_text, m_search_text};
use crate::ssdp::parser::{
    after_line, header_entry, header_lines, is_tchar, line_of, single_line, spec_parse_message,
    valid_header_name, MessageView, ParseFailure,
};
use crate::ssdp::server::{spec_reply, spec_should_reply};
use crate::text::{lower, lower_char};
use crate::text::{
    all_ws, contains, index_of, lemma_index_of, upper_char, decimal, find, is_digit, is_ws, lemma_decimal_digits, lemma_find,
    lemma_index_of_is, lemma_trim_all_ws, lemma_trim_end_after, lemma_trim_exact,
    lemma_trim_nonempty, lemma_trim_pad, lemma_trim_trim_end, matches_at, starts_with, trim,
    trim_end, upper,
};

verus! {

proof fn lemma_line_split(l: Seq<char>, r: Seq<char>)
    requires
        single_line(l),
    ensures
        line_of(l + seq!['\n'] + r) == l,
        after_line(l + seq!['\n'] + r) == r,
{
    let s = l + seq!['\n'] + r;
    assert(s[l.len() as int] == '\n');
    assert forall|j: int| 0 <= j < l.len() implies s[j] != '\n' by {
        assert(s[j] == l[j]);
    }
    lemma_index_of_is(s, '\n', l.len() as int);
    assert(s.take(l.len() as int) =~= l);
    assert(s.skip(l.len() as int + 1) =~= r);
}

/// The line `name: v` gives the entry `(NAME, trim(v))`.
proof fn lemma_header_line_entry(name: Seq<char>, v: Seq<char>)
    requires
        valid_header_name(name),
        single_line(v),
    ensures
        single_line(name + seq![':'] + v),
        trim(name + seq![':'] + v).len() > 0,
        header_entry(trim(name + seq![':'] + v)) == Some((upper(name), trim(v))),
{
    let x = name + seq![':'];
    let line = x + v;
    assert(is_tchar(name[0]));
    assert(is_tchar(name[name.len() - 1]));
    assert(x.last() == ':');
    lemma_trim_end_after(x, v);
    assert(line[0] == name[0]);
    let tl = x + trim_end(v);
    assert(trim(line) == tl);
    assert forall|j: int| 0 <= j < name.len() implies tl[j] != ':' by {
        assert(tl[j] == name[j]);
        assert(is_tchar(name[j]));
    }
    assert(tl[name.len() as int] == ':');
    lemma_index_of_is(tl, ':', name.len() as int);
    assert(tl.take(name.len() as int) =~= name);
    assert(tl.skip(name.len() as int + 1) =~= trim_end(v));
    lemma_trim_exact(name);
    lemma_trim_trim_end(v);
    assert forall|i: int| 0 <= i < line.len() implies line[i] != '\n' by {
        if i < name.len() {
            assert(is_tchar(name[i]));
        } else if i > name.len() {
            assert(line[i] == v[i - name.len() - 1]);
        }
    }
}

/// A well-formed header line adds its entry and parsing goes on after it.
pub(crate) proof fn lemma_header_lines_step(
    name: Seq<char>,
    v: Seq<char>,
    r: Seq<char>,
    acc: Map<Seq<char>, Seq<char>>,
)
    requires
        valid_header_name(name),
        single_line(v),
    ensures
        header_lines(name + seq![':'] + v + seq!['\n'] + r, acc) == header_lines(
            r,
            acc.insert(upper(name), trim(v)),
        ),
{
    lemma_header_line_entry(name, v);
    let line = name + seq![':'] + v;
    lemma_line_split(line, r);
    let rest = line + seq!['\n'] + r;
    assert(rest.len() > 0);
}

/// A blank line ends the headers.
pub(crate) proof fn lemma_header_lines_blank(b: Seq<char>, r: Seq<char>, acc: Map<Seq<char>, Seq<char>>)
    requires
        all_ws(b),
        single_line(b),
    ensures
        header_lines(b + seq!['\n'] + r, acc) == Ok::<_, Seq<char>>(acc),
{
    lemma_line_split(b, r);
    lemma_trim_all_ws(b);
    assert((b + seq!['\n'] + r).len() > 0);
}

/// A message whose first line has text parses its start line and then its headers.
pub(crate) proof fn lemma_parse_start(s: Seq<char>, r: Seq<char>)
    requires
        single_line(s),
        trim(s).len() > 0,
    ensures
        spec_parse_message(s + seq!['\n'] + r) == match header_lines(r, Map::empty()) {
            Ok(h) => Ok::<MessageView, ParseFailure>(
                MessageView { start_line: trim(s), headers: h },
            ),
            Err(l) => Err(ParseFailure::InvalidHeaderLine(l)),
        },
{
    let raw = s + seq!['\n'] + r;
    lemma_line_split(s, r);
    if all_ws(s) {
        lemma_trim_all_ws(s);
    }
    let i = choose|i: int| 0 <= i < s.len() && !#[trigger] is_ws(s[i]);
    assert(raw[i] == s[i]);
    lemma_trim_nonempty(raw);
}

/// Trimming `" " + v + "\r"` trims `v`.
pub(crate) proof fn lemma_trim_field(v: Seq<char>)
    ensures
        trim(seq![' '] + v + seq!['\r']) == trim(v),
{
    assert(all_ws(seq![' ']));
    assert(all_ws(seq!['\r']));
    lemma_trim_pad(seq![' '], v, seq!['\r']);
}

pub(crate) proof fn lemma_single_line_field(v: Seq<char>)
    requires
        single_line(v),
    ensures
        single_line(seq![' '] + v + seq!['\r']),
{
    let f = seq![' '] + v + seq!['\r'];
    assert forall|i: int| 0 <= i < f.len() implies f[i] != '\n' by {
        if 0 < i < f.len() - 1 {
            assert(f[i] == v[i - 1]);
        }
    }
}

pub(crate) proof fn lemma_decimal_field(n: nat)
    ensures
        single_line(decimal(n)),
        trim(decimal(n)) == decimal(n),
{
    lemma_decimal_digits(n);
    let d = decimal(n);
    assert(is_digit(d[0]));
    assert(is_digit(d[d.len() - 1]));
    lemma_trim_exact(d);
    assert forall|i: int| 0 <= i < d.len() implies d[i] != '\n' by {
        assert(is_digit(d[i]));
    }
}

/// The headers that the M-SEARCH request text carries.
pub open spec fn m_search_headers(host: Seq<char>, search_target: Seq<char>, mx: nat) -> Map<
    Seq<char>,
    Seq<char>,
> {
    Map::empty().insert("HOST"@, trim(host)).insert("MAN"@, "\"ssdp:discover\""@).insert(
        "MX"@,
        decimal(mx),
    ).insert("ST"@, trim(search_target))
}

/// Parsing an M-SEARCH request gives back its start line and its four headers
/// (with host and search target trimmed), whenever neither of them holds a
/// line break.
pub proof fn m_search_parses(host: Seq<char>, search_target: Seq<char>, mx: nat)
    requires
        single_line(host),
        single_line(search_target),
    ensures
        spec_parse_message(m_search_text(host, search_target, mx)) == Ok::<
            MessageView,
            ParseFailure,
        >(
            MessageView {
                start_line: "M-SEARCH * HTTP/1.1"@,
                headers: m_search_headers(host, search_target, mx),
            },
        ),
{
    reveal_strlit("M-SEARCH * HTTP/1.1\r\nHOST: ");
    reveal_strlit("\r\nMAN: \"ssdp:discover\"\r\nMX: ");
    reveal_strlit("\r\nST: ");
    reveal_strlit("\r\n\r\n");
    reveal_strlit("M-SEARCH * HTTP/1.1");
    reveal_strlit("HOST");
    reveal_strlit("MAN");
    reveal_strlit("MX");
    reveal_strlit("ST");
    reveal_strlit("\"ssdp:discover\"");
    let nl = seq!['\n'];
    let cr = seq!['\r'];
    let sp = seq![' '];
    let colon = seq![':'];
    let start = "M-SEARCH * HTTP/1.1"@;
    let s0 = start + cr;
    let dec = decimal(mx);
    let man_value = "\"ssdp:discover\""@;
    let v1 = sp + host + cr;
    let v2 = sp + man_value + cr;
    let v3 = sp + dec + cr;
    let v4 = sp + search_target + cr;
    let r5 = cr + nl + Seq::<char>::empty();
    let r4 = "ST"@ + colon + v4 + nl + r5;
    let r3 = "MX"@ + colon + v3 + nl + r4;
    let r2 = "MAN"@ + colon + v2 + nl + r3;
    let r1 = "HOST"@ + colon + v1 + nl + r2;
    assert(m_search_text(host, search_target, mx) =~= s0 + nl + r1);

    lemma_decimal_field(mx);
    lemma_single_line_field(host);
    lemma_single_line_field(man_value);
    lemma_single_line_field(dec);
    lemma_single_line_field(search_target);
    lemma_trim_field(host);
    lemma_trim_field(man_value);
    lemma_trim_field(dec);
    lemma_trim_field(search_target);
    lemma_trim_exact(man_value);
    lemma_trim_pad(Seq::empty(), start, cr);
    assert(Seq::<char>::empty() + start + cr =~= s0);
    lemma_trim_exact(start);
    assert(single_line(s0));

    assert(upper("HOST"@) =~= "HOST"@);
    assert(upper("MAN"@) =~= "MAN"@);
    assert(upper("MX"@) =~= "MX"@);
    assert(upper("ST"@) =~= "ST"@);
    assert(valid_header_name("HOST"@));
    assert(valid_header_name("MAN"@));
    assert(valid_header_name("MX"@));
    assert(valid_header_name("ST"@));

    let m0 = Map::<Seq<char>, Seq<char>>::empty();
    let m1 = m0.insert("HOST"@, trim(host));
    let m2 = m1.insert("MAN"@, man_value);
    let m3 = m2.insert("MX"@, dec);
    let m4 = m3.insert("ST"@, trim(search_target));
    lemma_header_lines_step("HOST"@, v1, r2, m0);
    lemma_header_lines_step("MAN"@, v2, r3, m1);
    lemma_header_lines_step("MX"@, v3, r4, m2);
    lemma_header_lines_step("ST"@, v4, r5, m3);
    assert(all_ws(cr));
    lemma_header_lines_blank(cr, Seq::empty(), m4);
    lemma_parse_start(s0, r1);
}

/// The headers that the discovery response text carries.
pub open spec fn discovery_response_headers(
    location: Seq<char>,
    search_target: Seq<char>,
    usn: Seq<char>,
    max_age: nat,
) -> Map<Seq<char>, Seq<char>> {
    Map::empty().insert("CACHE-CONTROL"@, "max-age="@ + decimal(max_age)).insert(
        "EXT"@,
        Seq::empty(),
    ).insert("LOCATION"@, trim(location)).insert("ST"@, trim(search_target)).insert(
        "USN"@,
        trim(usn),
    ).insert("SERVER"@, "monkeynuthead-upnp/0.1 UPnP/1.1"@)
}

/// The parsed discovery response: its status line and six headers.
pub open spec fn discovery_response_view(
    location: Seq<char>,
    search_target: Seq<char>,
    usn: Seq<char>,
    max_age: nat,
) -> MessageView {
    MessageView {
        start_line: "HTTP/1.1 200 OK"@,
        headers: discovery_response_headers(location, search_target, usn, max_age),
    }
}

#[verifier::rlimit(50)]
proof fn lemma_response_text_shape(
    location: Seq<char>,
    search_target: Seq<char>,
    usn: Seq<char>,
    max_age: nat,
)
    ensures
        discovery_response_text(location, search_target, usn, max_age) == "HTTP/1.1 200 OK"@
            + seq!['\r'] + seq!['\n'] + ("CACHE-CONTROL"@ + seq![':'] + (seq![' '] + ("max-age="@
            + decimal(max_age)) + seq!['\r']) + seq!['\n'] + ("EXT"@ + seq![':'] + seq!['\r']
            + seq!['\n'] + ("LOCATION"@ + seq![':'] + (seq![' '] + location + seq!['\r'])
            + seq!['\n'] + ("ST"@ + seq![':'] + (seq![' '] + search_target + seq!['\r'])
            + seq!['\n'] + ("USN"@ + seq![':'] + (seq![' '] + usn + seq!['\r']) + seq!['\n'] + (
        "SERVER"@ + seq![':'] + (seq![' '] + "monkeynuthead-upnp/0.1 UPnP/1.1"@ + seq!['\r'])
            + seq!['\n'] + (seq!['\r'] + seq!['\n'] + Seq::<char>::empty()))))))),
{
    let nl = seq!['\n'];
    let cr = seq!['\r'];
    let sp = seq![' '];
    let colon = seq![':'];
    assert("HTTP/1.1 200 OK\r\nCACHE-CONTROL: max-age="@ =~= "HTTP/1.1 200 OK"@ + cr + nl
        + "CACHE-CONTROL"@ + colon + sp + "max-age="@) by {
        reveal_strlit("HTTP/1.1 200 OK\r\nCACHE-CONTROL: max-age=");
        reveal_strlit("HTTP/1.1 200 OK");
        reveal_strlit("CACHE-CONTROL");
        reveal_strlit("max-age=");
    }
    assert("\r\nEXT:\r\nLOCATION: "@ =~= cr + nl + "EXT"@ + colon + cr + nl + "LOCATION"@ + colon
        + sp) by {
        reveal_strlit("\r\nEXT:\r\nLOCATION: ");
        reveal_strlit("EXT");
        reveal_strlit("LOCATION");
    }
    assert("\r\nST: "@ =~= cr + nl + "ST"@ + colon + sp) by {
        reveal_strlit("\r\nST: ");
        reveal_strlit("ST");
    }
    assert("\r\nUSN: "@ =~= cr + nl + "USN"@ + colon + sp) by {
        reveal_strlit("\r\nUSN: ");
        reveal_strlit("USN");
    }
    assert("\r\nSERVER: monkeynuthead-upnp/0.1 UPnP/1.1\r\n\r\n"@ =~= cr + nl + "SERVER"@ + colon
        + sp + "monkeynuthead-upnp/0.1 UPnP/1.1"@ + cr + nl + cr + nl) by {
        reveal_strlit("\r\nSERVER: monkeynuthead-upnp/0.1 UPnP/1.1\r\n\r\n");
        reveal_strlit("SERVER");
        reveal_strlit("monkeynuthead-upnp/0.1 UPnP/1.1");
    }
    assert(discovery_response_text(location, search_target, usn, max_age) =~= "HTTP/1.1 200 OK"@
        + seq!['\r'] + seq!['\n'] + ("CACHE-CONTROL"@ + seq![':'] + (seq![' '] + ("max-age="@
        + decimal(max_age)) + seq!['\r']) + seq!['\n'] + ("EXT"@ + seq![':'] + seq!['\r']
        + seq!['\n'] + ("LOCATION"@ + seq![':'] + (seq![' '] + location + seq!['\r'])
        + seq!['\n'] + ("ST"@ + seq![':'] + (seq![' '] + search_target + seq!['\r'])
        + seq!['\n'] + ("USN"@ + seq![':'] + (seq![' '] + usn + seq!['\r']) + seq!['\n'] + (
    "SERVER"@ + seq![':'] + (seq![' '] + "monkeynuthead-upnp/0.1 UPnP/1.1"@ + seq!['\r'])
        + seq!['\n'] + (seq!['\r'] + seq!['\n'] + Seq::<char>::empty()))))))));
}

/// Parsing a discovery response gives back its status line and its six
/// headers (location, search target and USN trimmed), whenever none of those
/// three holds a line break.
pub proof fn discovery_response_parses(
    location: Seq<char>,
    search_target: Seq<char>,
    usn: Seq<char>,
    max_age: nat,
)
    requires
        single_line(location),
        single_line(search_target),
        single_line(usn),
    ensures
        spec_parse_message(discovery_response_text(location, search_target, usn, max_age))
            == Ok::<MessageView, ParseFailure>(
            discovery_response_view(location, search_target, usn, max_age),
        ),
{
    let nl = seq!['\n'];
    let cr = seq!['\r'];
    let sp = seq![' '];
    let colon = seq![':'];
    let start = "HTTP/1.1 200 OK"@;
    let s0 = start + cr;
    let dec = decimal(max_age);
    let age = "max-age="@ + dec;
    let server = "monkeynuthead-upnp/0.1 UPnP/1.1"@;
    let v1 = sp + age + cr;
    let v2 = cr;
    let v3 = sp + location + cr;
    let v4 = sp + search_target + cr;
    let v5 = sp + usn + cr;
    let v6 = sp + server + cr;
    let r7 = cr + nl + Seq::<char>::empty();
    let r6 = "SERVER"@ + colon + v6 + nl + r7;
    let r5 = "USN"@ + colon + v5 + nl + r6;
    let r4 = "ST"@ + colon + v4 + nl + r5;
    let r3 = "LOCATION"@ + colon + v3 + nl + r4;
    let r2 = "EXT"@ + colon + v2 + nl + r3;
    let r1 = "CACHE-CONTROL"@ + colon + v1 + nl + r2;
    lemma_response_text_shape(location, search_target, usn, max_age);
    reveal_strlit("HTTP/1.1 200 OK");
    reveal_strlit("CACHE-CONTROL");
    reveal_strlit("max-age=");
    reveal_strlit("EXT");
    reveal_strlit("LOCATION");
    reveal_strlit("ST");
    reveal_strlit("USN");
    reveal_strlit("SERVER");
    reveal_strlit("monkeynuthead-upnp/0.1 UPnP/1.1");

    lemma_decimal_field(max_age);
    lemma_decimal_digits(max_age);
    assert(single_line(age)) by {
        assert forall|i: int| 0 <= i < age.len() implies age[i] != '\n' by {
            if i >= 8 {
                assert(age[i] == dec[i - 8]);
            }
        }
    }
    assert(age.last() == dec.last());
    assert(is_digit(dec[dec.len() - 1]));
    lemma_trim_exact(age);
    lemma_trim_exact(server);
    lemma_single_line_field(age);
    lemma_single_line_field(location);
    lemma_single_line_field(search_target);
    lemma_single_line_field(usn);
    lemma_single_line_field(server);
    lemma_trim_field(age);
    lemma_trim_field(location);
    lemma_trim_field(search_target);
    lemma_trim_field(usn);
    lemma_trim_field(server);
    assert(all_ws(cr));
    lemma_trim_all_ws(cr);
    lemma_trim_pad(Seq::empty(), start, cr);
    assert(Seq::<char>::empty() + start + cr =~= s0);
    lemma_trim_exact(start);
    assert(single_line(s0));

    assert(upper("CACHE-CONTROL"@) =~= "CACHE-CONTROL"@);
    assert(upper("EXT"@) =~= "EXT"@);
    assert(upper("LOCATION"@) =~= "LOCATION"@);
    assert(upper("ST"@) =~= "ST"@);
    assert(upper("USN"@) =~= "USN"@);
    assert(upper("SERVER"@) =~= "SERVER"@);
    assert(valid_header_name("CACHE-CONTROL"@));
    assert(valid_header_name("EXT"@));
    assert(valid_header_name("LOCATION"@));
    assert(valid_header_name("ST"@));
    assert(valid_header_name("USN"@));
    assert(valid_header_name("SERVER"@));

    let m0 = Map::<Seq<char>, Seq<char>>::empty();
    let m1 = m0.insert("CACHE-CONTROL"@, age);
    let m2 = m1.insert("EXT"@, Seq::empty());
    let m3 = m2.insert("LOCATION"@, trim(location));
    let m4 = m3.insert("ST"@, trim(search_target));
    let m5 = m4.insert("USN"@, trim(usn));
    let m6 = m5.insert("SERVER"@, server);
    lemma_header_lines_step("CACHE-CONTROL"@, v1, r2, m0);
    lemma_header_lines_step("EXT"@, v2, r3, m1);
    lemma_header_lines_step("LOCATION"@, v3, r4, m2);
    lemma_header_lines_step("ST"@, v4, r5, m3);
    lemma_header_lines_step("USN"@, v5, r6, m4);
    lemma_header_lines_step("SERVER"@, v6, r7, m5);
    lemma_header_lines_blank(cr, Seq::empty(), m6);
    lemma_parse_start(s0, r1);
}

/// The client keeps every discovery response, whenever location, search
/// target and USN hold no line break.
pub proof fn discovery_response_accepted(
    location: Seq<char>,
    search_target: Seq<char>,
    usn: Seq<char>,
    max_age: nat,
)
    requires
        single_line(location),
        single_line(search_target),
        single_line(usn),
    ensures
        spec_accept_reply(discovery_response_text(location, search_target, usn, max_age))
            == Some(discovery_response_view(location, search_target, usn, max_age)),
{
    discovery_response_parses(location, search_target, usn, max_age);
    reveal_strlit("HTTP/1.1 200 OK");
    reveal_strlit("HTTP/1.1 200");
    assert("HTTP/1.1 200 OK"@.take(12) =~= "HTTP/1.1 200"@);
    assert(is_discovery_reply(discovery_response_view(location, search_target, usn, max_age)));
}

/// The responder answers an M-SEARCH request exactly when its search target,
/// trimmed, is one it should answer; and then with its discovery response.
pub proof fn responder_answers_m_search(
    host: Seq<char>,
    search_target: Seq<char>,
    mx: nat,
    location: Seq<char>,
    device_target: Seq<char>,
    usn: Seq<char>,
    max_age: nat,
)
    requires
        single_line(host),
        single_line(search_target),
    ensures
        spec_reply(m_search_text(host, search_target, mx), location, device_target, usn, max_age)
            == if spec_should_reply(trim(search_target), device_target) {
            Some(discovery_response_text(location, device_target, usn, max_age))
        } else {
            None
        },
{
    m_search_parses(host, search_target, mx);
    reveal_strlit("M-SEARCH * HTTP/1.1");
    reveal_strlit("M-SEARCH ");
    reveal_strlit("MAN");
    reveal_strlit("MX");
    reveal_strlit("ST");
    reveal_strlit("HOST");
    reveal_strlit("\"ssdp:discover\"");
    reveal_strlit("ssdp:discover");
    assert("M-SEARCH * HTTP/1.1"@.take(9) =~= "M-SEARCH "@);
    let h = m_search_headers(host, search_target, mx);
    assert("MAN"@.len() != "ST"@.len());
    assert("MAN"@ != "ST"@);
    assert("MAN"@.len() != "MX"@.len());
    assert("MAN"@ != "MX"@);
    assert(h["MAN"@] == "\"ssdp:discover\""@);
    assert(h["ST"@] == trim(search_target));
    let man_value = "\"ssdp:discover\""@;
    assert(man_value.subrange(1, 14) =~= "ssdp:discover"@);
    assert(matches_at(man_value, "ssdp:discover"@, 1));
    lemma_find(man_value, "ssdp:discover"@);
    assert(contains(man_value, "ssdp:discover"@));
}

/// Discovery end to end: when a responder should answer a client's search, it
/// replies, and the client keeps the reply, reading from it the responder's
/// search target, USN and location (trimmed).
pub proof fn discovery_round_trip(
    host: Seq<char>,
    search_target: Seq<char>,
    mx: nat,
    location: Seq<char>,
    device_target: Seq<char>,
    usn: Seq<char>,
    max_age: nat,
)
    requires
        single_line(host),
        single_line(search_target),
        single_line(location),
        single_line(device_target),
        single_line(usn),
        spec_should_reply(trim(search_target), device_target),
    ensures
        spec_reply(m_search_text(host, search_target, mx), location, device_target, usn, max_age)
            matches Some(reply) && spec_accept_reply(reply) matches Some(m) && m.headers["ST"@]
            == trim(device_target) && m.headers["USN"@] == trim(usn) && m.headers["LOCATION"@]
            == trim(location),
{
    responder_answers_m_search(host, search_target, mx, location, device_target, usn, max_age);
    discovery_response_accepted(location, device_target, usn, max_age);
    reveal_strlit("ST");
    reveal_strlit("USN");
    reveal_strlit("LOCATION");
    reveal_strlit("SERVER");
    assert("ST"@.len() != "USN"@.len());
    assert("ST"@ != "USN"@);
    assert("ST"@.len() != "SERVER"@.len());
    assert("ST"@ != "SERVER"@);
    assert("USN"@.len() != "SERVER"@.len());
    assert("USN"@ != "SERVER"@);
    assert("LOCATION"@.len() != "ST"@.len());
    assert("LOCATION"@ != "ST"@);
    assert("LOCATION"@.len() != "USN"@.len());
    assert("LOCATION"@ != "USN"@);
    assert("LOCATION"@.len() != "SERVER"@.len());
    assert("LOCATION"@ != "SERVER"@);
}

/// ASCII upper-casing does not change a text ignoring case.
proof fn lemma_lower_upper(s: Seq<char>)
    ensures
        lower(upper(s)) == lower(s),
        lower(lower(s)) == lower(s),
{
    assert forall|i: int| 0 <= i < s.len() implies lower_char(upper_char(s[i])) == lower_char(
        s[i],
    ) && lower_char(lower_char(s[i])) == lower_char(s[i]) by {
        let c = s[i];
        if 'a' <= c && c <= 'z' {
            assert(upper_char(c) as u32 == c as u32 - 32);
        }
        if 'A' <= c && c <= 'Z' {
            assert(lower_char(c) as u32 == c as u32 + 32);
        }
    }
    assert(lower(upper(s)) =~= lower(s));
    assert(lower(lower(s)) =~= lower(s));
}

/// A responder of type `device_target` answers a search for `search_target`
/// exactly when the search, ignoring ASCII case, is `ssdp:all` or is its own
/// type; in particular it answers a search for its own type however the type
/// is written, in upper, lower or mixed case.
pub proof fn should_reply_to_all_or_own_type(search_target: Seq<char>, device_target: Seq<char>)
    ensures
        spec_should_reply(search_target, device_target) <==> (lower(search_target) == seq![
            's',
            's',
            'd',
            'p',
            ':',
            'a',
            'l',
            'l',
        ] || lower(search_target) == lower(device_target)),
        spec_should_reply(device_target, device_target),
        spec_should_reply(upper(device_target), device_target),
        spec_should_reply(lower(device_target), device_target),
{
    reveal_strlit("ssdp:all");
    assert(lower("ssdp:all"@) =~= seq!['s', 's', 'd', 'p', ':', 'a', 'l', 'l']);
    lemma_lower_upper(device_target);
}

/// A responder answers an M-SEARCH for exactly its own type (written without
/// surrounding whitespace or line breaks) with its discovery response.
pub proof fn responder_answers_search_for_own_type(
    host: Seq<char>,
    device_target: Seq<char>,
    mx: nat,
    location: Seq<char>,
    usn: Seq<char>,
    max_age: nat,
)
    requires
        single_line(host),
        single_line(device_target),
        trim(device_target) == device_target,
    ensures
        spec_reply(m_search_text(host, device_target, mx), location, device_target, usn, max_age)
            == Some(discovery_response_text(location, device_target, usn, max_age)),
{
    responder_answers_m_search(host, device_target, mx, location, device_target, usn, max_age);
    should_reply_to_all_or_own_type(device_target, device_target);
}

/// The responder answers a request text exactly when it parses, its start
/// line begins with `M-SEARCH `, its `MAN` header mentions `ssdp:discover`, and
/// its `ST` header is, ignoring ASCII case, `ssdp:all` or the responder's own
/// type; it then answers with its discovery response, and otherwise not at all.
pub proof fn responder_answers_exactly_discovery_searches(
    request: Seq<char>,
    location: Seq<char>,
    device_target: Seq<char>,
    usn: Seq<char>,
    max_age: nat,
)
    ensures
        spec_reply(request, location, device_target, usn, max_age) == match spec_parse_message(
            request,
        ) {
            Err(_) => None,
            Ok(m) => if starts_with(m.start_line, "M-SEARCH "@) && m.headers.contains_key("MAN"@)
                && m.headers.contains_key("ST"@) && contains(m.headers["MAN"@], "ssdp:discover"@)
                && (lower(m.headers["ST"@]) == seq!['s', 's', 'd', 'p', ':', 'a', 'l', 'l'] || lower(
                m.headers["ST"@],
            ) == lower(device_target)) {
                Some(discovery_response_text(location, device_target, usn, max_age))
            } else {
                None
            },
        },
{
    if let Ok(m) = spec_parse_message(request) {
        if m.headers.contains_key("ST"@) {
            should_reply_to_all_or_own_type(m.headers["ST"@], device_target);
        }
    }
}

/// The client keeps a received text exactly when it parses into a reply whose
/// status line starts with `HTTP/1.1 200` and whose headers include LOCATION,
/// ST and USN, whatever other headers it carries; it then keeps that parse.
pub proof fn client_keeps_exactly_discovery_replies(text: Seq<char>)
    ensures
        match spec_parse_message(text) {
            Ok(m) => if starts_with(m.start_line, "HTTP/1.1 200"@) && m.headers.contains_key(
                "LOCATION"@,
            ) && m.headers.contains_key("ST"@) && m.headers.contains_key("USN"@) {
                spec_accept_reply(text) == Some(m)
            } else {
                spec_accept_reply(text) is None
            },
            Err(_) => spec_accept_reply(text) is None,
        },
{
}

/// Every key of `m` is a valid header name in upper case.
pub open spec fn upper_case_names(m: Map<Seq<char>, Seq<char>>) -> bool {
    forall|k: Seq<char>| #[trigger] m.contains_key(k) ==> valid_header_name(k) && upper(k) == k
}

/// When `r` has a line break, appending to `r` changes neither its first
/// line nor the start of what follows it.
proof fn lemma_line_extend(r: Seq<char>, x: Seq<char>)
    requires
        index_of(r, '\n') is Some,
    ensures
        line_of(r + x) == line_of(r),
        after_line(r + x) == after_line(r) + x,
{
    lemma_index_of(r, '\n');
    let k = index_of(r, '\n').unwrap();
    let s = r + x;
    assert(s[k] == '\n');
    assert forall|j: int| 0 <= j < k implies s[j] != '\n' by {
        assert(s[j] == r[j]);
    }
    lemma_index_of_is(s, '\n', k);
    assert(s.take(k) =~= r.take(k));
    assert(s.skip(k + 1) =~= r.skip(k + 1) + x);
}

/// The line break pair `CR LF` followed by anything ends the headers.
proof fn lemma_crlf_ends_headers(b: Seq<char>, acc: Map<Seq<char>, Seq<char>>)
    ensures
        header_lines(seq!['\r', '\n'] + b, acc) == Ok::<_, Seq<char>>(acc),
{
    let cr = seq!['\r'];
    assert(is_ws(cr[0]));
    assert(all_ws(cr));
    assert(single_line(cr));
    lemma_header_lines_blank(cr, b, acc);
    assert(cr + seq!['\n'] + b =~= seq!['\r', '\n'] + b);
}

/// What follows the first blank line of the header section never changes
/// how the header lines before it are read.
proof fn lemma_header_lines_tail(r: Seq<char>, b: Seq<char>, acc: Map<Seq<char>, Seq<char>>)
    ensures
        header_lines(r + seq!['\r', '\n', '\r', '\n'] + b, acc) == header_lines(
            r + seq!['\r', '\n', '\r', '\n'],
            acc,
        ),
    decreases r.len(),
{
    let t = seq!['\r', '\n', '\r', '\n'];
    let s1 = r + t + b;
    let s2 = r + t;
    assert(s1.len() > 0);
    assert(s2.len() > 0);
    lemma_index_of(r, '\n');
    match index_of(r, '\n') {
        Some(k) => {
            assert(s1 =~= r + (t + b));
            lemma_line_extend(r, t + b);
            lemma_line_extend(r, t);
            let line = trim(line_of(r));
            if line.len() > 0 {
                if let Some(e) = header_entry(line) {
                    let r2 = after_line(r);
                    assert(r2.len() < r.len());
                    lemma_header_lines_tail(r2, b, acc.insert(e.0, e.1));
                    assert(r2 + (t + b) =~= r2 + t + b);
                }
            }
        },
        None => {
            let l = r + seq!['\r'];
            assert(single_line(l)) by {
                assert forall|i: int| 0 <= i < l.len() implies l[i] != '\n' by {
                    if i < r.len() {
                        assert(l[i] == r[i]);
                    }
                }
            }
            lemma_line_split(l, seq!['\r', '\n'] + b);
            lemma_line_split(l, seq!['\r', '\n']);
            assert(s1 =~= l + seq!['\n'] + (seq!['\r', '\n'] + b));
            assert(s2 =~= l + seq!['\n'] + seq!['\r', '\n']);
            let line = trim(l);
            if line.len() > 0 {
                if let Some(e) = header_entry(line) {
                    let next = acc.insert(e.0, e.1);
                    lemma_crlf_ends_headers(b, next);
                    lemma_crlf_ends_headers(Seq::empty(), next);
                    assert(seq!['\r', '\n'] + Seq::<char>::empty() =~= seq!['\r', '\n']);
                }
            }
        },
    }
}

/// A message ends at its first blank line: whatever text follows the first
/// `CRLF CRLF` (a body, say) is ignored and never makes parsing fail, as long
/// as the text before it is not blank.
pub proof fn text_after_blank_line_is_ignored(a: Seq<char>, b: Seq<char>)
    requires
        trim(a).len() > 0,
    ensures
        spec_parse_message(a + seq!['\r', '\n', '\r', '\n'] + b) == spec_parse_message(
            a + seq!['\r', '\n', '\r', '\n'],
        ),
{
    let t = seq!['\r', '\n', '\r', '\n'];
    let raw1 = a + t + b;
    let raw2 = a + t;
    if all_ws(a) {
        lemma_trim_all_ws(a);
    }
    let i = choose|i: int| 0 <= i < a.len() && !#[trigger] is_ws(a[i]);
    assert(raw1[i] == a[i]);
    assert(raw2[i] == a[i]);
    lemma_trim_nonempty(raw1);
    lemma_trim_nonempty(raw2);
    lemma_index_of(a, '\n');
    match index_of(a, '\n') {
        Some(k) => {
            assert(raw1 =~= a + (t + b));
            lemma_line_extend(a, t + b);
            lemma_line_extend(a, t);
            let r = after_line(a);
            lemma_header_lines_tail(r, b, Map::empty());
            assert(r + (t + b) =~= r + t + b);
        },
        None => {
            let l = a + seq!['\r'];
            assert(single_line(l)) by {
                assert forall|j: int| 0 <= j < l.len() implies l[j] != '\n' by {
                    if j < a.len() {
                        assert(l[j] == a[j]);
                    }
                }
            }
            lemma_line_split(l, seq!['\r', '\n'] + b);
            lemma_line_split(l, seq!['\r', '\n']);
            assert(raw1 =~= l + seq!['\n'] + (seq!['\r', '\n'] + b));
            assert(raw2 =~= l + seq!['\n'] + seq!['\r', '\n']);
            lemma_crlf_ends_headers(b, Map::empty());
            lemma_crlf_ends_headers(Seq::empty(), Map::empty());
            assert(seq!['\r', '\n'] + Seq::<char>::empty() =~= seq!['\r', '\n']);
        },
    }
}

proof fn lemma_upper_name(name: Seq<char>)
    requires
        valid_header_name(name),
    ensures
        valid_header_name(upper(name)),
        upper(upper(name)) == upper(name),
{
    let u = upper(name);
    assert forall|i: int| 0 <= i < u.len() implies #[trigger] is_tchar(u[i]) by {
        assert(is_tchar(name[i]));
        assert(u[i] == upper_char(name[i]));
    }
    assert(upper(u) =~= u);
}

proof fn lemma_header_lines_names(rest: Seq<char>, acc: Map<Seq<char>, Seq<char>>)
    requires
        upper_case_names(acc),
    ensures
        header_lines(rest, acc) matches Ok(h) ==> upper_case_names(h),
    decreases rest.len(),
{
    if rest.len() > 0 {
        let line = trim(line_of(rest));
        if line.len() > 0 {
            if let Some(e) = header_entry(line) {
                lemma_index_of(rest, '\n');
                lemma_index_of(line, ':');
                let j = index_of(line, ':').unwrap();
                lemma_upper_name(trim(line.take(j)));
                let next = acc.insert(e.0, e.1);
                assert(upper_case_names(next));
                lemma_header_lines_names(after_line(rest), next);
            }
        }
    }
}

/// Header names are stored normalized: every key of a parsed message's
/// headers is a valid header name in upper case, so lookups by upper-case
/// name find every header whatever the case it was written in.
pub proof fn parsed_header_names_are_upper(raw: Seq<char>)
    ensures
        spec_parse_message(raw) matches Ok(m) ==> upper_case_names(m.headers),
{
    lemma_header_lines_names(after_line(raw), Map::empty());
}

} // verus!
