//! The decisions of an SSDP client: which replies to a search it keeps, and
//! how a kept reply is reported.
use vstd::prelude::*;
use vstd::utf8::{decode_utf8, valid_utf8};

use crate::ssdp::parser::{parse_message, spec_parse_message, MessageView, ParsedMessage};
use crate::text::{chars_of, decode_utf8_lossy, starts_with, starts_with_exec, utf8_lossy};

verus! {

/// A parsed reply is kept when it is a `200` response that names a location,
/// a search target and a unique service name.
pub open spec fn is_discovery_reply(m: MessageView) -> bool {
    &&& starts_with(m.start_line, "HTTP/1.1 200"@)
    &&& m.headers.contains_key("LOCATION"@)
    &&& m.headers.contains_key("ST"@)
    &&& m.headers.contains_key("USN"@)
}

/// The reply that a received text amounts to, if the client keeps it.
pub open spec fn spec_accept_reply(text: Seq<char>) -> Option<MessageView> {
    match spec_parse_message(text) {
        Ok(m) => if is_discovery_reply(m) {
            Some(m)
        } else {
            None
        },
        Err(_) => None,
    }
}

/// The parsed reply, if the client keeps the text `text` as a discovery reply.
pub fn accept_reply(text: &str) -> (r: Option<ParsedMessage>)
    ensures
        match spec_accept_reply(text@) {
            Some(m) => r matches Some(p) && p@ == m,
            None => r is None,
        },
{
    match parse_message(text) {
        Ok(parsed) => {
            let start = chars_of(parsed.start_line.as_str());
            if starts_with_exec(&start, &chars_of("HTTP/1.1 200"))
                && parsed.headers.contains_key("LOCATION") && parsed.headers.contains_key("ST")
                && parsed.headers.contains_key("USN") {
                Some(parsed)
            } else {
                None
            }
        },
        Err(_) => None,
    }
}

/// The parsed reply, if the client keeps a received datagram: the datagram is
/// decoded as UTF-8 (invalid sequences replaced) and judged as `accept_reply`
/// judges that text.
pub fn accept_reply_datagram(payload: &[u8]) -> (r: Option<ParsedMessage>)
    ensures
        match spec_accept_reply(utf8_lossy(payload@)) {
            Some(m) => r matches Some(p) && p@ == m,
            None => r is None,
        },
        valid_utf8(payload@) ==> match spec_accept_reply(decode_utf8(payload@)) {
            Some(m) => r matches Some(p) && p@ == m,
            None => r is None,
        },
{
    let text = decode_utf8_lossy(payload);
    accept_reply(text.as_str())
}

/// The value of header `name` in `m`, or `<missing>` when it has none.
pub open spec fn header_or_missing(m: MessageView, name: Seq<char>) -> Seq<char> {
    if m.headers.contains_key(name) {
        m.headers[name]
    } else {
        "<missing>"@
    }
}

/// The report line of a reply from `peer`: its search target, unique service
/// name and location.
pub open spec fn reply_summary_text(peer: Seq<char>, m: MessageView) -> Seq<char> {
    "peer="@ + peer + " st="@ + header_or_missing(m, "ST"@) + " usn="@ + header_or_missing(
        m,
        "USN"@,
    ) + " location="@ + header_or_missing(m, "LOCATION"@)
}

fn append_header_or_missing(s: &mut String, reply: &ParsedMessage, name: &str)
    ensures
        final(s)@ == old(s)@ + header_or_missing(reply@, name@),
{
    match reply.headers.get(name) {
        Some(v) => s.append(v.as_str()),
        None => s.append("<missing>"),
    }
}

/// The line that reports a reply received from `peer`.
pub fn reply_summary(peer: &str, reply: &ParsedMessage) -> (s: String)
    ensures
        s@ == reply_summary_text(peer@, reply@),
{
    let mut s = String::from_str("peer=");
    s.append(peer);
    s.append(" st=");
    append_header_or_missing(&mut s, reply, "ST");
    s.append(" usn=");
    append_header_or_missing(&mut s, reply, "USN");
    s.append(" location=");
    append_header_or_missing(&mut s, reply, "LOCATION");
    s
}

} // verus!
