//! The decisions of an SSDP responder: which requests it answers, and with what.
use vstd::prelude::*;
use vstd::utf8::{decode_utf8, valid_utf8};

use crate::ssdp::message::{build_discovery_response, discovery_response_text};
use crate::ssdp::parser::{parse_message, spec_parse_message};
use crate::text::{
    chars_of, contains, contains_exec, decode_utf8_lossy, eq_ignore_case, eq_ignore_case_exec,
    starts_with, starts_with_exec, utf8_lossy,
};

verus! {

/// What a responder advertises.
#[derive(Debug, Clone)]
pub struct ResponderConfig {
    pub location: String,
    pub search_target: String,
    pub usn: String,
    pub max_age: u64,
}

/// A search for `search_target` is answered by a device of type `expected_target`
/// when it asks for everything (`ssdp:all`) or for that type, ignoring ASCII case.
pub open spec fn spec_should_reply(search_target: Seq<char>, expected_target: Seq<char>) -> bool {
    eq_ignore_case(search_target, "ssdp:all"@) || eq_ignore_case(search_target, expected_target)
}

/// The reply to a request text: the discovery response when the request parses,
/// is an M-SEARCH, has a `MAN` header that mentions `ssdp:discover` and an `ST`
/// header that the responder should answer; otherwise none.
pub open spec fn spec_reply(
    request: Seq<char>,
    location: Seq<char>,
    search_target: Seq<char>,
    usn: Seq<char>,
    max_age: nat,
) -> Option<Seq<char>> {
    match spec_parse_message(request) {
        Err(_) => None,
        Ok(m) => {
            if starts_with(m.start_line, "M-SEARCH "@) && m.headers.contains_key("MAN"@)
                && m.headers.contains_key("ST"@) && contains(m.headers["MAN"@], "ssdp:discover"@)
                && spec_should_reply(m.headers["ST"@], search_target) {
                Some(discovery_response_text(location, search_target, usn, max_age))
            } else {
                None
            }
        },
    }
}

/// Whether a device of type `expected_target` answers a search for `search_target`.
pub fn should_reply(search_target: &str, expected_target: &str) -> (b: bool)
    ensures
        b == spec_should_reply(search_target@, expected_target@),
{
    let st = chars_of(search_target);
    let all = chars_of("ssdp:all");
    let expected = chars_of(expected_target);
    eq_ignore_case_exec(&st, &all) || eq_ignore_case_exec(&st, &expected)
}

/// The response that `config` sends to the request text `request`, if any.
pub fn reply_for_request(request: &str, config: &ResponderConfig) -> (r: Option<String>)
    ensures
        match spec_reply(
            request@,
            config.location@,
            config.search_target@,
            config.usn@,
            config.max_age as nat,
        ) {
            Some(t) => r matches Some(s) && s@ == t,
            None => r is None,
        },
{
    let parsed = match parse_message(request) {
        Ok(parsed) => parsed,
        Err(_) => return None,
    };
    let start = chars_of(parsed.start_line.as_str());
    let is_m_search = starts_with_exec(&start, &chars_of("M-SEARCH "));
    let man = match parsed.headers.get("MAN") {
        Some(man) => man,
        None => return None,
    };
    let st = match parsed.headers.get("ST") {
        Some(st) => st,
        None => return None,
    };
    if !is_m_search || !contains_exec(&chars_of(man.as_str()), &chars_of("ssdp:discover"))
        || !should_reply(st.as_str(), config.search_target.as_str()) {
        return None;
    }
    Some(
        build_discovery_response(
            config.location.as_str(),
            config.search_target.as_str(),
            config.usn.as_str(),
            config.max_age,
        ),
    )
}

/// The response that `config` sends to a received datagram, if any: the
/// datagram is decoded as UTF-8 (invalid sequences replaced) and answered as
/// `reply_for_request` answers that text.
pub fn reply_for_datagram(payload: &[u8], config: &ResponderConfig) -> (r: Option<String>)
    ensures
        match spec_reply(
            utf8_lossy(payload@),
            config.location@,
            config.search_target@,
            config.usn@,
            config.max_age as nat,
        ) {
            Some(t) => r matches Some(s) && s@ == t,
            None => r is None,
        },
        valid_utf8(payload@) ==> match spec_reply(
            decode_utf8(payload@),
            config.location@,
            config.search_target@,
            config.usn@,
            config.max_age as nat,
        ) {
            Some(t) => r matches Some(s) && s@ == t,
            None => r is None,
        },
{
    let text = decode_utf8_lossy(payload);
    reply_for_request(text.as_str(), config)
}

} // verus!
