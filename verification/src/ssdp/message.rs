//! The two SSDP messages that the client and the responder send.
use vstd::prelude::*;

use crate::text::{decimal, push_decimal};

verus! {

/// The text of an M-SEARCH request for `search_target`, addressed to `host`,
/// that asks for replies within `mx` seconds.
pub open spec fn m_search_text(host: Seq<char>, search_target: Seq<char>, mx: nat) -> Seq<char> {
    "M-SEARCH * HTTP/1.1\r\nHOST: "@ + host + "\r\nMAN: \"ssdp:discover\"\r\nMX: "@ + decimal(mx)
        + "\r\nST: "@ + search_target + "\r\n\r\n"@
}

/// The text of a discovery response that advertises `location` for
/// `search_target` under `usn`, valid for `max_age` seconds.
pub open spec fn discovery_response_text(
    location: Seq<char>,
    search_target: Seq<char>,
    usn: Seq<char>,
    max_age: nat,
) -> Seq<char> {
    "HTTP/1.1 200 OK\r\nCACHE-CONTROL: max-age="@ + decimal(max_age) + "\r\nEXT:\r\nLOCATION: "@
        + location + "\r\nST: "@ + search_target + "\r\nUSN: "@ + usn
        + "\r\nSERVER: monkeynuthead-upnp/0.1 UPnP/1.1\r\n\r\n"@
}

/// Builds an SSDP M-SEARCH request.
pub fn build_m_search(host: &str, search_target: &str, mx: u64) -> (s: String)
    ensures
        s@ == m_search_text(host@, search_target@, mx as nat),
{
    let mut s = String::from_str("M-SEARCH * HTTP/1.1\r\nHOST: ");
    s.append(host);
    s.append("\r\nMAN: \"ssdp:discover\"\r\nMX: ");
    push_decimal(&mut s, mx);
    s.append("\r\nST: ");
    s.append(search_target);
    s.append("\r\n\r\n");
    s
}

/// Builds the response that a device sends to a matching M-SEARCH.
pub fn build_discovery_response(location: &str, search_target: &str, usn: &str, max_age: u64) -> (s:
    String)
    ensures
        s@ == discovery_response_text(location@, search_target@, usn@, max_age as nat),
{
    let mut s = String::from_str("HTTP/1.1 200 OK\r\nCACHE-CONTROL: max-age=");
    push_decimal(&mut s, max_age);
    s.append("\r\nEXT:\r\nLOCATION: ");
    s.append(location);
    s.append("\r\nST: ");
    s.append(search_target);
    s.append("\r\nUSN: ");
    s.append(usn);
    s.append("\r\nSERVER: monkeynuthead-upnp/0.1 UPnP/1.1\r\n\r\n");
    s
}

} // verus!
