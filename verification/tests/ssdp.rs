use monkeynuthead_upnp::ssdp::client::{accept_reply, accept_reply_datagram, reply_summary};
use monkeynuthead_upnp::ssdp::message::{build_discovery_response, build_m_search};
use monkeynuthead_upnp::ssdp::parser::parse_message;
use monkeynuthead_upnp::ssdp::server::{
    reply_for_datagram, reply_for_request, should_reply, ResponderConfig,
};

fn responder() -> ResponderConfig {
    ResponderConfig {
        location: "http://127.0.0.1:8000/device.xml".to_string(),
        search_target: "upnp:rootdevice".to_string(),
        usn: "uuid:dummy-device::upnp:rootdevice".to_string(),
        max_age: 1800,
    }
}

#[test]
fn m_search_text_is_exact() {
    assert_eq!(
        build_m_search("239.255.255.250:1900", "ssdp:all", 2),
        "M-SEARCH * HTTP/1.1\r\nHOST: 239.255.255.250:1900\r\nMAN: \"ssdp:discover\"\r\nMX: 2\r\nST: ssdp:all\r\n\r\n"
    );
    assert_eq!(
        build_m_search("h", "t", 18446744073709551615),
        "M-SEARCH * HTTP/1.1\r\nHOST: h\r\nMAN: \"ssdp:discover\"\r\nMX: 18446744073709551615\r\nST: t\r\n\r\n"
    );
}

#[test]
fn discovery_response_text_is_exact() {
    assert_eq!(
        build_discovery_response("http://a/d.xml", "upnp:rootdevice", "uuid:x", 1800),
        "HTTP/1.1 200 OK\r\nCACHE-CONTROL: max-age=1800\r\nEXT:\r\nLOCATION: http://a/d.xml\r\nST: upnp:rootdevice\r\nUSN: uuid:x\r\nSERVER: monkeynuthead-upnp/0.1 UPnP/1.1\r\n\r\n"
    );
    assert!(build_discovery_response("l", "s", "u", 0).contains("max-age=0\r\n"));
}

#[test]
fn built_m_search_parses_back() {
    let parsed = parse_message(&build_m_search(" 127.0.0.1:1900 ", "upnp:rootdevice", 3))
        .expect("request should parse");
    assert_eq!(parsed.start_line, "M-SEARCH * HTTP/1.1");
    assert_eq!(parsed.headers.get("HOST"), Some(&"127.0.0.1:1900".to_string()));
    assert_eq!(
        parsed.headers.get("MAN"),
        Some(&"\"ssdp:discover\"".to_string())
    );
    assert_eq!(parsed.headers.get("MX"), Some(&"3".to_string()));
    assert_eq!(parsed.headers.get("ST"), Some(&"upnp:rootdevice".to_string()));
}

#[test]
fn should_reply_ignores_ascii_case() {
    assert!(should_reply("ssdp:all", "upnp:rootdevice"));
    assert!(should_reply("SSDP:ALL", "upnp:rootdevice"));
    assert!(should_reply("UPnP:RootDevice", "upnp:rootdevice"));
    assert!(!should_reply("upnp:rootdevice2", "upnp:rootdevice"));
    assert!(!should_reply("", "upnp:rootdevice"));
    assert!(should_reply("", ""));
}

#[test]
fn responder_answers_matching_search() {
    let config = responder();
    let request = build_m_search("127.0.0.1:1900", "upnp:rootdevice", 2);
    assert_eq!(
        reply_for_request(&request, &config),
        Some(build_discovery_response(
            "http://127.0.0.1:8000/device.xml",
            "upnp:rootdevice",
            "uuid:dummy-device::upnp:rootdevice",
            1800
        ))
    );
    let all = build_m_search("127.0.0.1:1900", "ssdp:all", 2);
    assert!(reply_for_request(&all, &config).is_some());
}

#[test]
fn responder_ignores_other_requests() {
    let config = responder();
    let other = build_m_search("127.0.0.1:1900", "urn:other", 2);
    assert_eq!(reply_for_request(&other, &config), None);
    assert_eq!(
        reply_for_request("NOTIFY * HTTP/1.1\r\nMAN: \"ssdp:discover\"\r\nST: ssdp:all\r\n\r\n", &config),
        None
    );
    assert_eq!(
        reply_for_request("M-SEARCH * HTTP/1.1\r\nST: ssdp:all\r\n\r\n", &config),
        None
    );
    assert_eq!(
        reply_for_request("M-SEARCH * HTTP/1.1\r\nMAN: \"ssdp:discover\"\r\n\r\n", &config),
        None
    );
    assert_eq!(
        reply_for_request("M-SEARCH * HTTP/1.1\r\nMAN: discover\r\nST: ssdp:all\r\n\r\n", &config),
        None
    );
    assert_eq!(reply_for_request("", &config), None);
    assert_eq!(reply_for_request("M-SEARCH *\r\nbroken\r\n", &config), None);
}

#[test]
fn responder_reads_datagrams() {
    let config = responder();
    let request = build_m_search("127.0.0.1:1900", "upnp:rootdevice", 2);
    assert!(reply_for_datagram(request.as_bytes(), &config).is_some());
    assert_eq!(reply_for_datagram(&[0xff, 0xfe, b'\n'], &config), None);
}

#[test]
fn client_keeps_discovery_responses() {
    let reply = build_discovery_response(
        "http://127.0.0.1:8000/device.xml",
        "upnp:rootdevice",
        "uuid:dummy-device::upnp:rootdevice",
        1800,
    );
    let kept = accept_reply(&reply).expect("reply should be kept");
    assert_eq!(kept.headers.get("ST"), Some(&"upnp:rootdevice".to_string()));
    assert_eq!(
        kept.headers.get("USN"),
        Some(&"uuid:dummy-device::upnp:rootdevice".to_string())
    );
    assert_eq!(
        kept.headers.get("LOCATION"),
        Some(&"http://127.0.0.1:8000/device.xml".to_string())
    );
    assert!(accept_reply_datagram(reply.as_bytes()).is_some());
}

#[test]
fn client_drops_other_messages() {
    assert!(accept_reply(&build_m_search("h", "ssdp:all", 1)).is_none());
    assert!(accept_reply("HTTP/1.1 404 Not Found\r\nLOCATION: l\r\nST: s\r\nUSN: u\r\n\r\n").is_none());
    assert!(accept_reply("HTTP/1.1 200 OK\r\nLOCATION: l\r\nST: s\r\n\r\n").is_none());
    assert!(accept_reply("HTTP/1.1 200 OK\r\nST: s\r\nUSN: u\r\n\r\n").is_none());
    assert!(accept_reply("HTTP/1.1 200 OK\r\nLOCATION: l\r\nUSN: u\r\n\r\n").is_none());
    assert!(accept_reply("").is_none());
    assert!(accept_reply_datagram(&[0xc3]).is_none());
}

#[test]
fn discovery_exchange_between_client_and_responder() {
    let config = responder();
    let request = build_m_search("127.0.0.1:1900", "upnp:rootdevice", 2);
    let reply = reply_for_datagram(request.as_bytes(), &config).expect("responder should answer");
    let kept = accept_reply_datagram(reply.as_bytes()).expect("client should keep the reply");
    assert_eq!(kept.headers.get("ST"), Some(&"upnp:rootdevice".to_string()));
    assert_eq!(
        kept.headers.get("USN"),
        Some(&"uuid:dummy-device::upnp:rootdevice".to_string())
    );
    assert_eq!(
        kept.headers.get("LOCATION"),
        Some(&"http://127.0.0.1:8000/device.xml".to_string())
    );
}

#[test]
fn reply_summary_reports_headers_or_missing() {
    let reply = parse_message(
        "HTTP/1.1 200 OK\r\nST: upnp:rootdevice\r\nLOCATION: http://10.0.0.2/d.xml\r\n\r\n",
    )
    .expect("valid response should parse");
    assert_eq!(
        reply_summary("10.0.0.2:1900", &reply),
        "peer=10.0.0.2:1900 st=upnp:rootdevice usn=<missing> location=http://10.0.0.2/d.xml"
    );
}
