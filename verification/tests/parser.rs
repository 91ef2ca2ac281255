use monkeynuthead_upnp::ssdp::parser::{parse_message, HeaderMap, ParseError};

#[test]
fn parse_m_search_message_smoke_test() {
    let input = "M-SEARCH * HTTP/1.1\r\nHOST: 239.255.255.250:1900\r\nMAN: \"ssdp:discover\"\r\nMX: 2\r\nST: ssdp:all\r\n\r\n";

    let parsed = parse_message(input).expect("valid message should parse");
    assert_eq!(parsed.start_line, "M-SEARCH * HTTP/1.1");
    assert_eq!(
        parsed.headers.get("HOST"),
        Some(&"239.255.255.250:1900".to_string())
    );
    assert_eq!(parsed.headers.get("MX"), Some(&"2".to_string()));
    assert_eq!(parsed.headers.get("ST"), Some(&"ssdp:all".to_string()));
}

#[test]
fn parse_response_message_smoke_test() {
    let input = "HTTP/1.1 200 OK\r\nCACHE-CONTROL: max-age=120\r\nLOCATION: http://192.168.1.2:8080/device.xml\r\nST: upnp:rootdevice\r\nUSN: uuid:dummy::upnp:rootdevice\r\n\r\n";

    let parsed = parse_message(input).expect("valid response should parse");
    assert_eq!(parsed.start_line, "HTTP/1.1 200 OK");
    assert_eq!(
        parsed.headers.get("LOCATION"),
        Some(&"http://192.168.1.2:8080/device.xml".to_string())
    );
}

#[test]
fn parse_fails_without_colon_in_header() {
    let input = "M-SEARCH * HTTP/1.1\r\nHOST 239.255.255.250:1900\r\n\r\n";
    let parsed = parse_message(input);

    assert!(matches!(
        parsed,
        Err(ParseError::InvalidHeaderLine(line)) if line == "HOST 239.255.255.250:1900"
    ));
}

#[test]
fn parse_rejects_blank_message() {
    assert_eq!(parse_message("").unwrap_err(), ParseError::EmptyMessage);
    assert_eq!(parse_message(" \r\n\t\n").unwrap_err(), ParseError::EmptyMessage);
}

#[test]
fn parse_rejects_blank_start_line() {
    assert_eq!(
        parse_message("\r\nHOST: a\r\n").unwrap_err(),
        ParseError::MissingStartLine
    );
    assert_eq!(
        parse_message("   \nM-SEARCH * HTTP/1.1").unwrap_err(),
        ParseError::MissingStartLine
    );
}

#[test]
fn parse_rejects_invalid_header_name() {
    assert_eq!(
        parse_message("NOTIFY * HTTP/1.1\r\n  BAD NAME : x \r\n").unwrap_err(),
        ParseError::InvalidHeaderLine("BAD NAME : x".to_string())
    );
    assert_eq!(
        parse_message("NOTIFY * HTTP/1.1\r\n: x\r\n").unwrap_err(),
        ParseError::InvalidHeaderLine(": x".to_string())
    );
    assert_eq!(
        parse_message("NOTIFY * HTTP/1.1\r\nNAMÉ: x\r\n").unwrap_err(),
        ParseError::InvalidHeaderLine("NAMÉ: x".to_string())
    );
}

#[test]
fn parse_normalizes_names_and_values() {
    let parsed =
        parse_message("  NOTIFY * HTTP/1.1  \nhost:   a:b:c  \r\nCache-Control :max-age=5\n")
            .expect("message should parse");
    assert_eq!(parsed.start_line, "NOTIFY * HTTP/1.1");
    assert_eq!(parsed.headers.get("HOST"), Some(&"a:b:c".to_string()));
    assert_eq!(
        parsed.headers.get("CACHE-CONTROL"),
        Some(&"max-age=5".to_string())
    );
    assert_eq!(parsed.headers.get("host"), None);
    assert!(parsed.headers.contains_key("HOST"));
    assert!(!parsed.headers.contains_key("MAN"));
}

#[test]
fn parse_stops_at_blank_line_and_keeps_last_value() {
    let parsed = parse_message("A B C\r\nX: 1\r\nx: 2\r\n\r\nnot a header\r\nY: 3\r\n")
        .expect("message should parse");
    assert_eq!(parsed.headers.get("X"), Some(&"2".to_string()));
    assert_eq!(parsed.headers.get("Y"), None);
}

#[test]
fn parse_keeps_empty_values() {
    let parsed = parse_message("HTTP/1.1 200 OK\r\nEXT:\r\n").expect("message should parse");
    assert_eq!(parsed.headers.get("EXT"), Some(&String::new()));
}

#[test]
fn parsed_messages_compare_by_content() {
    let a = parse_message("A\r\nX: 1\r\nY: 2\r\n").expect("should parse");
    let b = parse_message("A\r\ny: 2\r\nx: 0\r\nX: 1\r\n").expect("should parse");
    let c = parse_message("A\r\nX: 1\r\n").expect("should parse");
    let d = parse_message("A\r\nX: 1\r\nY: 3\r\n").expect("should parse");
    assert_eq!(a, b);
    assert_ne!(a, c);
    assert_ne!(c, a);
    assert_ne!(a, d);
    assert_eq!(a.clone(), a);
}

#[test]
fn text_after_first_blank_line_is_ignored() {
    let head = "M-SEARCH * HTTP/1.1\r\nST: ssdp:all";
    let bare = parse_message(&format!("{head}\r\n\r\n"));
    let with_body = parse_message(&format!("{head}\r\n\r\nnot a header\r\n: also not\r\n"));
    assert!(bare.is_ok());
    assert_eq!(bare, with_body);

    let single = parse_message("NOTIFY * HTTP/1.1\r\n\r\n<xml/>");
    assert_eq!(single, parse_message("NOTIFY * HTTP/1.1\r\n\r\n"));
}

#[test]
fn header_map_lists_entries_by_name() {
    let mut headers = HeaderMap::new();
    assert!(headers.is_empty());
    headers.insert("ST".to_string(), "ssdp:all".to_string());
    headers.insert("HOST".to_string(), "239.255.255.250:1900".to_string());
    headers.insert("MX".to_string(), "2".to_string());
    headers.insert("HOST".to_string(), "10.0.0.1:1900".to_string());
    assert_eq!(headers.len(), 3);
    assert!(!headers.is_empty());
    assert_eq!(
        headers.entries(),
        vec![
            ("HOST".to_string(), "10.0.0.1:1900".to_string()),
            ("MX".to_string(), "2".to_string()),
            ("ST".to_string(), "ssdp:all".to_string()),
        ]
    );
}

#[test]
fn parsed_headers_are_listed_in_name_order() {
    let parsed = parse_message("HTTP/1.1 200 OK\r\nUSN: u\r\nst: t\r\nCache-Control: max-age=5\r\n\r\n")
        .expect("valid response should parse");
    let names: Vec<String> = parsed.headers.entries().into_iter().map(|(k, _)| k).collect();
    assert_eq!(names, vec!["CACHE-CONTROL", "ST", "USN"]);
}
