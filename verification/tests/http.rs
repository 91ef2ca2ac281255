use monkeynuthead_upnp::http::client::{
    build_get_request, parse_http_url, response_body, split_http_response, HttpError, UrlError,
};
use monkeynuthead_upnp::http::device_description::{
    build_description_response, build_device_description_xml, parse_device_description_fields,
    DescriptionError, DeviceDescriptionConfig, DeviceDescriptionFields,
};

fn demo_config() -> DeviceDescriptionConfig {
    DeviceDescriptionConfig {
        friendly_name: "monkeynuthead-upnp demo device".to_string(),
        device_type: "urn:schemas-upnp-org:device:MediaServer:1".to_string(),
        udn: "uuid:demo-device".to_string(),
        manufacturer: "monkeynuthead".to_string(),
        model_name: "upnp-demo".to_string(),
    }
}

#[test]
fn device_description_xml_is_exact() {
    assert_eq!(
        build_device_description_xml(&demo_config()),
        r#"<?xml version="1.0"?>
<root xmlns="urn:schemas-upnp-org:device-1-0">
  <specVersion>
    <major>1</major>
    <minor>0</minor>
  </specVersion>
  <device>
    <deviceType>urn:schemas-upnp-org:device:MediaServer:1</deviceType>
    <friendlyName>monkeynuthead-upnp demo device</friendlyName>
    <manufacturer>monkeynuthead</manufacturer>
    <modelName>upnp-demo</modelName>
    <UDN>uuid:demo-device</UDN>
  </device>
</root>
"#
    );
}

#[test]
fn device_description_fields_round_trip() {
    let config = demo_config();
    let fields = parse_device_description_fields(&build_device_description_xml(&config))
        .expect("device description should parse");
    assert_eq!(fields.friendly_name, config.friendly_name);
    assert_eq!(fields.device_type, config.device_type);
    assert_eq!(fields.udn, config.udn);
    assert_eq!(fields.manufacturer, config.manufacturer);
    assert_eq!(fields.model_name, config.model_name);
}

#[test]
fn device_description_escapes_markup() {
    let mut config = demo_config();
    config.friendly_name = "Tom & Jerry's <\"box\">".to_string();
    let xml = build_device_description_xml(&config);
    assert!(xml.contains(
        "<friendlyName>Tom &amp; Jerry&apos;s &lt;&quot;box&quot;&gt;</friendlyName>"
    ));
    let fields = parse_device_description_fields(&xml).expect("device description should parse");
    assert_eq!(
        fields.friendly_name,
        "Tom &amp; Jerry&apos;s &lt;&quot;box&quot;&gt;"
    );
    assert_eq!(fields.udn, "uuid:demo-device");
}

#[test]
fn device_description_fields_report_missing_tags() {
    assert_eq!(
        parse_device_description_fields("<root></root>"),
        Err(DescriptionError::MissingStartTag("deviceType".to_string()))
    );
    assert_eq!(
        parse_device_description_fields("<deviceType>x</deviceType><friendlyName>y"),
        Err(DescriptionError::MissingEndTag("friendlyName".to_string()))
    );
    assert_eq!(
        parse_device_description_fields(
            "<UDN>u</UDN><modelName>m</modelName><manufacturer>f</manufacturer><friendlyName>n</friendlyName><deviceType>t</deviceType>"
        ),
        Ok(DeviceDescriptionFields {
            friendly_name: "n".to_string(),
            device_type: "t".to_string(),
            udn: "u".to_string(),
            manufacturer: "f".to_string(),
            model_name: "m".to_string(),
        })
    );
    assert_eq!(
        DescriptionError::MissingStartTag("UDN".to_string()).message(),
        "missing <UDN> element"
    );
    assert_eq!(
        DescriptionError::MissingEndTag("UDN".to_string()).message(),
        "missing </UDN> element"
    );
}

#[test]
fn device_description_reads_first_element() {
    let xml = "<deviceType></deviceType><deviceType>b</deviceType><friendlyName>a<b</friendlyName></friendlyName><manufacturer>m</manufacturer><modelName>n</modelName><UDN>u</UDN>";
    let fields = parse_device_description_fields(xml).expect("should parse");
    assert_eq!(fields.device_type, "");
    assert_eq!(fields.friendly_name, "a<b");
}

#[test]
fn description_response_has_byte_length() {
    let mut config = demo_config();
    config.friendly_name = "Café ☕".to_string();
    let body = build_device_description_xml(&config);
    let response = build_description_response(&config);
    assert_eq!(
        response,
        format!(
            "HTTP/1.1 200 OK\r\nContent-Type: application/xml; charset=utf-8\r\nContent-Length: {}\r\nConnection: close\r\n\r\n{}",
            body.len(),
            body
        )
    );
    assert_ne!(body.len(), body.chars().count());
}

#[test]
fn served_description_is_read_back() {
    let config = demo_config();
    let response = build_description_response(&config);
    let body = response_body(&response).expect("response should have a body");
    assert_eq!(body, build_device_description_xml(&config));
    let fields = parse_device_description_fields(&body).expect("body should parse");
    assert_eq!(fields.model_name, "upnp-demo");
}

#[test]
fn url_parts_are_read() {
    assert_eq!(
        parse_http_url("http://127.0.0.1:8000/device.xml"),
        Ok(("127.0.0.1".to_string(), 8000, "/device.xml".to_string()))
    );
    assert_eq!(
        parse_http_url("http://example.com"),
        Ok(("example.com".to_string(), 80, "/".to_string()))
    );
    assert_eq!(
        parse_http_url("http://example.com/a/b:c"),
        Ok(("example.com".to_string(), 80, "/a/b:c".to_string()))
    );
    assert_eq!(
        parse_http_url("http://[::1]:8080/"),
        Ok(("[::1]".to_string(), 8080, "/".to_string()))
    );
    assert_eq!(
        parse_http_url("http://h:+0065535"),
        Ok(("h".to_string(), 65535, "/".to_string()))
    );
    assert_eq!(parse_http_url("http://"), Ok((String::new(), 80, "/".to_string())));
}

#[test]
fn bad_urls_are_refused() {
    assert_eq!(parse_http_url("https://x/"), Err(UrlError::UnsupportedScheme));
    assert_eq!(parse_http_url("HTTP://x/"), Err(UrlError::UnsupportedScheme));
    assert_eq!(parse_http_url("http://h:/"), Err(UrlError::InvalidPort));
    assert_eq!(parse_http_url("http://h:+/"), Err(UrlError::InvalidPort));
    assert_eq!(parse_http_url("http://h:65536/"), Err(UrlError::InvalidPort));
    assert_eq!(parse_http_url("http://h:8o/"), Err(UrlError::InvalidPort));
    assert_eq!(parse_http_url("http://h:-1/"), Err(UrlError::InvalidPort));
    assert_eq!(
        UrlError::UnsupportedScheme.message(),
        "only http:// URLs are supported"
    );
    assert_eq!(UrlError::InvalidPort.message(), "invalid port in URL");
}

#[test]
fn get_request_text_is_exact() {
    assert_eq!(
        build_get_request("127.0.0.1", 8000, "/device.xml"),
        "GET /device.xml HTTP/1.1\r\nHost: 127.0.0.1:8000\r\nConnection: close\r\n\r\n"
    );
}

#[test]
fn responses_are_split() {
    assert_eq!(
        split_http_response("HTTP/1.1 200 OK\r\nA: b\r\n\r\nbody\r\n\r\nmore"),
        Ok(("HTTP/1.1 200 OK".to_string(), "body\r\n\r\nmore".to_string()))
    );
    assert_eq!(
        split_http_response("HTTP/1.1 200 OK\r\r\n\r\n"),
        Ok(("HTTP/1.1 200 OK\r".to_string(), String::new()))
    );
    assert_eq!(
        split_http_response("HTTP/1.1 200 OK\r\n"),
        Err(HttpError::MissingBodySeparator)
    );
    assert_eq!(
        split_http_response("\r\n\r\nbody"),
        Err(HttpError::MissingStatusLine)
    );
}

#[test]
fn response_body_needs_ok_status() {
    assert_eq!(
        response_body("HTTP/1.1 200 OK\r\n\r\nhello"),
        Ok("hello".to_string())
    );
    assert_eq!(
        response_body("HTTP/1.1 404 Not Found\r\nX: y\r\n\r\nnope"),
        Err(HttpError::UnexpectedStatus("HTTP/1.1 404 Not Found".to_string()))
    );
    assert_eq!(
        response_body("HTTP/1.0 200 OK\r\n\r\n"),
        Err(HttpError::UnexpectedStatus("HTTP/1.0 200 OK".to_string()))
    );
    assert_eq!(
        HttpError::UnexpectedStatus("HTTP/1.1 500 Oops".to_string()).message(),
        "unexpected HTTP response: HTTP/1.1 500 Oops"
    );
    assert_eq!(
        HttpError::MissingBodySeparator.message(),
        "HTTP response was missing a body separator"
    );
    assert_eq!(
        HttpError::MissingStatusLine.message(),
        "HTTP response was missing a status line"
    );
}
