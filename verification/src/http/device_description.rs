//! The UPnP device description document: building it, reading its fields
//! back, and the HTTP response that serves it.
use vstd::prelude::*;
use vstd::utf8::encode_utf8;

use crate::text::{
    chars_of, decimal, find, find_from_exec, matches_at, push_char, push_decimal, string_of,
};

verus! {

// ---------------------------------------------------------------------------
// XML escaping
// ---------------------------------------------------------------------------

/// The XML escape of one character.
pub open spec fn escape_char(c: char) -> Seq<char> {
    if c == '&' {
        "&amp;"@
    } else if c == '<' {
        "&lt;"@
    } else if c == '>' {
        "&gt;"@
    } else if c == '"' {
        "&quot;"@
    } else if c == '\'' {
        "&apos;"@
    } else {
        seq![c]
    }
}

/// The XML escape of a text: each of `& < > " '` replaced by its entity.
pub open spec fn escape(s: Seq<char>) -> Seq<char>
    decreases s.len(),
{
    if s.len() == 0 {
        Seq::empty()
    } else {
        escape(s.drop_last()) + escape_char(s.last())
    }
}

/// Escapes `value` for use as XML text.
fn escape_xml(value: &str) -> (s: String)
    ensures
        s@ == escape(value@),
{
    let v = chars_of(value);
    let mut s = String::new();
    let mut i: usize = 0;
    while i < v.len()
        invariant
            i <= v@.len(),
            v@ == value@,
            s@ == escape(v@.take(i as int)),
        decreases v@.len() - i,
    {
        let c = v[i];
        if c == '&' {
            s.append("&amp;");
        } else if c == '<' {
            s.append("&lt;");
        } else if c == '>' {
            s.append("&gt;");
        } else if c == '"' {
            s.append("&quot;");
        } else if c == '\'' {
            s.append("&apos;");
        } else {
            push_char(&mut s, c);
        }
        assert(v@.take(i + 1).drop_last() =~= v@.take(i as int));
        i = i + 1;
    }
    assert(v@.take(v@.len() as int) =~= v@);
    s
}

// ---------------------------------------------------------------------------
// The document
// ---------------------------------------------------------------------------

/// The text values that a device description advertises.
#[derive(Debug, Clone)]
pub struct DeviceDescriptionConfig {
    pub friendly_name: String,
    pub device_type: String,
    pub udn: String,
    pub manufacturer: String,
    pub model_name: String,
}

/// The concatenation of a list of texts.
pub open spec fn join(ps: Seq<Seq<char>>) -> Seq<char>
    decreases ps.len(),
{
    if ps.len() == 0 {
        Seq::empty()
    } else {
        join(ps.drop_last()) + ps.last()
    }
}

/// The pieces of the device description document, in order: fixed markup,
/// one tag or line break per piece, and the escaped field values.
pub open spec fn description_pieces(
    device_type: Seq<char>,
    friendly_name: Seq<char>,
    manufacturer: Seq<char>,
    model_name: Seq<char>,
    udn: Seq<char>,
) -> Seq<Seq<char>> {
    seq![
        "<?xml version=\"1.0\"?>"@,
        "\n"@,
        "<root xmlns=\"urn:schemas-upnp-org:device-1-0\">"@,
        "\n  "@,
        "<specVersion>"@,
        "\n    "@,
        "<major>"@,
        "1"@,
        "</major>"@,
        "\n    "@,
        "<minor>"@,
        "0"@,
        "</minor>"@,
        "\n  "@,
        "</specVersion>"@,
        "\n  "@,
        "<device>"@,
        "\n    "@,
        "<deviceType>"@,
        escape(device_type),
        "</deviceType>"@,
        "\n    "@,
        "<friendlyName>"@,
        escape(friendly_name),
        "</friendlyName>"@,
        "\n    "@,
        "<manufacturer>"@,
        escape(manufacturer),
        "</manufacturer>"@,
        "\n    "@,
        "<modelName>"@,
        escape(model_name),
        "</modelName>"@,
        "\n    "@,
        "<UDN>"@,
        escape(udn),
        "</UDN>"@,
        "\n  "@,
        "</device>"@,
        "\n"@,
        "</root>"@,
        "\n"@,
    ]
}

/// The device description document for the given field values.
pub open spec fn description_xml(
    device_type: Seq<char>,
    friendly_name: Seq<char>,
    manufacturer: Seq<char>,
    model_name: Seq<char>,
    udn: Seq<char>,
) -> Seq<char> {
    join(description_pieces(device_type, friendly_name, manufacturer, model_name, udn))
}

/// The device description document of `config`.
pub open spec fn config_xml(config: DeviceDescriptionConfig) -> Seq<char> {
    description_xml(
        config.device_type@,
        config.friendly_name@,
        config.manufacturer@,
        config.model_name@,
        config.udn@,
    )
}

/// The concatenation of `pieces`.
fn join_strings(pieces: &Vec<String>) -> (s: String)
    ensures
        s@ == join(pieces@.map_values(|p: String| p@)),
{
    let ghost views = pieces@.map_values(|p: String| p@);
    let mut s = String::new();
    let mut i: usize = 0;
    while i < pieces.len()
        invariant
            i <= pieces@.len(),
            views == pieces@.map_values(|p: String| p@),
            s@ == join(views.take(i as int)),
        decreases pieces@.len() - i,
    {
        s.append(pieces[i].as_str());
        assert(views.take(i + 1).drop_last() =~= views.take(i as int));
        i = i + 1;
    }
    assert(views.take(pieces@.len() as int) =~= views);
    s
}

/// Builds the UPnP device description document for `config`, with every
/// field value escaped for XML.
pub fn build_device_description_xml(config: &DeviceDescriptionConfig) -> (s: String)
    ensures
        s@ == config_xml(*config),
{
    let pieces: Vec<String> = vec![
        String::from_str("<?xml version=\"1.0\"?>"),
        String::from_str("\n"),
        String::from_str("<root xmlns=\"urn:schemas-upnp-org:device-1-0\">"),
        String::from_str("\n  "),
        String::from_str("<specVersion>"),
        String::from_str("\n    "),
        String::from_str("<major>"),
        String::from_str("1"),
        String::from_str("</major>"),
        String::from_str("\n    "),
        String::from_str("<minor>"),
        String::from_str("0"),
        String::from_str("</minor>"),
        String::from_str("\n  "),
        String::from_str("</specVersion>"),
        String::from_str("\n  "),
        String::from_str("<device>"),
        String::from_str("\n    "),
        String::from_str("<deviceType>"),
        escape_xml(config.device_type.as_str()),
        String::from_str("</deviceType>"),
        String::from_str("\n    "),
        String::from_str("<friendlyName>"),
        escape_xml(config.friendly_name.as_str()),
        String::from_str("</friendlyName>"),
        String::from_str("\n    "),
        String::from_str("<manufacturer>"),
        escape_xml(config.manufacturer.as_str()),
        String::from_str("</manufacturer>"),
        String::from_str("\n    "),
        String::from_str("<modelName>"),
        escape_xml(config.model_name.as_str()),
        String::from_str("</modelName>"),
        String::from_str("\n    "),
        String::from_str("<UDN>"),
        escape_xml(config.udn.as_str()),
        String::from_str("</UDN>"),
        String::from_str("\n  "),
        String::from_str("</device>"),
        String::from_str("\n"),
        String::from_str("</root>"),
        String::from_str("\n"),
    ];
    assert(pieces@.map_values(|p: String| p@) =~= description_pieces(
        config.device_type@,
        config.friendly_name@,
        config.manufacturer@,
        config.model_name@,
        config.udn@,
    ));
    join_strings(&pieces)
}

/// The HTTP response that serves the device description of `config`.
pub open spec fn description_response_text(config: DeviceDescriptionConfig) -> Seq<char> {
    "HTTP/1.1 200 OK\r\nContent-Type: application/xml; charset=utf-8\r\nContent-Length: "@
        + decimal(encode_utf8(config_xml(config)).len()) + "\r\nConnection: close\r\n\r\n"@
        + config_xml(config)
}

/// Builds the HTTP response that serves the device description of `config`:
/// a `200` response whose `Content-Length` is the UTF-8 length of the document.
pub fn build_description_response(config: &DeviceDescriptionConfig) -> (s: String)
    ensures
        s@ == description_response_text(*config),
{
    let body = build_device_description_xml(config);
    let bytes = body.as_str().as_bytes();
    let len = bytes.len();
    let mut s = String::from_str(
        "HTTP/1.1 200 OK\r\nContent-Type: application/xml; charset=utf-8\r\nContent-Length: ",
    );
    push_decimal(&mut s, len as u64);
    s.append("\r\nConnection: close\r\n\r\n");
    s.append(body.as_str());
    s
}

// ---------------------------------------------------------------------------
// Reading the fields back
// ---------------------------------------------------------------------------

/// Why an element could not be read.
pub enum TagFailure {
    MissingStart(Seq<char>),
    MissingEnd(Seq<char>),
}

/// The opening tag `<tag>`.
pub open spec fn open_tag(tag: Seq<char>) -> Seq<char> {
    "<"@ + tag + ">"@
}

/// The closing tag `</tag>`.
pub open spec fn close_tag(tag: Seq<char>) -> Seq<char> {
    "</"@ + tag + ">"@
}

/// The text between the first `<tag>` of `xml` and the first `</tag>` after it.
pub open spec fn spec_extract_tag(xml: Seq<char>, tag: Seq<char>) -> Result<Seq<char>, TagFailure> {
    match find(xml, open_tag(tag)) {
        None => Err(TagFailure::MissingStart(tag)),
        Some(i) => {
            let rest = xml.skip(i + open_tag(tag).len());
            match find(rest, close_tag(tag)) {
                None => Err(TagFailure::MissingEnd(tag)),
                Some(j) => Ok(rest.take(j)),
            }
        },
    }
}

/// The fields of a device description, as text.
pub struct FieldsView {
    pub friendly_name: Seq<char>,
    pub device_type: Seq<char>,
    pub udn: Seq<char>,
    pub manufacturer: Seq<char>,
    pub model_name: Seq<char>,
}

/// What `parse_device_description_fields` gives for `xml`: the five elements
/// read in the order deviceType, friendlyName, manufacturer, modelName, UDN,
/// or the failure of the first that cannot be read.
pub open spec fn spec_parse_fields(xml: Seq<char>) -> Result<FieldsView, TagFailure> {
    match spec_extract_tag(xml, "deviceType"@) {
        Err(e) => Err(e),
        Ok(device_type) => match spec_extract_tag(xml, "friendlyName"@) {
            Err(e) => Err(e),
            Ok(friendly_name) => match spec_extract_tag(xml, "manufacturer"@) {
                Err(e) => Err(e),
                Ok(manufacturer) => match spec_extract_tag(xml, "modelName"@) {
                    Err(e) => Err(e),
                    Ok(model_name) => match spec_extract_tag(xml, "UDN"@) {
                        Err(e) => Err(e),
                        Ok(udn) => Ok(
                            FieldsView { friendly_name, device_type, udn, manufacturer, model_name },
                        ),
                    },
                },
            },
        },
    }
}

/// The fields read from a device description.
#[derive(Debug, Clone, PartialEq, Eq)]
pub struct DeviceDescriptionFields {
    pub friendly_name: String,
    pub device_type: String,
    pub udn: String,
    pub manufacturer: String,
    pub model_name: String,
}

impl View for DeviceDescriptionFields {
    type V = FieldsView;

    open spec fn view(&self) -> FieldsView {
        FieldsView {
            friendly_name: self.friendly_name@,
            device_type: self.device_type@,
            udn: self.udn@,
            manufacturer: self.manufacturer@,
            model_name: self.model_name@,
        }
    }
}

/// Why a device description could not be read: an element without its
/// opening or its closing tag.
#[derive(Debug, Clone, PartialEq, Eq)]
pub enum DescriptionError {
    MissingStartTag(String),
    MissingEndTag(String),
}

impl View for DescriptionError {
    type V = TagFailure;

    open spec fn view(&self) -> TagFailure {
        match self {
            DescriptionError::MissingStartTag(t) => TagFailure::MissingStart(t@),
            DescriptionError::MissingEndTag(t) => TagFailure::MissingEnd(t@),
        }
    }
}

impl DescriptionError {
    /// The error message: `missing <tag> element` or `missing </tag> element`.
    pub fn message(&self) -> (s: String)
        ensures
            s@ == match self@ {
                TagFailure::MissingStart(t) => "missing <"@ + t + "> element"@,
                TagFailure::MissingEnd(t) => "missing </"@ + t + "> element"@,
            },
    {
        match self {
            DescriptionError::MissingStartTag(t) => {
                let mut s = String::from_str("missing <");
                s.append(t.as_str());
                s.append("> element");
                s
            },
            DescriptionError::MissingEndTag(t) => {
                let mut s = String::from_str("missing </");
                s.append(t.as_str());
                s.append("> element");
                s
            },
        }
    }
}

/// The text between the first `<tag>` of `xml` and the first `</tag>` after it.
fn extract_tag(xml: &str, tag: &str) -> (r: Result<String, DescriptionError>)
    ensures
        match r {
            Ok(s) => spec_extract_tag(xml@, tag@) == Ok::<Seq<char>, TagFailure>(s@),
            Err(e) => spec_extract_tag(xml@, tag@) == Err::<Seq<char>, TagFailure>(e@),
        },
{
    let mut start_token = String::from_str("<");
    start_token.append(tag);
    start_token.append(">");
    let mut end_token = String::from_str("</");
    end_token.append(tag);
    end_token.append(">");
    let x = chars_of(xml);
    let open = chars_of(start_token.as_str());
    let close = chars_of(end_token.as_str());
    let start = match find_from_exec(&x, &open, 0) {
        Some(i) => i,
        None => return Err(DescriptionError::MissingStartTag(String::from_str(tag))),
    };
    let n = x.len();
    let from = start + open.len();
    let rest = string_of(&x, from, n);
    let r = chars_of(rest.as_str());
    assert(r@ =~= x@.skip(from as int));
    let end = match find_from_exec(&r, &close, 0) {
        Some(j) => j,
        None => return Err(DescriptionError::MissingEndTag(String::from_str(tag))),
    };
    assert(r@.take(end as int) =~= r@.subrange(0, end as int));
    Ok(string_of(&r, 0, end))
}

/// Reads the five fields of a device description document: the text of the
/// first `deviceType`, `friendlyName`, `manufacturer`, `modelName` and `UDN`
/// elements, as written (entities are not decoded).
pub fn parse_device_description_fields(xml: &str) -> (r: Result<
    DeviceDescriptionFields,
    DescriptionError,
>)
    ensures
        match r {
            Ok(f) => spec_parse_fields(xml@) == Ok::<FieldsView, TagFailure>(f@),
            Err(e) => spec_parse_fields(xml@) == Err::<FieldsView, TagFailure>(e@),
        },
{
    let device_type = match extract_tag(xml, "deviceType") {
        Ok(v) => v,
        Err(e) => return Err(e),
    };
    let friendly_name = match extract_tag(xml, "friendlyName") {
        Ok(v) => v,
        Err(e) => return Err(e),
    };
    let manufacturer = match extract_tag(xml, "manufacturer") {
        Ok(v) => v,
        Err(e) => return Err(e),
    };
    let model_name = match extract_tag(xml, "modelName") {
        Ok(v) => v,
        Err(e) => return Err(e),
    };
    let udn = match extract_tag(xml, "UDN") {
        Ok(v) => v,
        Err(e) => return Err(e),
    };
    Ok(DeviceDescriptionFields { friendly_name, device_type, udn, manufacturer, model_name })
}

} // verus!
