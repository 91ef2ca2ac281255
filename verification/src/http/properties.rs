//! What the device description guarantees: every field written into the
//! document is read back from it (escaped), so fields without markup
//! characters come back exactly.
use vstd::prelude::*;

use vstd::utf8::encode_utf8;

use crate::http::client::{
    all_digits, get_request_text, spec_parse_http_url, spec_parse_u16, spec_response_body, spec_split_http_response,
    status_line, unsigned_digits, HttpFailure, UrlFailure,
};
use crate::http::device_description::{
    close_tag, config_xml, description_pieces, description_response_text, description_xml,
    escape, escape_char, join, open_tag, spec_extract_tag, spec_parse_fields,
    DeviceDescriptionConfig, FieldsView, TagFailure,
};
use crate::ssdp::parser::{single_line, spec_parse_message, valid_header_name};
use crate::ssdp::properties::{
    lemma_decimal_field, lemma_header_lines_blank, lemma_header_lines_step, lemma_parse_start,
    lemma_single_line_field, lemma_trim_field,
};
use crate::text::{
    all_ws, is_ws, last_index_of, lemma_index_of, lemma_last_index_of, lemma_trim_exact, lemma_trim_pad, upper,
    decimal, find, is_digit, lemma_decimal_digits, lemma_find_is,
    lemma_find_shift, lemma_index_of_is, lemma_last_index_of_is, lemma_no_match_without,
    matches_at, shift, starts_with,
};

verus! {

// ---------------------------------------------------------------------------
// Searching a text made of pieces
// ---------------------------------------------------------------------------

/// `t` is one markup tag: `<`, then neither `<` nor `>`, then `>`.
pub open spec fn tag_shaped(t: Seq<char>) -> bool {
    &&& t.len() >= 2
    &&& t[0] == '<'
    &&& t.last() == '>'
    &&& forall|i: int| 0 < i < t.len() - 1 ==> #[trigger] t[i] != '<' && t[i] != '>'
}

/// `a` has no `<`.
pub open spec fn no_open_angle(a: Seq<char>) -> bool {
    forall|i: int| 0 <= i < a.len() ==> #[trigger] a[i] != '<'
}

/// A piece is either free of `<` or a single tag.
pub open spec fn piece_ok(a: Seq<char>) -> bool {
    no_open_angle(a) || tag_shaped(a)
}

/// The first `k` pieces are well formed and none of them is `p`.
pub open spec fn pieces_before(ps: Seq<Seq<char>>, p: Seq<char>, k: int) -> bool
    decreases k,
{
    if k <= 0 {
        true
    } else {
        piece_ok(ps[k - 1]) && ps[k - 1] != p && pieces_before(ps, p, k - 1)
    }
}

proof fn lemma_pieces_before(ps: Seq<Seq<char>>, p: Seq<char>, k: int)
    requires
        pieces_before(ps, p, k),
    ensures
        forall|j: int| 0 <= j < k ==> piece_ok(#[trigger] ps[j]) && ps[j] != p,
    decreases k,
{
    if k > 0 {
        lemma_pieces_before(ps, p, k - 1);
    }
}

/// A tag cannot start inside a piece free of `<`.
proof fn lemma_no_match_in_plain(a: Seq<char>, b: Seq<char>, p: Seq<char>)
    requires
        no_open_angle(a),
        p.len() > 0,
        p[0] == '<',
    ensures
        forall|j: int| 0 <= j < a.len() ==> !#[trigger] matches_at(a + b, p, j),
{
    assert forall|j: int| 0 <= j < a.len() implies !#[trigger] matches_at(a + b, p, j) by {
        if matches_at(a + b, p, j) {
            assert((a + b).subrange(j, j + p.len())[0] == p[0]);
            assert((a + b)[j] == a[j]);
        }
    }
}

/// A tag cannot start inside a different tag.
proof fn lemma_no_match_in_token(t: Seq<char>, b: Seq<char>, p: Seq<char>)
    requires
        tag_shaped(t),
        tag_shaped(p),
        t != p,
    ensures
        forall|j: int| 0 <= j < t.len() ==> !#[trigger] matches_at(t + b, p, j),
{
    assert forall|j: int| 0 <= j < t.len() implies !#[trigger] matches_at(t + b, p, j) by {
        if matches_at(t + b, p, j) {
            let s = t + b;
            assert(s.subrange(j, j + p.len())[0] == p[0]);
            assert(s[j] == t[j]);
            if j == 0 {
                if p.len() <= t.len() {
                    let i = p.len() - 1;
                    assert(s.subrange(0, p.len() as int)[i] == p[i]);
                    assert(s[i] == t[i]);
                    if p.len() < t.len() {
                        assert(t[i] != '>');
                    }
                    assert(t =~= s.subrange(0, p.len() as int));
                } else {
                    let i = t.len() - 1;
                    assert(s.subrange(0, p.len() as int)[i] == p[i]);
                    assert(s[i] == t[i]);
                    assert(p[i] != '>');
                }
            } else if j < t.len() - 1 {
                assert(t[j] != '<');
            }
        }
    }
}

/// The concatenation of pieces is the first piece followed by the rest.
proof fn lemma_join_cons(ps: Seq<Seq<char>>)
    requires
        ps.len() > 0,
    ensures
        join(ps) == ps[0] + join(ps.drop_first()),
    decreases ps.len(),
{
    if ps.len() == 1 {
        assert(ps.drop_last() =~= Seq::<Seq<char>>::empty());
        assert(ps.drop_first() =~= Seq::<Seq<char>>::empty());
        assert(join(ps) =~= ps[0] + join(ps.drop_first()));
    } else {
        let dl = ps.drop_last();
        lemma_join_cons(dl);
        assert(dl.drop_first() =~= ps.drop_first().drop_last());
        assert(ps.drop_first().last() == ps.last());
        assert(join(ps) =~= ps[0] + join(ps.drop_first()));
    }
}

/// The concatenation of pieces splits at any piece boundary.
proof fn lemma_join_split(ps: Seq<Seq<char>>, k: int)
    requires
        0 <= k <= ps.len(),
    ensures
        join(ps) == join(ps.take(k)) + join(ps.skip(k)),
    decreases ps.len(),
{
    if k == ps.len() {
        assert(ps.take(k) =~= ps);
        assert(ps.skip(k) =~= Seq::<Seq<char>>::empty());
        assert(join(ps) + Seq::<char>::empty() =~= join(ps));
    } else {
        let dl = ps.drop_last();
        lemma_join_split(dl, k);
        assert(dl.take(k) =~= ps.take(k));
        assert(ps.skip(k).drop_last() =~= dl.skip(k));
        assert(ps.skip(k).last() == ps.last());
        assert(join(ps) =~= join(ps.take(k)) + join(ps.skip(k)));
    }
}

/// The first occurrence of the tag `p` in a text made of well-formed pieces
/// is where the first piece equal to `p` begins.
proof fn lemma_find_pieces(ps: Seq<Seq<char>>, p: Seq<char>, k: int)
    requires
        tag_shaped(p),
        0 <= k < ps.len(),
        ps[k] == p,
        forall|j: int| 0 <= j < k ==> piece_ok(#[trigger] ps[j]) && ps[j] != p,
    ensures
        find(join(ps), p) == Some(join(ps.take(k)).len() as int),
    decreases k,
{
    lemma_join_cons(ps);
    let rest = ps.drop_first();
    if k == 0 {
        assert((p + join(rest)).subrange(0, p.len() as int) =~= p);
        lemma_find_is(join(ps), p, 0);
        assert(ps.take(0) =~= Seq::<Seq<char>>::empty());
    } else {
        assert(piece_ok(ps[0]) && ps[0] != p);
        if no_open_angle(ps[0]) {
            lemma_no_match_in_plain(ps[0], join(rest), p);
        } else {
            lemma_no_match_in_token(ps[0], join(rest), p);
        }
        lemma_find_shift(ps[0], join(rest), p);
        assert forall|j: int| 0 <= j < k - 1 implies piece_ok(#[trigger] rest[j]) && rest[j]
            != p by {
            assert(rest[j] == ps[j + 1]);
        }
        lemma_find_pieces(rest, p, k - 1);
        let front = ps.take(k);
        lemma_join_cons(front);
        assert(front.drop_first() =~= rest.take(k - 1));
    }
}

/// Reading the element `tag` from a text made of well-formed pieces: when its
/// first opening tag is piece `k`, followed by a piece free of `<` and then the
/// closing tag, the element's text is that piece.
proof fn lemma_extract_pieces(ps: Seq<Seq<char>>, tag: Seq<char>, k: int)
    requires
        tag_shaped(open_tag(tag)),
        tag_shaped(close_tag(tag)),
        0 <= k,
        k + 2 < ps.len(),
        ps[k] == open_tag(tag),
        no_open_angle(ps[k + 1]),
        ps[k + 2] == close_tag(tag),
        forall|j: int| 0 <= j < k ==> piece_ok(#[trigger] ps[j]) && ps[j] != open_tag(tag),
    ensures
        spec_extract_tag(join(ps), tag) == Ok::<Seq<char>, TagFailure>(ps[k + 1]),
{
    let open = open_tag(tag);
    let close = close_tag(tag);
    lemma_find_pieces(ps, open, k);
    let i = join(ps.take(k)).len() as int;
    lemma_join_split(ps, k + 1);
    let head = ps.take(k + 1);
    assert(head.drop_last() =~= ps.take(k));
    assert(join(head) == join(ps.take(k)) + open);
    let qs = ps.skip(k + 1);
    assert(join(ps).skip(i + open.len()) =~= join(qs));
    let e = ps[k + 1];
    assert(qs[0] == e);
    assert(qs[1] == close);
    assert(e != close) by {
        if e == close {
            assert(e[0] == '<');
        }
    }
    assert(piece_ok(qs[0]));
    lemma_find_pieces(qs, close, 1);
    let one = qs.take(1);
    assert(one.drop_last() =~= Seq::<Seq<char>>::empty());
    assert(one.last() == e);
    assert(join(one.drop_last()) == Seq::<char>::empty());
    assert(join(one) =~= e);
    lemma_join_cons(qs);
    assert(join(qs).take(e.len() as int) =~= e);
}

// ---------------------------------------------------------------------------
// Escaping
// ---------------------------------------------------------------------------

proof fn lemma_escape_char_no_open_angle(c: char)
    ensures
        no_open_angle(escape_char(c)),
{
    reveal_strlit("&amp;");
    reveal_strlit("&lt;");
    reveal_strlit("&gt;");
    reveal_strlit("&quot;");
    reveal_strlit("&apos;");
}

/// Escaped text has no `<`.
pub proof fn lemma_escape_no_open_angle(s: Seq<char>)
    ensures
        no_open_angle(escape(s)),
    decreases s.len(),
{
    if s.len() > 0 {
        lemma_escape_no_open_angle(s.drop_last());
        lemma_escape_char_no_open_angle(s.last());
        let a = escape(s.drop_last());
        let b = escape_char(s.last());
        assert forall|i: int| 0 <= i < (a + b).len() implies #[trigger] (a + b)[i] != '<' by {
            if i < a.len() {
                assert(a[i] != '<');
            } else {
                assert(b[i - a.len()] != '<');
            }
        }
    }
}

/// `c` is one of the characters that XML escaping replaces.
pub open spec fn is_markup_char(c: char) -> bool {
    c == '&' || c == '<' || c == '>' || c == '"' || c == '\''
}

/// Text without markup characters is its own escape.
pub proof fn lemma_escape_plain(s: Seq<char>)
    requires
        forall|i: int| 0 <= i < s.len() ==> !#[trigger] is_markup_char(s[i]),
    ensures
        escape(s) == s,
    decreases s.len(),
{
    if s.len() > 0 {
        assert(!is_markup_char(s[s.len() - 1]));
        lemma_escape_plain(s.drop_last());
        assert(s.drop_last().push(s.last()) =~= s);
        assert(escape(s) =~= s);
    }
}

// ---------------------------------------------------------------------------
// The document
// ---------------------------------------------------------------------------

proof fn lemma_tags()
    ensures
        open_tag("deviceType"@) == "<deviceType>"@,
        close_tag("deviceType"@) == "</deviceType>"@,
        open_tag("friendlyName"@) == "<friendlyName>"@,
        close_tag("friendlyName"@) == "</friendlyName>"@,
        open_tag("manufacturer"@) == "<manufacturer>"@,
        close_tag("manufacturer"@) == "</manufacturer>"@,
        open_tag("modelName"@) == "<modelName>"@,
        close_tag("modelName"@) == "</modelName>"@,
        open_tag("UDN"@) == "<UDN>"@,
        close_tag("UDN"@) == "</UDN>"@,
        tag_shaped("<deviceType>"@),
        tag_shaped("</deviceType>"@),
        tag_shaped("<friendlyName>"@),
        tag_shaped("</friendlyName>"@),
        tag_shaped("<manufacturer>"@),
        tag_shaped("</manufacturer>"@),
        tag_shaped("<modelName>"@),
        tag_shaped("</modelName>"@),
        tag_shaped("<UDN>"@),
        tag_shaped("</UDN>"@),
{
    reveal_strlit("<");
    reveal_strlit("</");
    reveal_strlit(">");
    reveal_strlit("deviceType");
    reveal_strlit("friendlyName");
    reveal_strlit("manufacturer");
    reveal_strlit("modelName");
    reveal_strlit("UDN");
    reveal_strlit("<deviceType>");
    reveal_strlit("</deviceType>");
    reveal_strlit("<friendlyName>");
    reveal_strlit("</friendlyName>");
    reveal_strlit("<manufacturer>");
    reveal_strlit("</manufacturer>");
    reveal_strlit("<modelName>");
    reveal_strlit("</modelName>");
    reveal_strlit("<UDN>");
    reveal_strlit("</UDN>");
    assert(open_tag("deviceType"@) =~= "<deviceType>"@);
    assert(close_tag("deviceType"@) =~= "</deviceType>"@);
    assert(open_tag("friendlyName"@) =~= "<friendlyName>"@);
    assert(close_tag("friendlyName"@) =~= "</friendlyName>"@);
    assert(open_tag("manufacturer"@) =~= "<manufacturer>"@);
    assert(close_tag("manufacturer"@) =~= "</manufacturer>"@);
    assert(open_tag("modelName"@) =~= "<modelName>"@);
    assert(close_tag("modelName"@) =~= "</modelName>"@);
    assert(open_tag("UDN"@) =~= "<UDN>"@);
    assert(close_tag("UDN"@) =~= "</UDN>"@);
}

/// Every piece of the document is free of `<` or a single tag.
proof fn lemma_pieces_ok(
    device_type: Seq<char>,
    friendly_name: Seq<char>,
    manufacturer: Seq<char>,
    model_name: Seq<char>,
    udn: Seq<char>,
)
    ensures
        forall|j: int|
            0 <= j < 42 ==> piece_ok(
                #[trigger] description_pieces(
                    device_type,
                    friendly_name,
                    manufacturer,
                    model_name,
                    udn,
                )[j],
            ),
        description_pieces(device_type, friendly_name, manufacturer, model_name, udn).len() == 42,
{
    let ps = description_pieces(device_type, friendly_name, manufacturer, model_name, udn);
    lemma_escape_no_open_angle(device_type);
    lemma_escape_no_open_angle(friendly_name);
    lemma_escape_no_open_angle(manufacturer);
    lemma_escape_no_open_angle(model_name);
    lemma_escape_no_open_angle(udn);
    lemma_tags();
    reveal_strlit("<?xml version=\"1.0\"?>");
    reveal_strlit("\n");
    reveal_strlit("<root xmlns=\"urn:schemas-upnp-org:device-1-0\">");
    reveal_strlit("\n  ");
    reveal_strlit("<specVersion>");
    reveal_strlit("\n    ");
    reveal_strlit("<major>");
    reveal_strlit("1");
    reveal_strlit("</major>");
    reveal_strlit("<minor>");
    reveal_strlit("0");
    reveal_strlit("</minor>");
    reveal_strlit("</specVersion>");
    reveal_strlit("<device>");
    reveal_strlit("</device>");
    reveal_strlit("</root>");
    assert forall|j: int| 0 <= j < 42 implies piece_ok(#[trigger] ps[j]) by {
        if j == 0 {
            assert(tag_shaped(ps[0]));
        } else if j == 1 || j == 39 || j == 41 {
            assert(no_open_angle(ps[j]));
        } else if j == 2 {
            assert(tag_shaped(ps[2]));
        } else if j == 3 || j == 13 || j == 15 || j == 37 {
            assert(no_open_angle(ps[j]));
        } else if j == 5 || j == 9 || j == 17 || j == 21 || j == 25 || j == 29 || j == 33 {
            assert(no_open_angle(ps[j]));
        } else if j == 7 || j == 11 {
            assert(no_open_angle(ps[j]));
        } else if j == 19 || j == 23 || j == 27 || j == 31 || j == 35 {
            assert(no_open_angle(ps[j]));
        } else {
            assert(tag_shaped(ps[j]));
        }
    }
}

proof fn lemma_ne_len(a: Seq<char>, b: Seq<char>)
    requires
        a.len() != b.len(),
    ensures
        a != b,
{
}

proof fn lemma_ne_at(a: Seq<char>, b: Seq<char>, i: int)
    requires
        0 <= i < a.len(),
        0 <= i < b.len(),
        a[i] != b[i],
    ensures
        a != b,
{
}

proof fn lemma_ne_plain(a: Seq<char>, t: Seq<char>)
    requires
        no_open_angle(a),
        t.len() > 0,
        t[0] == '<',
    ensures
        a != t,
{
    if a.len() > 0 {
        assert(a[0] != '<');
    }
}

/// The `deviceType` element of the document is the escaped `device_type`.
proof fn read_back_device_type(
    device_type: Seq<char>,
    friendly_name: Seq<char>,
    manufacturer: Seq<char>,
    model_name: Seq<char>,
    udn: Seq<char>,
)
    ensures
        spec_extract_tag(
            description_xml(device_type, friendly_name, manufacturer, model_name, udn),
            "deviceType"@,
        ) == Ok::<Seq<char>, TagFailure>(escape(device_type)),
{
    let ps = description_pieces(device_type, friendly_name, manufacturer, model_name, udn);
    lemma_pieces_ok(device_type, friendly_name, manufacturer, model_name, udn);
    lemma_tags();
    lemma_escape_no_open_angle(device_type);
    reveal_strlit("\n");
    reveal_strlit("\n  ");
    reveal_strlit("\n    ");
    reveal_strlit("1");
    reveal_strlit("0");
    lemma_escape_no_open_angle(device_type);
    lemma_escape_no_open_angle(friendly_name);
    lemma_escape_no_open_angle(manufacturer);
    lemma_escape_no_open_angle(model_name);
    let open = "<deviceType>"@;
    reveal_strlit("<deviceType>");
    reveal_strlit("<?xml version=\"1.0\"?>");
    reveal_strlit("<root xmlns=\"urn:schemas-upnp-org:device-1-0\">");
    reveal_strlit("<specVersion>");
    reveal_strlit("<major>");
    reveal_strlit("</major>");
    reveal_strlit("<minor>");
    reveal_strlit("</minor>");
    reveal_strlit("</specVersion>");
    reveal_strlit("<device>");
    assert forall|j: int| 0 <= j < 18 implies piece_ok(#[trigger] ps[j]) && ps[j] != open_tag(
        "deviceType"@,
    ) by {
        if j == 0 {
            lemma_ne_len(ps[0], open);
        } else if j == 1 {
            lemma_ne_plain(ps[1], open);
        } else if j == 2 {
            lemma_ne_len(ps[2], open);
        } else if j == 3 {
            lemma_ne_plain(ps[3], open);
        } else if j == 4 {
            lemma_ne_len(ps[4], open);
        } else if j == 5 {
            lemma_ne_plain(ps[5], open);
        } else if j == 6 {
            lemma_ne_len(ps[6], open);
        } else if j == 7 {
            lemma_ne_plain(ps[7], open);
        } else if j == 8 {
            lemma_ne_len(ps[8], open);
        } else if j == 9 {
            lemma_ne_plain(ps[9], open);
        } else if j == 10 {
            lemma_ne_len(ps[10], open);
        } else if j == 11 {
            lemma_ne_plain(ps[11], open);
        } else if j == 12 {
            lemma_ne_len(ps[12], open);
        } else if j == 13 {
            lemma_ne_plain(ps[13], open);
        } else if j == 14 {
            lemma_ne_len(ps[14], open);
        } else if j == 15 {
            lemma_ne_plain(ps[15], open);
        } else if j == 16 {
            lemma_ne_len(ps[16], open);
        } else if j == 17 {
            lemma_ne_plain(ps[17], open);
        }
    }
    lemma_extract_pieces(ps, "deviceType"@, 18);
}

/// The `friendlyName` element of the document is the escaped `friendly_name`.
proof fn read_back_friendly_name(
    device_type: Seq<char>,
    friendly_name: Seq<char>,
    manufacturer: Seq<char>,
    model_name: Seq<char>,
    udn: Seq<char>,
)
    ensures
        spec_extract_tag(
            description_xml(device_type, friendly_name, manufacturer, model_name, udn),
            "friendlyName"@,
        ) == Ok::<Seq<char>, TagFailure>(escape(friendly_name)),
{
    let ps = description_pieces(device_type, friendly_name, manufacturer, model_name, udn);
    lemma_pieces_ok(device_type, friendly_name, manufacturer, model_name, udn);
    lemma_tags();
    lemma_escape_no_open_angle(friendly_name);
    reveal_strlit("\n");
    reveal_strlit("\n  ");
    reveal_strlit("\n    ");
    reveal_strlit("1");
    reveal_strlit("0");
    lemma_escape_no_open_angle(device_type);
    lemma_escape_no_open_angle(friendly_name);
    lemma_escape_no_open_angle(manufacturer);
    lemma_escape_no_open_angle(model_name);
    let open = "<friendlyName>"@;
    reveal_strlit("<friendlyName>");
    reveal_strlit("<?xml version=\"1.0\"?>");
    reveal_strlit("<root xmlns=\"urn:schemas-upnp-org:device-1-0\">");
    reveal_strlit("<specVersion>");
    reveal_strlit("<major>");
    reveal_strlit("</major>");
    reveal_strlit("<minor>");
    reveal_strlit("</minor>");
    reveal_strlit("</specVersion>");
    reveal_strlit("<device>");
    reveal_strlit("<deviceType>");
    reveal_strlit("</deviceType>");
    assert forall|j: int| 0 <= j < 22 implies piece_ok(#[trigger] ps[j]) && ps[j] != open_tag(
        "friendlyName"@,
    ) by {
        if j == 0 {
            lemma_ne_len(ps[0], open);
        } else if j == 1 {
            lemma_ne_plain(ps[1], open);
        } else if j == 2 {
            lemma_ne_len(ps[2], open);
        } else if j == 3 {
            lemma_ne_plain(ps[3], open);
        } else if j == 4 {
            lemma_ne_len(ps[4], open);
        } else if j == 5 {
            lemma_ne_plain(ps[5], open);
        } else if j == 6 {
            lemma_ne_len(ps[6], open);
        } else if j == 7 {
            lemma_ne_plain(ps[7], open);
        } else if j == 8 {
            lemma_ne_len(ps[8], open);
        } else if j == 9 {
            lemma_ne_plain(ps[9], open);
        } else if j == 10 {
            lemma_ne_len(ps[10], open);
        } else if j == 11 {
            lemma_ne_plain(ps[11], open);
        } else if j == 12 {
            lemma_ne_len(ps[12], open);
        } else if j == 13 {
            lemma_ne_plain(ps[13], open);
        } else if j == 14 {
            lemma_ne_at(ps[14], open, 1);
        } else if j == 15 {
            lemma_ne_plain(ps[15], open);
        } else if j == 16 {
            lemma_ne_len(ps[16], open);
        } else if j == 17 {
            lemma_ne_plain(ps[17], open);
        } else if j == 18 {
            lemma_ne_len(ps[18], open);
        } else if j == 19 {
            lemma_ne_plain(ps[19], open);
        } else if j == 20 {
            lemma_ne_len(ps[20], open);
        } else if j == 21 {
            lemma_ne_plain(ps[21], open);
        }
    }
    lemma_extract_pieces(ps, "friendlyName"@, 22);
}

/// The `manufacturer` element of the document is the escaped `manufacturer`.
proof fn read_back_manufacturer(
    device_type: Seq<char>,
    friendly_name: Seq<char>,
    manufacturer: Seq<char>,
    model_name: Seq<char>,
    udn: Seq<char>,
)
    ensures
        spec_extract_tag(
            description_xml(device_type, friendly_name, manufacturer, model_name, udn),
            "manufacturer"@,
        ) == Ok::<Seq<char>, TagFailure>(escape(manufacturer)),
{
    let ps = description_pieces(device_type, friendly_name, manufacturer, model_name, udn);
    lemma_pieces_ok(device_type, friendly_name, manufacturer, model_name, udn);
    lemma_tags();
    lemma_escape_no_open_angle(manufacturer);
    reveal_strlit("\n");
    reveal_strlit("\n  ");
    reveal_strlit("\n    ");
    reveal_strlit("1");
    reveal_strlit("0");
    lemma_escape_no_open_angle(device_type);
    lemma_escape_no_open_angle(friendly_name);
    lemma_escape_no_open_angle(manufacturer);
    lemma_escape_no_open_angle(model_name);
    let open = "<manufacturer>"@;
    reveal_strlit("<manufacturer>");
    reveal_strlit("<?xml version=\"1.0\"?>");
    reveal_strlit("<root xmlns=\"urn:schemas-upnp-org:device-1-0\">");
    reveal_strlit("<specVersion>");
    reveal_strlit("<major>");
    reveal_strlit("</major>");
    reveal_strlit("<minor>");
    reveal_strlit("</minor>");
    reveal_strlit("</specVersion>");
    reveal_strlit("<device>");
    reveal_strlit("<deviceType>");
    reveal_strlit("</deviceType>");
    reveal_strlit("<friendlyName>");
    reveal_strlit("</friendlyName>");
    assert forall|j: int| 0 <= j < 26 implies piece_ok(#[trigger] ps[j]) && ps[j] != open_tag(
        "manufacturer"@,
    ) by {
        if j == 0 {
            lemma_ne_len(ps[0], open);
        } else if j == 1 {
            lemma_ne_plain(ps[1], open);
        } else if j == 2 {
            lemma_ne_len(ps[2], open);
        } else if j == 3 {
            lemma_ne_plain(ps[3], open);
        } else if j == 4 {
            lemma_ne_len(ps[4], open);
        } else if j == 5 {
            lemma_ne_plain(ps[5], open);
        } else if j == 6 {
            lemma_ne_len(ps[6], open);
        } else if j == 7 {
            lemma_ne_plain(ps[7], open);
        } else if j == 8 {
            lemma_ne_len(ps[8], open);
        } else if j == 9 {
            lemma_ne_plain(ps[9], open);
        } else if j == 10 {
            lemma_ne_len(ps[10], open);
        } else if j == 11 {
            lemma_ne_plain(ps[11], open);
        } else if j == 12 {
            lemma_ne_len(ps[12], open);
        } else if j == 13 {
            lemma_ne_plain(ps[13], open);
        } else if j == 14 {
            lemma_ne_at(ps[14], open, 1);
        } else if j == 15 {
            lemma_ne_plain(ps[15], open);
        } else if j == 16 {
            lemma_ne_len(ps[16], open);
        } else if j == 17 {
            lemma_ne_plain(ps[17], open);
        } else if j == 18 {
            lemma_ne_len(ps[18], open);
        } else if j == 19 {
            lemma_ne_plain(ps[19], open);
        } else if j == 20 {
            lemma_ne_len(ps[20], open);
        } else if j == 21 {
            lemma_ne_plain(ps[21], open);
        } else if j == 22 {
            lemma_ne_at(ps[22], open, 1);
        } else if j == 23 {
            lemma_ne_plain(ps[23], open);
        } else if j == 24 {
            lemma_ne_len(ps[24], open);
        } else if j == 25 {
            lemma_ne_plain(ps[25], open);
        }
    }
    lemma_extract_pieces(ps, "manufacturer"@, 26);
}

/// The `modelName` element of the document is the escaped `model_name`.
proof fn read_back_model_name(
    device_type: Seq<char>,
    friendly_name: Seq<char>,
    manufacturer: Seq<char>,
    model_name: Seq<char>,
    udn: Seq<char>,
)
    ensures
        spec_extract_tag(
            description_xml(device_type, friendly_name, manufacturer, model_name, udn),
            "modelName"@,
        ) == Ok::<Seq<char>, TagFailure>(escape(model_name)),
{
    let ps = description_pieces(device_type, friendly_name, manufacturer, model_name, udn);
    lemma_pieces_ok(device_type, friendly_name, manufacturer, model_name, udn);
    lemma_tags();
    lemma_escape_no_open_angle(model_name);
    reveal_strlit("\n");
    reveal_strlit("\n  ");
    reveal_strlit("\n    ");
    reveal_strlit("1");
    reveal_strlit("0");
    lemma_escape_no_open_angle(device_type);
    lemma_escape_no_open_angle(friendly_name);
    lemma_escape_no_open_angle(manufacturer);
    lemma_escape_no_open_angle(model_name);
    let open = "<modelName>"@;
    reveal_strlit("<modelName>");
    reveal_strlit("<?xml version=\"1.0\"?>");
    reveal_strlit("<root xmlns=\"urn:schemas-upnp-org:device-1-0\">");
    reveal_strlit("<specVersion>");
    reveal_strlit("<major>");
    reveal_strlit("</major>");
    reveal_strlit("<minor>");
    reveal_strlit("</minor>");
    reveal_strlit("</specVersion>");
    reveal_strlit("<device>");
    reveal_strlit("<deviceType>");
    reveal_strlit("</deviceType>");
    reveal_strlit("<friendlyName>");
    reveal_strlit("</friendlyName>");
    reveal_strlit("<manufacturer>");
    reveal_strlit("</manufacturer>");
    assert forall|j: int| 0 <= j < 30 implies piece_ok(#[trigger] ps[j]) && ps[j] != open_tag(
        "modelName"@,
    ) by {
        if j == 0 {
            lemma_ne_len(ps[0], open);
        } else if j == 1 {
            lemma_ne_plain(ps[1], open);
        } else if j == 2 {
            lemma_ne_len(ps[2], open);
        } else if j == 3 {
            lemma_ne_plain(ps[3], open);
        } else if j == 4 {
            lemma_ne_len(ps[4], open);
        } else if j == 5 {
            lemma_ne_plain(ps[5], open);
        } else if j == 6 {
            lemma_ne_len(ps[6], open);
        } else if j == 7 {
            lemma_ne_plain(ps[7], open);
        } else if j == 8 {
            lemma_ne_len(ps[8], open);
        } else if j == 9 {
            lemma_ne_plain(ps[9], open);
        } else if j == 10 {
            lemma_ne_len(ps[10], open);
        } else if j == 11 {
            lemma_ne_plain(ps[11], open);
        } else if j == 12 {
            lemma_ne_len(ps[12], open);
        } else if j == 13 {
            lemma_ne_plain(ps[13], open);
        } else if j == 14 {
            lemma_ne_len(ps[14], open);
        } else if j == 15 {
            lemma_ne_plain(ps[15], open);
        } else if j == 16 {
            lemma_ne_len(ps[16], open);
        } else if j == 17 {
            lemma_ne_plain(ps[17], open);
        } else if j == 18 {
            lemma_ne_len(ps[18], open);
        } else if j == 19 {
            lemma_ne_plain(ps[19], open);
        } else if j == 20 {
            lemma_ne_len(ps[20], open);
        } else if j == 21 {
            lemma_ne_plain(ps[21], open);
        } else if j == 22 {
            lemma_ne_len(ps[22], open);
        } else if j == 23 {
            lemma_ne_plain(ps[23], open);
        } else if j == 24 {
            lemma_ne_len(ps[24], open);
        } else if j == 25 {
            lemma_ne_plain(ps[25], open);
        } else if j == 26 {
            lemma_ne_len(ps[26], open);
        } else if j == 27 {
            lemma_ne_plain(ps[27], open);
        } else if j == 28 {
            lemma_ne_len(ps[28], open);
        } else if j == 29 {
            lemma_ne_plain(ps[29], open);
        }
    }
    lemma_extract_pieces(ps, "modelName"@, 30);
}

/// The `UDN` element of the document is the escaped `udn`.
proof fn read_back_udn(
    device_type: Seq<char>,
    friendly_name: Seq<char>,
    manufacturer: Seq<char>,
    model_name: Seq<char>,
    udn: Seq<char>,
)
    ensures
        spec_extract_tag(
            description_xml(device_type, friendly_name, manufacturer, model_name, udn),
            "UDN"@,
        ) == Ok::<Seq<char>, TagFailure>(escape(udn)),
{
    let ps = description_pieces(device_type, friendly_name, manufacturer, model_name, udn);
    lemma_pieces_ok(device_type, friendly_name, manufacturer, model_name, udn);
    lemma_tags();
    lemma_escape_no_open_angle(udn);
    reveal_strlit("\n");
    reveal_strlit("\n  ");
    reveal_strlit("\n    ");
    reveal_strlit("1");
    reveal_strlit("0");
    lemma_escape_no_open_angle(device_type);
    lemma_escape_no_open_angle(friendly_name);
    lemma_escape_no_open_angle(manufacturer);
    lemma_escape_no_open_angle(model_name);
    let open = "<UDN>"@;
    reveal_strlit("<UDN>");
    reveal_strlit("<?xml version=\"1.0\"?>");
    reveal_strlit("<root xmlns=\"urn:schemas-upnp-org:device-1-0\">");
    reveal_strlit("<specVersion>");
    reveal_strlit("<major>");
    reveal_strlit("</major>");
    reveal_strlit("<minor>");
    reveal_strlit("</minor>");
    reveal_strlit("</specVersion>");
    reveal_strlit("<device>");
    reveal_strlit("<deviceType>");
    reveal_strlit("</deviceType>");
    reveal_strlit("<friendlyName>");
    reveal_strlit("</friendlyName>");
    reveal_strlit("<manufacturer>");
    reveal_strlit("</manufacturer>");
    reveal_strlit("<modelName>");
    reveal_strlit("</modelName>");
    assert forall|j: int| 0 <= j < 34 implies piece_ok(#[trigger] ps[j]) && ps[j] != open_tag(
        "UDN"@,
    ) by {
        if j == 0 {
            lemma_ne_len(ps[0], open);
        } else if j == 1 {
            lemma_ne_plain(ps[1], open);
        } else if j == 2 {
            lemma_ne_len(ps[2], open);
        } else if j == 3 {
            lemma_ne_plain(ps[3], open);
        } else if j == 4 {
            lemma_ne_len(ps[4], open);
        } else if j == 5 {
            lemma_ne_plain(ps[5], open);
        } else if j == 6 {
            lemma_ne_len(ps[6], open);
        } else if j == 7 {
            lemma_ne_plain(ps[7], open);
        } else if j == 8 {
            lemma_ne_len(ps[8], open);
        } else if j == 9 {
            lemma_ne_plain(ps[9], open);
        } else if j == 10 {
            lemma_ne_len(ps[10], open);
        } else if j == 11 {
            lemma_ne_plain(ps[11], open);
        } else if j == 12 {
            lemma_ne_len(ps[12], open);
        } else if j == 13 {
            lemma_ne_plain(ps[13], open);
        } else if j == 14 {
            lemma_ne_len(ps[14], open);
        } else if j == 15 {
            lemma_ne_plain(ps[15], open);
        } else if j == 16 {
            lemma_ne_len(ps[16], open);
        } else if j == 17 {
            lemma_ne_plain(ps[17], open);
        } else if j == 18 {
            lemma_ne_len(ps[18], open);
        } else if j == 19 {
            lemma_ne_plain(ps[19], open);
        } else if j == 20 {
            lemma_ne_len(ps[20], open);
        } else if j == 21 {
            lemma_ne_plain(ps[21], open);
        } else if j == 22 {
            lemma_ne_len(ps[22], open);
        } else if j == 23 {
            lemma_ne_plain(ps[23], open);
        } else if j == 24 {
            lemma_ne_len(ps[24], open);
        } else if j == 25 {
            lemma_ne_plain(ps[25], open);
        } else if j == 26 {
            lemma_ne_len(ps[26], open);
        } else if j == 27 {
            lemma_ne_plain(ps[27], open);
        } else if j == 28 {
            lemma_ne_len(ps[28], open);
        } else if j == 29 {
            lemma_ne_plain(ps[29], open);
        } else if j == 30 {
            lemma_ne_len(ps[30], open);
        } else if j == 31 {
            lemma_ne_plain(ps[31], open);
        } else if j == 32 {
            lemma_ne_len(ps[32], open);
        } else if j == 33 {
            lemma_ne_plain(ps[33], open);
        }
    }
    lemma_extract_pieces(ps, "UDN"@, 34);
}

/// Reading the fields of a device description document gives back the
/// escaped field values that it was built from.
pub proof fn description_fields_read_back(
    device_type: Seq<char>,
    friendly_name: Seq<char>,
    manufacturer: Seq<char>,
    model_name: Seq<char>,
    udn: Seq<char>,
)
    ensures
        spec_parse_fields(description_xml(device_type, friendly_name, manufacturer, model_name, udn))
            == Ok::<FieldsView, TagFailure>(
            FieldsView {
                friendly_name: escape(friendly_name),
                device_type: escape(device_type),
                udn: escape(udn),
                manufacturer: escape(manufacturer),
                model_name: escape(model_name),
            },
        ),
{
    read_back_device_type(device_type, friendly_name, manufacturer, model_name, udn);
    read_back_friendly_name(device_type, friendly_name, manufacturer, model_name, udn);
    read_back_manufacturer(device_type, friendly_name, manufacturer, model_name, udn);
    read_back_model_name(device_type, friendly_name, manufacturer, model_name, udn);
    read_back_udn(device_type, friendly_name, manufacturer, model_name, udn);
}

/// Fields without markup characters are read back exactly from the document
/// built from them.
pub proof fn description_round_trip(
    device_type: Seq<char>,
    friendly_name: Seq<char>,
    manufacturer: Seq<char>,
    model_name: Seq<char>,
    udn: Seq<char>,
)
    requires
        forall|i: int| 0 <= i < device_type.len() ==> !#[trigger] is_markup_char(device_type[i]),
        forall|i: int|
            0 <= i < friendly_name.len() ==> !#[trigger] is_markup_char(friendly_name[i]),
        forall|i: int|
            0 <= i < manufacturer.len() ==> !#[trigger] is_markup_char(manufacturer[i]),
        forall|i: int| 0 <= i < model_name.len() ==> !#[trigger] is_markup_char(model_name[i]),
        forall|i: int| 0 <= i < udn.len() ==> !#[trigger] is_markup_char(udn[i]),
    ensures
        spec_parse_fields(description_xml(device_type, friendly_name, manufacturer, model_name, udn))
            == Ok::<FieldsView, TagFailure>(
            FieldsView { friendly_name, device_type, udn, manufacturer, model_name },
        ),
{
    description_fields_read_back(device_type, friendly_name, manufacturer, model_name, udn);
    lemma_escape_plain(device_type);
    lemma_escape_plain(friendly_name);
    lemma_escape_plain(manufacturer);
    lemma_escape_plain(model_name);
    lemma_escape_plain(udn);
}

// ---------------------------------------------------------------------------
// Serving the document over HTTP
// ---------------------------------------------------------------------------

/// The blank line `"\r\n\r\n"` cannot begin in a line break that is followed
/// by text.
proof fn lemma_find_after_crlf(r: Seq<char>, p: Seq<char>)
    requires
        p == seq!['\r', '\n', '\r', '\n'],
        r.len() > 0,
        r[0] != '\r',
    ensures
        find(seq!['\r', '\n'] + r, p) == shift(find(r, p), 2),
{
    let s = seq!['\r', '\n'] + r;
    assert forall|j: int| 0 <= j < 2 implies !#[trigger] matches_at(s, p, j) by {
        if matches_at(s, p, j) {
            if j == 0 {
                assert(s.subrange(0, 4)[2] == p[2]);
                assert(s[2] == r[0]);
            } else {
                assert(s.subrange(1, 5)[0] == p[0]);
            }
        }
    }
    lemma_find_shift(seq!['\r', '\n'], r, p);
}

proof fn lemma_find_without_cr(a: Seq<char>, r: Seq<char>, p: Seq<char>)
    requires
        p == seq!['\r', '\n', '\r', '\n'],
        forall|i: int| 0 <= i < a.len() ==> a[i] != '\r',
    ensures
        find(a + r, p) == shift(find(r, p), a.len() as int),
{
    lemma_no_match_without(a, r, p);
    lemma_find_shift(a, r, p);
}

proof fn lemma_response_shape(config: DeviceDescriptionConfig)
    ensures
        description_response_text(config) == "HTTP/1.1 200 OK"@ + (seq!['\r', '\n'] + (
        "Content-Type: application/xml; charset=utf-8"@ + (seq!['\r', '\n'] + (("Content-Length: "@
            + decimal(encode_utf8(config_xml(config)).len())) + (seq!['\r', '\n'] + (
        "Connection: close"@ + (seq!['\r', '\n', '\r', '\n'] + config_xml(config)))))))),
{
    let crlf = seq!['\r', '\n'];
    assert("HTTP/1.1 200 OK\r\nContent-Type: application/xml; charset=utf-8\r\nContent-Length: "@
        =~= "HTTP/1.1 200 OK"@ + crlf + "Content-Type: application/xml; charset=utf-8"@ + crlf
        + "Content-Length: "@) by {
        reveal_strlit(
            "HTTP/1.1 200 OK\r\nContent-Type: application/xml; charset=utf-8\r\nContent-Length: ",
        );
        reveal_strlit("HTTP/1.1 200 OK");
        reveal_strlit("Content-Type: application/xml; charset=utf-8");
        reveal_strlit("Content-Length: ");
    }
    assert("\r\nConnection: close\r\n\r\n"@ =~= crlf + "Connection: close"@ + seq![
        '\r',
        '\n',
        '\r',
        '\n',
    ]) by {
        reveal_strlit("\r\nConnection: close\r\n\r\n");
        reveal_strlit("Connection: close");
    }
    assert(description_response_text(config) =~= "HTTP/1.1 200 OK"@ + (crlf + (
    "Content-Type: application/xml; charset=utf-8"@ + (crlf + (("Content-Length: "@ + decimal(
        encode_utf8(config_xml(config)).len(),
    )) + (crlf + ("Connection: close"@ + (seq!['\r', '\n', '\r', '\n'] + config_xml(
        config,
    )))))))));
}

/// An HTTP client reading the response that serves a device description gets
/// exactly the document as its body.
pub proof fn served_description_body(config: DeviceDescriptionConfig)
    ensures
        spec_response_body(description_response_text(config)) == Ok::<Seq<char>, HttpFailure>(
            config_xml(config),
        ),
{
    let crlf = seq!['\r', '\n'];
    let p = seq!['\r', '\n', '\r', '\n'];
    let x = config_xml(config);
    let d = decimal(encode_utf8(x).len());
    let a = "HTTP/1.1 200 OK"@;
    let b = "Content-Type: application/xml; charset=utf-8"@;
    let c = "Content-Length: "@ + d;
    let e = "Connection: close"@;
    let r7 = p + x;
    let r6 = e + r7;
    let r5 = crlf + r6;
    let r4 = c + r5;
    let r3 = crlf + r4;
    let r2 = b + r3;
    let r1 = crlf + r2;
    let resp = a + r1;
    lemma_response_shape(config);
    assert(description_response_text(config) == resp);
    reveal_strlit("HTTP/1.1 200 OK");
    reveal_strlit("Content-Type: application/xml; charset=utf-8");
    reveal_strlit("Content-Length: ");
    reveal_strlit("Connection: close");
    reveal_strlit("\r\n\r\n");
    reveal_strlit("HTTP/1.1 200");
    assert("\r\n\r\n"@ =~= p);
    lemma_decimal_digits(encode_utf8(x).len());
    assert forall|i: int| 0 <= i < c.len() implies c[i] != '\r' by {
        if i >= 16 {
            assert(c[i] == d[i - 16]);
            assert(is_digit(d[i - 16]));
        }
    }
    assert(r7.subrange(0, 4) =~= p);
    lemma_find_is(r7, p, 0);
    lemma_find_without_cr(e, r7, p);
    assert(r6[0] == 'C');
    lemma_find_after_crlf(r6, p);
    lemma_find_without_cr(c, r5, p);
    assert(r4[0] == 'C');
    lemma_find_after_crlf(r4, p);
    lemma_find_without_cr(b, r3, p);
    assert(r2[0] == 'C');
    lemma_find_after_crlf(r2, p);
    lemma_find_without_cr(a, r1, p);
    let i: int = (a.len() + 2 + b.len() + 2 + c.len() + 2 + e.len()) as int;
    assert(find(resp, p) == Some(i));
    let headers = resp.take(i);
    assert(headers[15] == '\r');
    assert(headers[16] == '\n');
    assert forall|j: int| 0 <= j < 16 implies headers[j] != '\n' by {
        if j < 15 {
            assert(headers[j] == a[j]);
        }
    }
    lemma_index_of_is(headers, '\n', 16);
    assert(headers.take(16).drop_last() =~= a);
    assert(status_line(headers) == Some(a));
    assert(a.take(12) =~= "HTTP/1.1 200"@);
    assert(resp.skip(i + 4) =~= x);
    assert(spec_split_http_response(resp) == Ok::<(Seq<char>, Seq<char>), HttpFailure>((a, x)));
}

/// An HTTP client fetching a served device description reads back every
/// field of the configuration, escaped; fields without markup characters
/// come back exactly.
pub proof fn served_description_read_back(config: DeviceDescriptionConfig)
    ensures
        spec_response_body(description_response_text(config)) matches Ok(body) && spec_parse_fields(
            body,
        ) == Ok::<FieldsView, TagFailure>(
            FieldsView {
                friendly_name: escape(config.friendly_name@),
                device_type: escape(config.device_type@),
                udn: escape(config.udn@),
                manufacturer: escape(config.manufacturer@),
                model_name: escape(config.model_name@),
            },
        ),
{
    served_description_body(config);
    description_fields_read_back(
        config.device_type@,
        config.friendly_name@,
        config.manufacturer@,
        config.model_name@,
        config.udn@,
    );
}

// ---------------------------------------------------------------------------
// URLs
// ---------------------------------------------------------------------------

/// A URL written from a host without `/`, a port and a path that starts with
/// `/` is read back into exactly that host, port and path.
pub proof fn url_round_trip(host: Seq<char>, port: u16, path: Seq<char>)
    requires
        forall|i: int| 0 <= i < host.len() ==> host[i] != '/',
        path.len() > 0,
        path[0] == '/',
    ensures
        spec_parse_http_url("http://"@ + host + ":"@ + decimal(port as nat) + path) == Ok::<
            (Seq<char>, u16, Seq<char>),
            UrlFailure,
        >((host, port, path)),
{
    reveal_strlit("http://");
    reveal_strlit(":");
    let d = decimal(port as nat);
    lemma_decimal_digits(port as nat);
    let url = "http://"@ + host + ":"@ + d + path;
    let rest = url.skip(7);
    assert(url.take(7) =~= "http://"@);
    assert(starts_with(url, "http://"@));
    let k: int = (host.len() + 1 + d.len()) as int;
    assert(rest =~= host + seq![':'] + d + path);
    assert(rest[k] == '/');
    assert forall|j: int| 0 <= j < k implies rest[j] != '/' by {
        if j < host.len() {
            assert(rest[j] == host[j]);
        } else if j > host.len() {
            assert(rest[j] == d[j - host.len() - 1]);
            assert(is_digit(d[j - host.len() - 1]));
        }
    }
    lemma_index_of_is(rest, '/', k);
    let authority = rest.take(k);
    assert(authority =~= host + seq![':'] + d);
    assert(rest.skip(k) =~= path);
    assert forall|j: int| host.len() < j < authority.len() implies authority[j] != ':' by {
        assert(authority[j] == d[j - host.len() - 1]);
        assert(is_digit(d[j - host.len() - 1]));
    }
    lemma_last_index_of_is(authority, ':', host.len() as int);
    assert(authority.skip(host.len() as int + 1) =~= d);
    assert(authority.take(host.len() as int) =~= host);
    assert(is_digit(d[0]));
    assert(unsigned_digits(d) == d);
    assert(all_digits(d));
    assert(spec_parse_u16(d) == Some(port));
}

/// The blank line `"\r\n\r\n"` cannot begin in a text without line breaks
/// that does not end with `'\r'`.
proof fn lemma_find_in_line(a: Seq<char>, r: Seq<char>, p: Seq<char>)
    requires
        p == seq!['\r', '\n', '\r', '\n'],
        single_line(a),
        a.len() > 0 ==> a.last() != '\r',
    ensures
        find(a + r, p) == shift(find(r, p), a.len() as int),
{
    let s = a + r;
    assert forall|j: int| 0 <= j < a.len() implies !#[trigger] matches_at(s, p, j) by {
        if matches_at(s, p, j) {
            assert(s.subrange(j, j + 4)[1] == p[1]);
            assert(s.subrange(j, j + 4)[0] == p[0]);
            if j + 1 < a.len() {
                assert(s[j + 1] == a[j + 1]);
            } else {
                assert(s[j] == a[j]);
            }
        }
    }
    lemma_find_shift(a, r, p);
}

/// The first blank line of a GET request is its end.
proof fn lemma_get_request_ends_at_blank_line(host: Seq<char>, port: u16, path: Seq<char>)
    requires
        single_line(host),
        single_line(path),
    ensures
        find(get_request_text(host, port, path), "\r\n\r\n"@) == Some(
            get_request_text(host, port, path).len() - 4,
        ),
{
    reveal_strlit("GET ");
    reveal_strlit(" HTTP/1.1\r\nHost: ");
    reveal_strlit(":");
    reveal_strlit("\r\nConnection: close\r\n\r\n");
    reveal_strlit(" HTTP/1.1");
    let d = decimal(port as nat);
    lemma_decimal_digits(port as nat);
    assert(is_digit(d[d.len() - 1]));
    let hv = host + seq![':'] + d;
    assert(hv.last() == d[d.len() - 1]);
    assert(single_line(hv)) by {
        assert forall|i: int| 0 <= i < hv.len() implies hv[i] != '\n' by {
            if i < host.len() {
                assert(hv[i] == host[i]);
            } else if i > host.len() {
                assert(hv[i] == d[i - host.len() - 1]);
                assert(is_digit(d[i - host.len() - 1]));
            }
        }
    }
    let start = "GET "@ + path + " HTTP/1.1"@;
    assert(single_line(start)) by {
        assert forall|i: int| 0 <= i < start.len() implies start[i] != '\n' by {
            if 4 <= i < 4 + path.len() {
                assert(start[i] == path[i - 4]);
            }
        }
    }
    reveal_strlit("\r\n\r\n");
    reveal_strlit("Host: ");
    reveal_strlit("Connection: close");
    let p = seq!['\r', '\n', '\r', '\n'];
    let crlf = seq!['\r', '\n'];
    let b = "Host: "@ + hv;
    let c = "Connection: close"@;
    let t4 = c + p;
    let t3 = crlf + t4;
    let t2 = b + t3;
    let t1 = crlf + t2;
    let req = start + t1;
    assert(get_request_text(host, port, path) =~= req);
    assert("\r\n\r\n"@ =~= p);
    assert(p.subrange(0, 4) =~= p);
    lemma_find_is(p, p, 0);
    assert(single_line(c));
    lemma_find_in_line(c, p, p);
    assert(t4[0] == 'C');
    lemma_find_after_crlf(t4, p);
    assert(single_line(b)) by {
        assert forall|i: int| 0 <= i < b.len() implies b[i] != '\n' by {
            if i >= 6 {
                assert(b[i] == hv[i - 6]);
            }
        }
    }
    assert(b.last() == hv.last());
    lemma_find_in_line(b, t3, p);
    assert(t2[0] == 'H');
    lemma_find_after_crlf(t2, p);
    assert(start.last() == '1');
    lemma_find_in_line(start, t1, p);
}

/// The `GET` request that the client writes names its server in a `Host`
/// header that reads back: parsed as a message, the request has the start line
/// `GET <path> HTTP/1.1`, and its `Host` value, split at its last `:`, gives
/// back the host and a port text that `u16::from_str` reads as the port.
/// (The host and path hold no line break, and the host does not start with
/// whitespace.)
pub proof fn get_request_names_host_and_port(host: Seq<char>, port: u16, path: Seq<char>)
    requires
        single_line(host),
        single_line(path),
        host.len() == 0 || !is_ws(host[0]),
    ensures
        spec_parse_message(get_request_text(host, port, path)) matches Ok(m)
            && m.start_line == "GET "@ + path + " HTTP/1.1"@
            && m.headers.contains_key("HOST"@)
            && last_index_of(m.headers["HOST"@], ':') == Some(host.len() as int)
            && m.headers["HOST"@].take(host.len() as int) == host
            && spec_parse_u16(m.headers["HOST"@].skip(host.len() as int + 1)) == Some(port)
            && m.headers.contains_key("CONNECTION"@)
            && m.headers["CONNECTION"@] == "close"@
            && m.headers.dom() == set!["HOST"@, "CONNECTION"@],
        find(get_request_text(host, port, path), "\r\n\r\n"@) == Some(
            get_request_text(host, port, path).len() - 4,
        ),
{
    reveal_strlit("GET ");
    reveal_strlit(" HTTP/1.1\r\nHost: ");
    reveal_strlit(":");
    reveal_strlit("\r\nConnection: close\r\n\r\n");
    reveal_strlit(" HTTP/1.1");
    reveal_strlit("Host");
    reveal_strlit("HOST");
    reveal_strlit("Connection");
    reveal_strlit("CONNECTION");
    reveal_strlit("close");
    let nl = seq!['\n'];
    let cr = seq!['\r'];
    let sp = seq![' '];
    let colon = seq![':'];
    let d = decimal(port as nat);
    let start = "GET "@ + path + " HTTP/1.1"@;
    let s0 = start + cr;
    let hv = host + colon + d;
    let v1 = sp + hv + cr;
    let v2 = sp + "close"@ + cr;
    let r3 = cr + nl + Seq::<char>::empty();
    let r2 = "Connection"@ + colon + v2 + nl + r3;
    let r1 = "Host"@ + colon + v1 + nl + r2;
    assert(get_request_text(host, port, path) =~= s0 + nl + r1);

    lemma_decimal_digits(port as nat);
    lemma_decimal_field(port as nat);
    assert(is_digit(d[0]));
    assert(is_digit(d[d.len() - 1]));
    assert(hv.last() == d[d.len() - 1]);
    assert(!is_ws(hv[0])) by {
        if host.len() == 0 {
            assert(hv[0] == ':');
        } else {
            assert(hv[0] == host[0]);
        }
    }
    lemma_trim_exact(hv);
    assert(single_line(hv)) by {
        assert forall|i: int| 0 <= i < hv.len() implies hv[i] != '\n' by {
            if i < host.len() {
                assert(hv[i] == host[i]);
            } else if i > host.len() {
                assert(hv[i] == d[i - host.len() - 1]);
            }
        }
    }
    lemma_single_line_field(hv);
    lemma_single_line_field("close"@);
    lemma_trim_field(hv);
    lemma_trim_field("close"@);
    lemma_trim_exact("close"@);
    assert(single_line(s0)) by {
        assert forall|i: int| 0 <= i < s0.len() implies s0[i] != '\n' by {
            if 4 <= i < 4 + path.len() {
                assert(s0[i] == path[i - 4]);
            }
        }
    }
    lemma_trim_pad(Seq::empty(), start, cr);
    assert(Seq::<char>::empty() + start + cr =~= s0);
    assert(start[0] == 'G');
    assert(start.last() == '1');
    lemma_trim_exact(start);

    assert(upper("Host"@) =~= "HOST"@);
    assert(upper("Connection"@) =~= "CONNECTION"@);
    assert(valid_header_name("Host"@));
    assert(valid_header_name("Connection"@));

    let m0 = Map::<Seq<char>, Seq<char>>::empty();
    let m1 = m0.insert("HOST"@, hv);
    let m2 = m1.insert("CONNECTION"@, "close"@);
    lemma_header_lines_step("Host"@, v1, r2, m0);
    lemma_header_lines_step("Connection"@, v2, r3, m1);
    assert(all_ws(cr));
    lemma_header_lines_blank(cr, Seq::empty(), m2);
    lemma_parse_start(s0, r1);
    assert("HOST"@.len() != "CONNECTION"@.len());

    assert forall|j: int| host.len() < j < hv.len() implies hv[j] != ':' by {
        assert(hv[j] == d[j - host.len() - 1]);
        assert(is_digit(d[j - host.len() - 1]));
    }
    lemma_last_index_of_is(hv, ':', host.len() as int);
    assert(hv.take(host.len() as int) =~= host);
    assert(hv.skip(host.len() as int + 1) =~= d);
    assert(unsigned_digits(d) == d);
    assert(all_digits(d));
    assert(spec_parse_u16(d) == Some(port));
    assert(m2.dom() =~= set!["HOST"@, "CONNECTION"@]);

    lemma_get_request_ends_at_blank_line(host, port, path);
}

/// A URL without a port names port 80: `http://host/path` reads back as
/// (host, 80, path), and `http://host` as (host, 80, `/`), for a host without
/// `/` or `:`.
pub proof fn url_without_port_uses_port_80(host: Seq<char>, path: Seq<char>)
    requires
        forall|i: int| 0 <= i < host.len() ==> host[i] != '/' && host[i] != ':',
        path.len() > 0,
        path[0] == '/',
    ensures
        spec_parse_http_url("http://"@ + host + path) == Ok::<
            (Seq<char>, u16, Seq<char>),
            UrlFailure,
        >((host, 80, path)),
        spec_parse_http_url("http://"@ + host) == Ok::<(Seq<char>, u16, Seq<char>), UrlFailure>(
            (host, 80, "/"@),
        ),
{
    reveal_strlit("http://");
    let url = "http://"@ + host + path;
    assert(url.take(7) =~= "http://"@);
    let rest = url.skip(7);
    assert(rest =~= host + path);
    assert(rest[host.len() as int] == '/');
    assert forall|j: int| 0 <= j < host.len() implies rest[j] != '/' by {
        assert(rest[j] == host[j]);
    }
    lemma_index_of_is(rest, '/', host.len() as int);
    assert(rest.take(host.len() as int) =~= host);
    assert(rest.skip(host.len() as int) =~= path);
    lemma_last_index_of(host, ':');

    let url2 = "http://"@ + host;
    assert(url2.take(7) =~= "http://"@);
    assert(url2.skip(7) =~= host);
    lemma_index_of(host, '/');
}

/// A response whose status line is followed by a blank line gives everything
/// after that blank line as its body, whatever it holds, when the status is
/// `HTTP/1.1 200`; any other status is refused with that status line.
pub proof fn response_body_is_text_after_blank_line(status: Seq<char>, body: Seq<char>)
    requires
        status.len() > 0,
        forall|i: int| 0 <= i < status.len() ==> status[i] != '\r' && status[i] != '\n',
    ensures
        spec_response_body(status + "\r\n\r\n"@ + body) == if starts_with(
            status,
            "HTTP/1.1 200"@,
        ) {
            Ok::<Seq<char>, HttpFailure>(body)
        } else {
            Err(HttpFailure::UnexpectedStatus(status))
        },
{
    reveal_strlit("\r\n\r\n");
    let p = seq!['\r', '\n', '\r', '\n'];
    assert("\r\n\r\n"@ =~= p);
    let r = p + body;
    let resp = status + r;
    assert(status + "\r\n\r\n"@ + body =~= resp);
    assert(r.subrange(0, 4) =~= p);
    lemma_find_is(r, p, 0);
    lemma_find_without_cr(status, r, p);
    let i = status.len() as int;
    assert(find(resp, p) == Some(i));
    assert(resp.take(i) =~= status);
    lemma_index_of(status, '\n');
    assert(status_line(status) == Some(status));
    assert(resp.skip(i + 4) =~= body);
}

} // verus!
