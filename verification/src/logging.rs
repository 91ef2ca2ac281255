//! The parts of packet logging that compute: the direction label and the
//! one-line preview of a payload.
use vstd::prelude::*;
use vstd::utf8::{decode_utf8, valid_utf8};

use crate::text::{chars_of, decode_utf8_lossy, string_of, utf8_lossy};

verus! {

/// Which way a packet went.
#[derive(Debug, Clone, Copy, PartialEq, Eq)]
pub enum PacketDirection {
    Inbound,
    Outbound,
}

impl PacketDirection {
    /// The label of the direction in packet logs: `in` or `out`.
    pub fn label(self) -> (s: &'static str)
        ensures
            s@ == match self {
                PacketDirection::Inbound => "in"@,
                PacketDirection::Outbound => "out"@,
            },
    {
        match self {
            PacketDirection::Inbound => "in",
            PacketDirection::Outbound => "out",
        }
    }
}

/// How one character shows in a preview: carriage return and line feed as
/// the two-character escapes `\r` and `\n`, anything else as itself.
pub open spec fn shown_char(c: char) -> Seq<char> {
    if c == '\r' {
        seq!['\\', 'r']
    } else if c == '\n' {
        seq!['\\', 'n']
    } else {
        seq![c]
    }
}

/// `text` with its line breaks shown as escapes.
pub open spec fn show_line_breaks(text: Seq<char>) -> Seq<char>
    decreases text.len(),
{
    if text.len() == 0 {
        Seq::empty()
    } else {
        show_line_breaks(text.drop_last()) + shown_char(text.last())
    }
}

/// The preview of `text`: its first `max_chars` characters once line breaks
/// are shown as escapes, followed by `...` when anything was cut off.
pub open spec fn preview_of(text: Seq<char>, max_chars: nat) -> Seq<char> {
    let shown = show_line_breaks(text);
    if shown.len() > max_chars {
        shown.take(max_chars as int) + "..."@
    } else {
        shown
    }
}

/// The one-line preview of `text` (see `preview_of`).
pub fn preview_text(text: &str, max_chars: usize) -> (s: String)
    ensures
        s@ == preview_of(text@, max_chars as nat),
{
    let v = chars_of(text);
    let mut shown: Vec<char> = Vec::new();
    let mut i: usize = 0;
    while i < v.len()
        invariant
            i <= v@.len(),
            v@ == text@,
            shown@ == show_line_breaks(v@.take(i as int)),
        decreases v@.len() - i,
    {
        let c = v[i];
        if c == '\r' {
            shown.push('\\');
            shown.push('r');
        } else if c == '\n' {
            shown.push('\\');
            shown.push('n');
        } else {
            shown.push(c);
        }
        assert(v@.take(i + 1).drop_last() =~= v@.take(i as int));
        assert(shown@ =~= show_line_breaks(v@.take(i as int)) + shown_char(c));
        i = i + 1;
    }
    assert(v@.take(v@.len() as int) =~= v@);
    if shown.len() > max_chars {
        let mut s = string_of(&shown, 0, max_chars);
        s.append("...");
        assert(shown@.subrange(0, max_chars as int) =~= shown@.take(max_chars as int));
        s
    } else {
        assert(shown@.subrange(0, shown@.len() as int) =~= shown@);
        string_of(&shown, 0, shown.len())
    }
}

/// A one-line preview of a packet payload for logs: the payload decoded as
/// UTF-8 (invalid sequences replaced), line breaks shown as `\r` and `\n`,
/// cut to `max_bytes` characters with `...` appended when it was longer.
pub fn payload_preview(payload: &[u8], max_bytes: usize) -> (s: String)
    ensures
        s@ == preview_of(utf8_lossy(payload@), max_bytes as nat),
        valid_utf8(payload@) ==> s@ == preview_of(decode_utf8(payload@), max_bytes as nat),
{
    let text = decode_utf8_lossy(payload);
    preview_text(text.as_str(), max_bytes)
}

proof fn lemma_show_line_breaks_one_line(text: Seq<char>)
    ensures
        forall|i: int|
            0 <= i < show_line_breaks(text).len() ==> show_line_breaks(text)[i] != '\n'
                && show_line_breaks(text)[i] != '\r',
    decreases text.len(),
{
    if text.len() > 0 {
        lemma_show_line_breaks_one_line(text.drop_last());
        let a = show_line_breaks(text.drop_last());
        let b = shown_char(text.last());
        assert forall|i: int| 0 <= i < (a + b).len() implies (a + b)[i] != '\n' && (a + b)[i]
            != '\r' by {
            if i >= a.len() {
                assert((a + b)[i] == b[i - a.len()]);
            }
        }
    }
}

/// A preview is one line: it holds neither a carriage return nor a line
/// feed, and it is at most three characters longer than the limit.
pub proof fn preview_is_one_line(text: Seq<char>, max_chars: nat)
    ensures
        forall|i: int|
            0 <= i < preview_of(text, max_chars).len() ==> preview_of(text, max_chars)[i] != '\n'
                && preview_of(text, max_chars)[i] != '\r',
        preview_of(text, max_chars).len() <= max_chars + 3,
{
    lemma_show_line_breaks_one_line(text);
    reveal_strlit("...");
    let shown = show_line_breaks(text);
    if shown.len() > max_chars {
        let p = shown.take(max_chars as int) + "..."@;
        assert forall|i: int| 0 <= i < p.len() implies p[i] != '\n' && p[i] != '\r' by {
            if i < max_chars {
                assert(p[i] == shown[i]);
            }
        }
    }
}

} // verus!
